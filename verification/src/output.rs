//! What is reported to the user.
use crate::receipt::ReceiptState;
use crate::text;
use vstd::prelude::*;
use vstd::string::*;

verus! {

/// The version of the report format.
pub const SCHEMA_VERSION: u8 = 1;

/// A report of one command.
#[derive(Debug)]
pub struct Envelope<T> {
    pub schema_version: u8,
    pub command: &'static str,
    pub results: Vec<T>,
    pub summary: Option<CompactSummary>,
}

/// The report of a command's results in the present format.
pub fn envelope<T>(command: &'static str, results: Vec<T>, summary: Option<CompactSummary>) -> (report:
    Envelope<T>)
    ensures
        report.schema_version == SCHEMA_VERSION,
        report.command@ == command@,
        report.results@ == results@,
        report.summary == summary,
{
    Envelope { schema_version: SCHEMA_VERSION, command, results, summary }
}

/// How many targets came to which outcome.
#[derive(Clone, Copy, Debug, PartialEq, Eq, Structural)]
pub struct CompactSummary {
    pub compacted: usize,
    pub already_compacted: usize,
    pub dry_run: usize,
    pub failed: usize,
}

impl CompactSummary {
    pub open spec fn zero() -> CompactSummary {
        CompactSummary { compacted: 0, already_compacted: 0, dry_run: 0, failed: 0 }
    }

    /// How many targets were dealt with.
    pub open spec fn total(self) -> int {
        self.compacted + self.already_compacted + self.dry_run + self.failed
    }
}

impl Default for CompactSummary {
    fn default() -> (summary: Self)
        ensures
            summary == CompactSummary::zero(),
    {
        CompactSummary { compacted: 0, already_compacted: 0, dry_run: 0, failed: 0 }
    }
}

#[derive(Clone, Copy, Debug, PartialEq, Eq, Structural)]
pub enum CompactOutcome {
    Compacted,
    CompactedWithChangedPathsSkipped,
    AlreadyCompacted,
    DryRun,
    Failed,
}

/// What became of one target.
#[derive(Debug)]
pub struct CompactResult {
    pub branch: Option<String>,
    pub path: String,
    pub status: ReceiptState,
    pub outcome: CompactOutcome,
    pub cloned_files: Option<u64>,
    pub eligible_files: Option<u64>,
    pub eligible_logical_bytes: Option<u64>,
    pub eligible_allocated_bytes: Option<u64>,
    pub skipped_divergent_paths: Option<u64>,
    pub skipped_changed_paths: Option<u64>,
    pub error: Option<String>,
}

/// What a result says.
pub struct Reported {
    pub branch: Option<Seq<char>>,
    pub path: Seq<char>,
    pub status: ReceiptState,
    pub outcome: CompactOutcome,
    pub cloned_files: Option<u64>,
    pub eligible_files: Option<u64>,
    pub eligible_logical_bytes: Option<u64>,
    pub eligible_allocated_bytes: Option<u64>,
    pub skipped_divergent_paths: Option<u64>,
    pub skipped_changed_paths: Option<u64>,
    pub error: Option<Seq<char>>,
}

impl View for CompactResult {
    type V = Reported;

    open spec fn view(&self) -> Reported {
        Reported {
            branch: text::optional(self.branch),
            path: self.path@,
            status: self.status,
            outcome: self.outcome,
            cloned_files: self.cloned_files,
            eligible_files: self.eligible_files,
            eligible_logical_bytes: self.eligible_logical_bytes,
            eligible_allocated_bytes: self.eligible_allocated_bytes,
            skipped_divergent_paths: self.skipped_divergent_paths,
            skipped_changed_paths: self.skipped_changed_paths,
            error: text::optional(self.error),
        }
    }
}

/// What a list of results says.
pub open spec fn reported(results: Seq<CompactResult>) -> Seq<Reported> {
    Seq::new(results.len(), |i: int| results[i]@)
}

impl CompactResult {
    /// The branch, or the path where none is checked out.
    pub fn label(&self) -> (label: &str)
        ensures
            label@ == (match self@.branch {
                Some(branch) => branch,
                None => self@.path,
            }),
    {
        match &self.branch {
            Some(branch) => branch.as_str(),
            None => self.path.as_str(),
        }
    }
}

/// What is known of one worktree.
#[derive(Debug)]
pub struct StatusResult {
    pub branch: Option<String>,
    pub path: String,
    pub status: ReceiptState,
}

/// Where a target stands among all of them.
pub fn position(index: usize, total: usize) -> (shown: String)
    ensures
        shown@ == "["@ + text::decimal(index as nat) + "/"@ + text::decimal(total as nat) + "]"@,
{
    let mut shown = "[".to_owned();
    let number = text::decimal_text(index as u64);
    shown.append(number.as_str());
    shown.append("/");
    let number = text::decimal_text(total as u64);
    shown.append(number.as_str());
    shown.append("]");
    shown
}

/// The word for what is being done to a target.
pub fn progress_word(dry_run: bool) -> (word: &'static str)
    ensures
        word@ == (if dry_run {
            "Inspecting"@
        } else {
            "Compacting"@
        }),
{
    if dry_run {
        "Inspecting"
    } else {
        "Compacting"
    }
}

/// The words of the line on a target that was compacted.
#[derive(Debug)]
pub struct SuccessWords {
    pub action: &'static str,
    pub files: u64,
    pub unit: &'static str,
    pub eligible: String,
}

pub open spec fn or_zero(count: Option<u64>) -> u64 {
    match count {
        Some(count) => count,
        None => 0,
    }
}

fn count_or_zero(count: Option<u64>) -> (result: u64)
    ensures
        result == or_zero(count),
{
    match count {
        Some(count) => count,
        None => 0,
    }
}

/// The words of the line on a target that was compacted, or would be.
pub fn success_words(result: &CompactResult, dry_run: bool) -> (words: SuccessWords)
    ensures
        words.action@ == (if dry_run {
            "would compact"@
        } else {
            "compacted"@
        }),
        words.files == (if dry_run {
            or_zero(result.eligible_files)
        } else {
            or_zero(result.cloned_files)
        }),
        words.unit@ == (if words.files == 1 {
            "file"@
        } else {
            "files"@
        }),
        words.eligible@ == shown_bytes(or_zero(result.eligible_allocated_bytes)),
{
    let action = if dry_run {
        "would compact"
    } else {
        "compacted"
    };
    let files = if dry_run {
        count_or_zero(result.eligible_files)
    } else {
        count_or_zero(result.cloned_files)
    };
    let unit = if files == 1 {
        "file"
    } else {
        "files"
    };
    let eligible = bytes(count_or_zero(result.eligible_allocated_bytes));
    SuccessWords { action, files, unit, eligible }
}

/// How a state is shown.
pub open spec fn label_of(state: ReceiptState) -> Seq<char> {
    match state {
        ReceiptState::Compacted => "compacted"@,
        ReceiptState::Created => "created"@,
        ReceiptState::Stale => "stale"@,
        ReceiptState::NotCompacted => "not compacted"@,
        ReceiptState::Invalid => "invalid receipt"@,
        ReceiptState::Unknown => "unknown"@,
    }
}

pub fn status_label(state: ReceiptState) -> (label: &'static str)
    ensures
        label@ == label_of(state),
{
    match state {
        ReceiptState::Compacted => "compacted",
        ReceiptState::Created => "created",
        ReceiptState::Stale => "stale",
        ReceiptState::NotCompacted => "not compacted",
        ReceiptState::Invalid => "invalid receipt",
        ReceiptState::Unknown => "unknown",
    }
}

/// The sign that stands before a state.
pub open spec fn symbol_of(state: ReceiptState) -> Seq<char> {
    match state {
        ReceiptState::Compacted => "\u{2713}"@,
        ReceiptState::Created => "\u{25c6}"@,
        ReceiptState::Stale => "!"@,
        ReceiptState::NotCompacted => "\u{25cb}"@,
        ReceiptState::Invalid => "\u{2717}"@,
        ReceiptState::Unknown => "?"@,
    }
}

pub fn status_symbol(state: ReceiptState) -> (symbol: &'static str)
    ensures
        symbol@ == symbol_of(state),
{
    match state {
        ReceiptState::Compacted => "\u{2713}",
        ReceiptState::Created => "\u{25c6}",
        ReceiptState::Stale => "!",
        ReceiptState::NotCompacted => "\u{25cb}",
        ReceiptState::Invalid => "\u{2717}",
        ReceiptState::Unknown => "?",
    }
}

/// The branch of a status line.
pub fn branch_label(result: &StatusResult) -> (label: &str)
    ensures
        label@ == (match text::optional(result.branch) {
            Some(branch) => branch,
            None => "(detached)"@,
        }),
{
    match &result.branch {
        Some(branch) => branch.as_str(),
        None => "(detached)",
    }
}

/// The distance between neighbouring numbers of 53 significant bits at `n`.
pub open spec fn spacing(n: nat) -> nat
    decreases n,
{
    if n < 9007199254740992 {
        1
    } else {
        2 * spacing(n / 2)
    }
}

/// The quotient rounded to a whole number, halves to the even one.
pub open spec fn half_even(n: nat, d: nat) -> nat {
    let q = n / d;
    let r = n % d;
    if 2 * r < d || (2 * r == d && q % 2 == 0) {
        q
    } else {
        q + 1
    }
}

/// The number of 53 significant bits that is nearest to `n`.
pub open spec fn rounded(n: nat) -> nat {
    half_even(n, spacing(n)) * spacing(n)
}

/// 1024 to the power of the unit.
pub open spec fn unit_size(unit: int) -> nat {
    if unit <= 0 {
        1
    } else if unit == 1 {
        1024
    } else if unit == 2 {
        1048576
    } else if unit == 3 {
        1073741824
    } else {
        1099511627776
    }
}

/// The largest unit, up to the fourth, that the amount reaches.
pub open spec fn unit_of(amount: nat) -> int {
    if amount < 1024 {
        0
    } else if amount < 1048576 {
        1
    } else if amount < 1073741824 {
        2
    } else if amount < 1099511627776 {
        3
    } else {
        4
    }
}

pub open spec fn unit_name(unit: int) -> Seq<char> {
    if unit <= 0 {
        "B"@
    } else if unit == 1 {
        "KiB"@
    } else if unit == 2 {
        "MiB"@
    } else if unit == 3 {
        "GiB"@
    } else {
        "TiB"@
    }
}

/// A number of hundredths with its two decimal places.
pub open spec fn shown_hundredths(n: nat) -> Seq<char> {
    (text::decimal(n / 100).push('.')).push(text::digit((n / 10 % 10) as int)).push(
        text::digit((n % 10) as int),
    )
}

/// A size in bytes, or to two decimal places in the unit that suits it. The
/// amount is first rounded to 53 significant bits, then to the decimal places,
/// each time to the nearest and halves to the even neighbour.
pub open spec fn shown_bytes(value: u64) -> Seq<char> {
    let amount = rounded(value as nat);
    let unit = unit_of(amount);
    if unit == 0 {
        text::decimal(value as nat) + " B"@
    } else {
        shown_hundredths(half_even(amount * 100, unit_size(unit))) + " "@ + unit_name(unit)
    }
}

proof fn lemma_spacing(n: nat)
    ensures
        spacing(n) >= 1,
        n >= 9007199254740992 ==> spacing(n) * 4503599627370496 <= n,
    decreases n,
{
    if n >= 9007199254740992 {
        lemma_spacing(n / 2);
    }
}

fn spacing_at(n: u64) -> (m: u64)
    ensures
        m == spacing(n as nat),
        1 <= m <= 4096,
    decreases n,
{
    proof {
        lemma_spacing(n as nat);
    }
    if n < 9007199254740992 {
        1
    } else {
        let half = spacing_at(n / 2);
        2 * half
    }
}

fn round_half_even(n: u128, d: u128) -> (q: u128)
    requires
        d > 0,
        d <= 1099511627776,
        n <= 100000000000000000000000000,
    ensures
        q == half_even(n as nat, d as nat),
        q <= n + 1,
{
    let q: u128 = n / d;
    let r: u128 = n % d;
    proof {
        vstd::arithmetic::div_mod::lemma_div_is_ordered_by_denominator(n as int, 1, d as int);
        vstd::arithmetic::div_mod::lemma_mod_bound(n as int, d as int);
    }
    assert(q <= n);
    if 2 * r < d || (2 * r == d && q % 2 == 0) {
        q
    } else {
        q + 1
    }
}

/// A size as it is shown.
pub fn bytes(value: u64) -> (shown: String)
    ensures
        shown@ == shown_bytes(value),
{
    let m: u64 = spacing_at(value);
    let steps: u128 = round_half_even(value as u128, m as u128);
    proof {
        lemma_spacing(value as nat);
        assert(steps * m <= 18446744073709551616 * 4096) by (nonlinear_arith)
            requires
                steps <= 18446744073709551616,
                m <= 4096,
                0 <= steps,
                0 <= m,
        ;
    }
    let amount: u128 = steps * (m as u128);
    if amount < 1024 {
        let mut shown = text::decimal_text(value);
        shown.append(" B");
        return shown;
    }
    let (size, name): (u128, &'static str) = if amount < 1048576 {
        (1024, "KiB")
    } else if amount < 1073741824 {
        (1048576, "MiB")
    } else if amount < 1099511627776 {
        (1073741824, "GiB")
    } else {
        (1099511627776, "TiB")
    };
    let hundredths: u128 = round_half_even(amount * 100, size);
    let mut shown = text::decimal_wide(hundredths / 100);
    shown.push('.');
    shown.push((48u8 + (hundredths / 10 % 10) as u8) as char);
    shown.push((48u8 + (hundredths % 10) as u8) as char);
    assert(shown@ =~= shown_hundredths(hundredths as nat));
    shown.append(" ");
    shown.append(name);
    shown
}

/// Rounding is to the nearest, and between two as near to the even one.
pub proof fn rounding_is_to_the_nearest(n: nat, d: nat)
    requires
        d > 0,
    ensures
        ({
            let q = half_even(n, d);
            &&& 2 * (q * d) <= 2 * n + d
            &&& 2 * n <= 2 * (q * d) + d
            &&& 2 * (q * d) == 2 * n + d || 2 * n == 2 * (q * d) + d ==> q % 2 == 0
        }),
{
    let q = n / d;
    let r = n % d;
    assert(n == q * d + r && 0 <= r < d) by (nonlinear_arith)
        requires
            q == n / d,
            r == n % d,
            d > 0,
    ;
    assert((q + 1) * d == q * d + d) by (nonlinear_arith);
}

/// A size below 1024 is shown as it is. Above that it is shown in the greatest
/// unit that it reaches, to the nearest hundredth; sizes of up to 53 bits are
/// taken exactly.
pub proof fn sizes_are_shown_in_their_unit(value: u64)
    requires
        value < 0x20_0000_0000_0000,
    ensures
        value < 1024 ==> shown_bytes(value) == text::decimal(value as nat) + " B"@,
        value >= 1024 ==> ({
            let size: nat = if value < 0x10_0000 {
                1024
            } else if value < 0x4000_0000 {
                0x10_0000
            } else if value < 0x100_0000_0000 {
                0x4000_0000
            } else {
                0x100_0000_0000
            };
            let name = if value < 0x10_0000 {
                "KiB"@
            } else if value < 0x4000_0000 {
                "MiB"@
            } else if value < 0x100_0000_0000 {
                "GiB"@
            } else {
                "TiB"@
            };
            let hundredths = half_even(value as nat * 100, size);
            shown_bytes(value) == text::decimal(hundredths / 100) + seq![
                '.',
                text::digit((hundredths / 10 % 10) as int),
                text::digit((hundredths % 10) as int),
            ] + " "@ + name
        }),
{
    let v = value as nat;
    assert(half_even(v, 1) == v) by {
        assert(v / 1 == v && v % 1 == 0);
    }
    assert(spacing(v) == 1);
    assert(rounded(v) == v);
    let unit = unit_of(v);
    let h = half_even(v * 100, unit_size(unit));
    assert(shown_hundredths(h) =~= text::decimal(h / 100) + seq![
        '.',
        text::digit((h / 10 % 10) as int),
        text::digit((h % 10) as int),
    ]);
}

/// Sizes of more than 53 bits are rounded to the nearest number of 53 bits times
/// a power of two.
pub proof fn great_sizes_are_rounded(value: u64)
    requires
        value >= 0x20_0000_0000_0000,
    ensures
        ({
            let n = value as nat;
            let gap = spacing(n);
            &&& 2 <= gap < 4096
            &&& gap * 0x10_0000_0000_0000 <= n < gap * 0x20_0000_0000_0000
            &&& 2 * rounded(n) <= 2 * n + gap
            &&& 2 * n <= 2 * rounded(n) + gap
            &&& rounded(n) == half_even(n, gap) * gap
        }),
{
    let n = value as nat;
    lemma_spacing(n);
    lemma_spacing_bound(n);
    rounding_is_to_the_nearest(n, spacing(n));
}

proof fn lemma_spacing_bound(n: nat)
    ensures
        n < spacing(n) * 0x20_0000_0000_0000,
        n >= 0x20_0000_0000_0000 ==> spacing(n) >= 2,
    decreases n,
{
    if n >= 0x20_0000_0000_0000 {
        lemma_spacing_bound(n / 2);
        lemma_spacing(n / 2);
    }
}

/// Each state has its own words and its own sign.
pub proof fn states_are_told_apart(state: ReceiptState)
    ensures
        label_of(ReceiptState::Compacted) == "compacted"@,
        label_of(ReceiptState::Created) == "created"@,
        label_of(ReceiptState::Stale) == "stale"@,
        label_of(ReceiptState::NotCompacted) == "not compacted"@,
        label_of(ReceiptState::Invalid) == "invalid receipt"@,
        label_of(ReceiptState::Unknown) == "unknown"@,
        symbol_of(ReceiptState::Compacted) == "\u{2713}"@,
        symbol_of(ReceiptState::Created) == "\u{25c6}"@,
        symbol_of(ReceiptState::Stale) == "!"@,
        symbol_of(ReceiptState::NotCompacted) == "\u{25cb}"@,
        symbol_of(ReceiptState::Invalid) == "\u{2717}"@,
        symbol_of(ReceiptState::Unknown) == "?"@,
{
}

/// Results are seen as they are.
pub proof fn results_are_seen_as_they_are(results: Seq<CompactResult>, i: int)
    requires
        0 <= i < results.len(),
    ensures
        ({
            let one = results[i];
            let shown = reported(results)[i];
            &&& reported(results).len() == results.len()
            &&& shown.branch is Some <==> one.branch is Some
            &&& one.branch is Some ==> shown.branch->0 == one.branch->0@
            &&& shown.path == one.path@
            &&& shown.status == one.status
            &&& shown.outcome == one.outcome
            &&& shown.cloned_files == one.cloned_files
            &&& shown.eligible_files == one.eligible_files
            &&& shown.eligible_logical_bytes == one.eligible_logical_bytes
            &&& shown.eligible_allocated_bytes == one.eligible_allocated_bytes
            &&& shown.skipped_divergent_paths == one.skipped_divergent_paths
            &&& shown.skipped_changed_paths == one.skipped_changed_paths
            &&& shown.error is Some <==> one.error is Some
            &&& one.error is Some ==> shown.error->0 == one.error->0@
        }),
{
}

/// Reports are of version 1.
pub proof fn reports_are_of_version_one()
    ensures
        SCHEMA_VERSION == 1,
{
}

} // verus!
