//! The commands: which worktrees they are about, and what they report.
use crate::error;
use crate::error::{Error, Failure};
use crate::output;
use crate::output::{CompactOutcome, CompactResult, CompactSummary, Reported, StatusResult};
use crate::paths;
use crate::receipt::ReceiptState;
use crate::text;
use crate::worktree;
use crate::worktree::{Registered, Worktree};
use vstd::prelude::*;
use vstd::string::*;

verus! {

/// The worktree at a position is not that at `source`.
pub open spec fn is_other(list: Seq<Registered>, source: Option<Seq<u8>>) -> spec_fn(int) -> bool {
    |i: int|
        match source {
            Some(path) => paths::components(list[i].path) != paths::components(path),
            None => true,
        }
}

/// The positions of the worktrees other than that at `source`.
pub open spec fn others(list: Seq<Registered>, source: Option<Seq<u8>>) -> Seq<int> {
    worktree::positions(list.len() as int, is_other(list, source))
}

/// What a list of positions holds.
pub open spec fn at(list: Seq<usize>) -> Seq<int> {
    Seq::new(list.len(), |i: int| list[i] as int)
}

/// The worktrees that a command is about: all but the one that is left out, or
/// the one that was named, or the current one, which is the innermost that
/// contains the working directory.
pub open spec fn selection(
    list: Seq<Registered>,
    cwd: Seq<u8>,
    target: Option<Seq<u8>>,
    all: bool,
    source: Option<Seq<u8>>,
    places: Seq<Option<Vec<u8>>>,
    place: Option<Seq<u8>>,
) -> Result<Seq<int>, Failure> {
    if all {
        Ok(others(list, source))
    } else {
        match target {
            Some(path) => match worktree::resolution(list, path, places, place) {
                Ok(i) => Ok(seq![i]),
                Err(failure) => Err(failure),
            },
            None => match worktree::innermost(list, cwd, places, place, list.len() as int) {
                Some(i) => Ok(seq![i]),
                None => Err(Failure::WorktreeNotFound(text::lossy_text(cwd))),
            },
        }
    }
}

/// The positions of the worktrees that a command is about. `places` says where
/// each worktree really is, and `place` where the path that was named is, or the
/// working directory where none was.
pub fn targets_for(
    cwd: &[u8],
    worktrees: &Vec<Worktree>,
    target: &Option<Vec<u8>>,
    all: bool,
    source: Option<&Worktree>,
    places: &Vec<Option<Vec<u8>>>,
    place: &Option<Vec<u8>>,
) -> (result: Result<Vec<usize>, Error>)
    ensures
        ({
            let chosen = selection(
                worktree::registered(worktrees@),
                cwd@,
                worktree::optional_path(*target),
                all,
                match source {
                    Some(source) => Some(source.path@),
                    None => None,
                },
                places@,
                worktree::optional_path(*place),
            );
            &&& result is Ok <==> chosen is Ok
            &&& result matches Ok(list) ==> chosen == Ok::<Seq<int>, Failure>(at(list@))
                && forall|k: int| 0 <= k < list@.len() ==> #[trigger] list@[k] < worktrees@.len()
            &&& result matches Err(error) ==> chosen == Err::<Seq<int>, Failure>(error@)
        }),
{
    let ghost list = worktree::registered(worktrees@);
    let ghost away = match source {
        Some(source) => Some(source.path@),
        None => None,
    };
    if all {
        let ghost test = is_other(list, away);
        let mut chosen: Vec<usize> = Vec::new();
        assert(at(chosen@) =~= Seq::<int>::empty());
        for i in 0..worktrees.len()
            invariant
                list == worktree::registered(worktrees@),
                away == (match source {
                    Some(source) => Some(source.path@),
                    None => None,
                }),
                test == is_other(list, away),
                at(chosen@) == worktree::positions(i as int, test),
                forall|k: int| 0 <= k < chosen@.len() ==> #[trigger] chosen@[k] < i,
        {
            assert(list[i as int].path == worktrees@[i as int].path@);
            let other = match source {
                Some(source) => !paths::same(
                    worktrees[i].path.as_slice(),
                    source.path.as_slice(),
                ),
                None => true,
            };
            assert(other == test(i as int));
            if other {
                let ghost before = at(chosen@);
                chosen.push(i);
                assert(at(chosen@) =~= before.push(i as int));
            }
        }
        return Ok(chosen);
    }
    let found = match target {
        Some(path) => worktree::find(worktrees, path.as_slice(), places, place),
        None => match worktree::current(worktrees, cwd, places, place) {
            Some(i) => Ok(i),
            None => Err(Error::WorktreeNotFound(text::lossy(cwd))),
        },
    };
    match found {
        Ok(i) => {
            let mut chosen: Vec<usize> = Vec::new();
            chosen.push(i);
            assert(at(chosen@) =~= seq![i as int]);
            Ok(chosen)
        },
        Err(error) => Err(error),
    }
}

/// The positions of the worktrees whose status is shown: with `--all` every
/// registered one.
pub fn status_targets(
    cwd: &[u8],
    worktrees: &Vec<Worktree>,
    target: &Option<Vec<u8>>,
    all: bool,
    places: &Vec<Option<Vec<u8>>>,
    place: &Option<Vec<u8>>,
) -> (result: Result<Vec<usize>, Error>)
    ensures
        ({
            let chosen = selection(
                worktree::registered(worktrees@),
                cwd@,
                worktree::optional_path(*target),
                all,
                None,
                places@,
                worktree::optional_path(*place),
            );
            &&& result is Ok <==> chosen is Ok
            &&& result matches Ok(list) ==> chosen == Ok::<Seq<int>, Failure>(at(list@))
                && forall|k: int| 0 <= k < list@.len() ==> #[trigger] list@[k] < worktrees@.len()
            &&& result matches Err(error) ==> chosen == Err::<Seq<int>, Failure>(error@)
        }),
{
    targets_for(cwd, worktrees, target, all, None, places, place)
}

/// Where no worktree is left out, `--all` is about every one.
pub proof fn all_means_every_worktree(list: Seq<Registered>, i: int)
    requires
        0 <= i < list.len(),
    ensures
        others(list, None).contains(i),
{
    worktree::lemma_positions(list.len() as int, is_other(list, None));
    assert(is_other(list, None)(i));
}

/// What a compaction takes from, and what `--all` leaves out.
#[derive(Debug)]
pub struct Scope {
    /// The worktree that `--all` leaves out.
    pub left_out: Option<usize>,
    /// The worktrees that files may be cloned from.
    pub donors: Vec<usize>,
}

/// The scope of a compaction among `count` worktrees. `restricted` is the source
/// that was named: files are cloned from it alone, and `--all` leaves it out.
/// Otherwise files are cloned from any worktree, and `--all` leaves out the
/// current one.
pub fn compaction_scope(count: usize, restricted: Option<usize>, current: Option<usize>) -> (scope:
    Scope)
    ensures
        scope.left_out == (if restricted is Some {
            restricted
        } else {
            current
        }),
        scope.donors@ == (match restricted {
            Some(source) => seq![source],
            None => Seq::new(count as nat, |i: int| i as usize),
        }),
{
    let mut donors: Vec<usize> = Vec::new();
    match restricted {
        Some(source) => {
            donors.push(source);
            assert(donors@ =~= seq![source]);
            Scope { left_out: Some(source), donors }
        },
        None => {
            for i in 0..count
                invariant
                    donors@ == Seq::new(i as nat, |k: int| k as usize),
            {
                donors.push(i);
                assert(donors@ =~= Seq::new((i + 1) as nat, |k: int| k as usize));
            }
            assert(donors@ =~= Seq::new(count as nat, |i: int| i as usize));
            Scope { left_out: current, donors }
        },
    }
}

/// Accepts a compaction that says what it is about.
pub fn check_request(all: bool, target: bool) -> (result: Result<(), Error>)
    ensures
        result is Ok <==> all || target,
        result matches Err(error) ==> error@ == Failure::Message(
            "compact requires a target or --all"@,
        ),
{
    if !all && !target {
        Err(error::message("compact requires a target or --all"))
    } else {
        Ok(())
    }
}

/// Whether a target is left alone: with `--all`, one whose receipt is current,
/// unless it is to be compacted again.
pub fn is_skipped(all: bool, recompact: bool, current: bool) -> (yes: bool)
    ensures
        yes == (all && !recompact && current),
{
    all && !recompact && current
}

/// A compaction of several targets: what came of each so far, and which is
/// next.
#[derive(Debug)]
pub struct CompactRun {
    pub results: Vec<CompactResult>,
    pub summary: CompactSummary,
    /// The targets, by their positions.
    pub targets: Vec<usize>,
    /// Whether a failure leaves the other targets to be compacted.
    pub all: bool,
    pub stopped: bool,
}

/// The outcomes that a summary counts.
pub open spec fn counted(results: Seq<Reported>) -> CompactSummary
    decreases results.len(),
{
    if results.len() == 0 {
        CompactSummary::zero()
    } else {
        let before = counted(results.drop_last());
        match results.last().outcome {
            CompactOutcome::Compacted => CompactSummary {
                compacted: (before.compacted + 1) as usize,
                ..before
            },
            CompactOutcome::CompactedWithChangedPathsSkipped => CompactSummary {
                compacted: (before.compacted + 1) as usize,
                ..before
            },
            CompactOutcome::AlreadyCompacted => CompactSummary {
                already_compacted: (before.already_compacted + 1) as usize,
                ..before
            },
            CompactOutcome::DryRun => CompactSummary {
                dry_run: (before.dry_run + 1) as usize,
                ..before
            },
            CompactOutcome::Failed => CompactSummary {
                failed: (before.failed + 1) as usize,
                ..before
            },
        }
    }
}

/// What is reported of a target without its plan.
pub open spec fn bare_report(
    target: Registered,
    status: ReceiptState,
    outcome: CompactOutcome,
    error: Option<Seq<char>>,
) -> Reported {
    Reported {
        branch: target.branch,
        path: text::lossy_text(target.path),
        status,
        outcome,
        cloned_files: None,
        eligible_files: None,
        eligible_logical_bytes: None,
        eligible_allocated_bytes: None,
        skipped_divergent_paths: None,
        skipped_changed_paths: None,
        error,
    }
}

fn bare_result(
    target: &Worktree,
    status: ReceiptState,
    outcome: CompactOutcome,
    error: Option<String>,
) -> (result: CompactResult)
    ensures
        result@ == bare_report(target@, status, outcome, text::optional(error)),
{
    CompactResult {
        branch: text::copy_optional(&target.branch),
        path: text::lossy(target.path.as_slice()),
        status,
        outcome,
        cloned_files: None,
        eligible_files: None,
        eligible_logical_bytes: None,
        eligible_allocated_bytes: None,
        skipped_divergent_paths: None,
        skipped_changed_paths: None,
        error,
    }
}

/// One of these targets failed.
pub open spec fn any_failed(results: Seq<Reported>) -> bool {
    exists|i: int|
        0 <= i < results.len() && (#[trigger] results[i]).outcome == CompactOutcome::Failed
}

impl CompactRun {
    /// What is reported so far.
    pub open spec fn reports(&self) -> Seq<Reported> {
        output::reported(self.results@)
    }

    /// The summary counts the results, which are those of the first targets.
    /// After a failure nothing follows, unless all targets are to be compacted.
    pub open spec fn wf(&self) -> bool {
        &&& self.summary == counted(self.reports())
        &&& self.summary.total() == self.results@.len()
        &&& self.results@.len() <= self.targets@.len()
        &&& self.targets@.len() <= usize::MAX
        &&& self.stopped == (!self.all && any_failed(self.reports()))
        &&& !self.all && self.results@.len() > 0 ==> !any_failed(self.reports().drop_last())
    }

    /// The target that is next: the first without a result, unless an earlier
    /// one failed and only one was asked for.
    pub open spec fn next_target(&self) -> Option<usize> {
        if !self.all && any_failed(self.reports()) {
            None
        } else if self.results@.len() < self.targets@.len() {
            Some(self.targets@[self.results@.len() as int])
        } else {
            None
        }
    }

    /// `result` was added to what `before` held.
    pub open spec fn extends(&self, before: &CompactRun, result: Reported) -> bool {
        &&& self.wf()
        &&& self.targets@ == before.targets@
        &&& self.all == before.all
        &&& self.reports() == before.reports().push(result)
    }

    pub fn new(targets: Vec<usize>, all: bool) -> (run: Self)
        ensures
            run.wf(),
            run.targets@ == targets@,
            run.all == all,
            run.results@.len() == 0,
    {
        assert(targets@.len() == targets.len());
        let run = CompactRun {
            results: Vec::new(),
            summary: CompactSummary::default(),
            targets,
            all,
            stopped: false,
        };
        assert(run.reports() =~= Seq::<Reported>::empty());
        run
    }

    /// The position of the target that is next.
    pub fn next(&self) -> (target: Option<usize>)
        requires
            self.wf(),
        ensures
            target == self.next_target(),
    {
        if self.stopped || self.results.len() >= self.targets.len() {
            None
        } else {
            Some(self.targets[self.results.len()])
        }
    }

    fn add(&mut self, result: CompactResult)
        requires
            old(self).wf(),
            old(self).next_target() is Some,
        ensures
            final(self).extends(old(self), result@),
    {
        let ghost before = self.reports();
        let ghost one = result@;
        match result.outcome {
            CompactOutcome::Compacted => {
                self.summary.compacted = self.summary.compacted + 1;
            },
            CompactOutcome::CompactedWithChangedPathsSkipped => {
                self.summary.compacted = self.summary.compacted + 1;
            },
            CompactOutcome::AlreadyCompacted => {
                self.summary.already_compacted = self.summary.already_compacted + 1;
            },
            CompactOutcome::DryRun => {
                self.summary.dry_run = self.summary.dry_run + 1;
            },
            CompactOutcome::Failed => {
                self.summary.failed = self.summary.failed + 1;
                self.stopped = !self.all;
            },
        }
        self.results.push(result);
        proof {
            assert(self.reports() =~= before.push(one));
            let now = self.reports();
            assert(now.drop_last() =~= before);
            assert(now.last() == one);
            if one.outcome == CompactOutcome::Failed {
                assert(now[now.len() - 1].outcome == CompactOutcome::Failed);
            } else if any_failed(now) {
                let i = choose|i: int|
                    0 <= i < now.len() && (#[trigger] now[i]).outcome == CompactOutcome::Failed;
                assert(before[i] == now[i]);
            }
            if any_failed(before) {
                let i = choose|i: int|
                    0 <= i < before.len() && (#[trigger] before[i]).outcome
                        == CompactOutcome::Failed;
                assert(now[i] == before[i]);
            }
        }
    }

    /// A target was left alone.
    pub fn already_compacted(&mut self, target: &Worktree)
        requires
            old(self).wf(),
            old(self).next_target() is Some,
        ensures
            final(self).extends(
                old(self),
                bare_report(
                    target@,
                    ReceiptState::Compacted,
                    CompactOutcome::AlreadyCompacted,
                    None,
                ),
            ),
    {
        let result = bare_result(
            target,
            ReceiptState::Compacted,
            CompactOutcome::AlreadyCompacted,
            None,
        );
        self.add(result);
    }

    /// A target was compacted, or would be.
    pub fn success(&mut self, result: CompactResult)
        requires
            old(self).wf(),
            old(self).next_target() is Some,
        ensures
            final(self).extends(old(self), result@),
    {
        self.add(result);
    }

    /// A target failed.
    pub fn failed(&mut self, target: &Worktree, status: ReceiptState, error: String)
        requires
            old(self).wf(),
            old(self).next_target() is Some,
        ensures
            final(self).extends(
                old(self),
                bare_report(target@, status, CompactOutcome::Failed, Some(error@)),
            ),
    {
        let result = bare_result(target, status, CompactOutcome::Failed, Some(error));
        self.add(result);
    }
}

/// With all targets, a run that is over has a result for each of them, failed
/// or not.
pub proof fn every_target_is_reported(run: CompactRun)
    requires
        run.wf(),
        run.all,
        run.next_target() is None,
    ensures
        run.results@.len() == run.targets@.len(),
{
}

/// Without all targets, nothing is tried after a failure: only the last result
/// can be one.
pub proof fn first_failure_is_the_last(run: CompactRun, i: int)
    requires
        run.wf(),
        !run.all,
        0 <= i < run.results@.len(),
        run.results@[i].outcome == CompactOutcome::Failed,
    ensures
        i == run.results@.len() - 1,
        run.next_target() is None,
{
    let reports = run.reports();
    assert(reports[i].outcome == CompactOutcome::Failed);
    if i < reports.len() - 1 {
        assert(reports.drop_last()[i] == reports[i]);
    }
}

/// The end of a compaction: an error where a target failed.
pub fn conclude(summary: &CompactSummary) -> (result: Result<(), Error>)
    ensures
        result is Ok <==> summary.failed == 0,
        result matches Err(error) ==> error@ == Failure::Message(
            text::decimal(summary.failed as nat) + " target(s) failed"@,
        ),
{
    if summary.failed > 0 {
        let mut message = text::decimal_text(summary.failed as u64);
        message.append(" target(s) failed");
        Err(Error::Message(message))
    } else {
        Ok(())
    }
}

proof fn lemma_failed(results: Seq<Reported>)
    requires
        results.len() <= usize::MAX,
    ensures
        counted(results).failed <= results.len(),
        counted(results).failed > 0 <==> any_failed(results),
    decreases results.len(),
{
    if results.len() > 0 {
        let init = results.drop_last();
        lemma_failed(init);
        if counted(init).failed > 0 {
            let i = choose|i: int|
                0 <= i < init.len() && (#[trigger] init[i]).outcome == CompactOutcome::Failed;
            assert(results[i] == init[i]);
        }
        if any_failed(results) {
            let i = choose|i: int|
                0 <= i < results.len() && (#[trigger] results[i]).outcome == CompactOutcome::Failed;
            if i < init.len() {
                assert(init[i] == results[i]);
            }
        }
    }
}

/// The command fails exactly where the report shows a target that failed.
pub proof fn fails_with_any_target(run: CompactRun)
    requires
        run.wf(),
    ensures
        run.summary.failed == 0 <==> forall|i: int|
            0 <= i < run.results@.len() ==> (#[trigger] run.results@[i]).outcome
                != CompactOutcome::Failed,
{
    let results = output::reported(run.results@);
    lemma_failed(results);
    assert forall|i: int| 0 <= i < results.len() implies (#[trigger] results[i]).outcome
        == run.results@[i].outcome by {}
    if run.summary.failed == 0 {
        assert forall|i: int| 0 <= i < run.results@.len() implies (#[trigger] run.results@[i]).outcome
            != CompactOutcome::Failed by {
            assert(results[i].outcome == run.results@[i].outcome);
        }
    } else {
        let i = choose|i: int|
            0 <= i < results.len() && (#[trigger] results[i]).outcome == CompactOutcome::Failed;
        assert(run.results@[i].outcome == CompactOutcome::Failed);
    }
}

/// What is reported of a worktree's state.
pub fn status_result(target: &Worktree, state: ReceiptState) -> (result: StatusResult)
    ensures
        text::optional(result.branch) == target@.branch,
        result.path@ == text::lossy_text(target@.path),
        result.status == state,
{
    StatusResult {
        branch: text::copy_optional(&target.branch),
        path: text::lossy(target.path.as_slice()),
        status: state,
    }
}

/// With `--all` every worktree is meant but the source, in order; otherwise the
/// one that was named, or without a name the current one.
pub proof fn targets_are_those_meant(
    list: Seq<Registered>,
    cwd: Seq<u8>,
    target: Option<Seq<u8>>,
    source: Option<Seq<u8>>,
    places: Seq<Option<Vec<u8>>>,
    place: Option<Seq<u8>>,
)
    ensures
        match selection(list, cwd, target, true, source, places, place) {
            Err(_) => false,
            Ok(chosen) => {
                &&& forall|i: int|
                    chosen.contains(i) <==> 0 <= i < list.len() && (source is Some
                        ==> paths::components(list[i].path) != paths::components(source->0))
                &&& forall|a: int, b: int| 0 <= a < b < chosen.len() ==> chosen[a] < chosen[b]
            },
        },
        match selection(list, cwd, target, false, source, places, place) {
            Ok(chosen) => chosen.len() == 1 && (match target {
                Some(value) => worktree::resolution(list, value, places, place) == Ok::<
                    int,
                    Failure,
                >(chosen[0]),
                None => worktree::innermost(list, cwd, places, place, list.len() as int) == Some(
                    chosen[0],
                ),
            }),
            Err(failure) => match target {
                Some(value) => worktree::resolution(list, value, places, place) == Err::<
                    int,
                    Failure,
                >(failure),
                None => worktree::innermost(list, cwd, places, place, list.len() as int) is None
                    && failure == Failure::WorktreeNotFound(text::lossy_text(cwd)),
            },
        },
{
    let n = list.len() as int;
    let test = is_other(list, source);
    worktree::positions_are_those_that_pass(n, test);
    let chosen = others(list, source);
    assert forall|i: int|
        chosen.contains(i) <==> 0 <= i < list.len() && (source is Some ==> paths::components(
            list[i].path,
        ) != paths::components(source->0)) by {
        assert(chosen.contains(i) <==> 0 <= i < n && test(i));
    }
}

/// The positions of the results with one of two outcomes.
pub open spec fn ended(results: Seq<Reported>, one: CompactOutcome, other: CompactOutcome) -> Seq<
    int,
> {
    worktree::positions(
        results.len() as int,
        |i: int| results[i].outcome == one || results[i].outcome == other,
    )
}

proof fn lemma_ended(results: Seq<Reported>, one: CompactOutcome, other: CompactOutcome)
    requires
        results.len() > 0,
    ensures
        ended(results, one, other).len() == ended(results.drop_last(), one, other).len() + (
        if results.last().outcome == one || results.last().outcome == other {
            1int
        } else {
            0
        }),
{
    let init = results.drop_last();
    let test = |i: int| results[i].outcome == one || results[i].outcome == other;
    let less = |i: int| init[i].outcome == one || init[i].outcome == other;
    lemma_positions_alike(init.len() as int, test, less);
}

proof fn lemma_positions_alike(n: int, test: spec_fn(int) -> bool, less: spec_fn(int) -> bool)
    requires
        forall|i: int| 0 <= i < n ==> #[trigger] test(i) == less(i),
    ensures
        worktree::positions(n, test) == worktree::positions(n, less),
    decreases n,
{
    if n > 0 {
        lemma_positions_alike(n - 1, test, less);
        assert(test(n - 1) == less(n - 1));
    }
}

/// The summary counts the results by their outcomes; a compaction that skipped
/// changed paths counts as one.
pub proof fn summaries_count_outcomes(results: Seq<Reported>)
    requires
        results.len() <= usize::MAX,
    ensures
        ({
            let summary = counted(results);
            &&& summary.compacted == ended(
                results,
                CompactOutcome::Compacted,
                CompactOutcome::CompactedWithChangedPathsSkipped,
            ).len()
            &&& summary.already_compacted == ended(
                results,
                CompactOutcome::AlreadyCompacted,
                CompactOutcome::AlreadyCompacted,
            ).len()
            &&& summary.dry_run == ended(
                results,
                CompactOutcome::DryRun,
                CompactOutcome::DryRun,
            ).len()
            &&& summary.failed == ended(
                results,
                CompactOutcome::Failed,
                CompactOutcome::Failed,
            ).len()
            &&& summary.compacted + summary.already_compacted + summary.dry_run + summary.failed
                == results.len()
        }),
    decreases results.len(),
{
    if results.len() > 0 {
        summaries_count_outcomes(results.drop_last());
        lemma_ended(
            results,
            CompactOutcome::Compacted,
            CompactOutcome::CompactedWithChangedPathsSkipped,
        );
        lemma_ended(results, CompactOutcome::AlreadyCompacted, CompactOutcome::AlreadyCompacted);
        lemma_ended(results, CompactOutcome::DryRun, CompactOutcome::DryRun);
        lemma_ended(results, CompactOutcome::Failed, CompactOutcome::Failed);
    }
}

/// The next target is the one behind those with a result, unless one of them
/// failed and not all targets are wanted.
pub proof fn targets_are_taken_in_order(run: CompactRun)
    requires
        run.wf(),
    ensures
        ({
            let done = run.results@.len() as int;
            let fine = forall|i: int|
                0 <= i < done ==> (#[trigger] run.results@[i]).outcome != CompactOutcome::Failed;
            &&& (run.all || fine) && done < run.targets@.len() ==> run.next_target() == Some(
                run.targets@[done],
            )
            &&& !(run.all || fine) || done >= run.targets@.len() ==> run.next_target() is None
        }),
{
    let reports = run.reports();
    let done = run.results@.len() as int;
    assert forall|i: int| 0 <= i < done implies (#[trigger] reports[i]).outcome
        == run.results@[i].outcome by {}
    if any_failed(reports) {
        let i = choose|i: int|
            0 <= i < reports.len() && (#[trigger] reports[i]).outcome == CompactOutcome::Failed;
        assert(run.results@[i].outcome == CompactOutcome::Failed);
    } else {
        assert forall|i: int| 0 <= i < done implies (#[trigger] run.results@[i]).outcome
            != CompactOutcome::Failed by {
            assert(reports[i].outcome != CompactOutcome::Failed);
        }
    }
}

/// A result is added behind those before, and the summary counts it.
pub proof fn results_are_added_at_the_end(before: CompactRun, after: CompactRun, result: Reported)
    requires
        before.wf(),
        after.extends(&before, result),
    ensures
        after.wf(),
        after.targets@ == before.targets@,
        after.all == before.all,
        after.results@.len() == before.results@.len() + 1,
        after.reports().last() == result,
        forall|i: int|
            0 <= i < before.results@.len() ==> #[trigger] after.reports()[i]
                == before.reports()[i],
        after.summary == counted(after.reports()),
{
    assert(after.reports().len() == after.results@.len());
    assert(before.reports().len() == before.results@.len());
}

/// A target that nothing was done for is reported with its branch, its path and
/// the state that is known, and without any count.
pub proof fn bare_reports_have_no_counts(
    target: Registered,
    status: ReceiptState,
    outcome: CompactOutcome,
    error: Option<Seq<char>>,
)
    ensures
        ({
            let report = bare_report(target, status, outcome, error);
            &&& report.branch == target.branch
            &&& report.path == text::lossy_text(target.path)
            &&& report.status == status
            &&& report.outcome == outcome
            &&& report.error == error
            &&& report.cloned_files is None
            &&& report.eligible_files is None
            &&& report.eligible_logical_bytes is None
            &&& report.eligible_allocated_bytes is None
            &&& report.skipped_divergent_paths is None
            &&& report.skipped_changed_paths is None
        }),
{
}

} // verus!
