//! Compacting one worktree: whether it has to be, and what it comes to.
use crate::clones;
use crate::clones::Tally;
use crate::error;
use crate::error::{Error, Failure};
use crate::order;
use crate::output;
use crate::output::{CompactOutcome, CompactResult};
use crate::plan::Plan;
use crate::receipt;
use crate::receipt::{CreationRead, LocatedReceipt, Receipt, ReceiptState};
use crate::text;
use crate::worktree::{Registered, Worktree};
use vstd::prelude::*;
use vstd::string::*;

verus! {

/// What a receipt that was looked for says.
pub open spec fn found_view(located: Option<Result<LocatedReceipt, Error>>) -> Option<
    Result<receipt::Stored, Failure>,
> {
    receipt::located_view(
        match located {
            Some(found) => Some(&found),
            None => None,
        },
    )
}

/// Whether the target's compaction receipt is current. `tip` is the commit of
/// the receipt's source branch, where it can be resolved.
pub fn is_current_receipt(
    located: &Result<Option<Result<LocatedReceipt, Error>>, Error>,
    target: &Worktree,
    tip: &Option<String>,
) -> (current: bool)
    ensures
        current == (located matches Ok(found) && receipt::target_state(
            found_view(*found),
            target.head@,
            text::optional(*tip),
        ) == ReceiptState::Compacted),
{
    match located {
        Ok(found) => receipt::state_for_target(found.as_ref(), target, tip)
            == ReceiptState::Compacted,
        Err(_) => false,
    }
}

/// What is known of a worktree: its compaction receipt counts, and its creation
/// receipt where there is none.
pub open spec fn known_state(
    located: Result<Option<Result<LocatedReceipt, Error>>, Error>,
    creation: CreationRead,
    head: Seq<char>,
    tip: Option<Seq<char>>,
) -> ReceiptState {
    match located {
        Ok(None) => receipt::created_state(creation, head),
        Ok(found) => receipt::target_state(found_view(found), head, tip),
        Err(_) => ReceiptState::Unknown,
    }
}

/// What is known of a worktree.
pub fn status(
    located: &Result<Option<Result<LocatedReceipt, Error>>, Error>,
    creation: &CreationRead,
    target: &Worktree,
    tip: &Option<String>,
) -> (state: ReceiptState)
    ensures
        state == known_state(*located, *creation, target.head@, text::optional(*tip)),
{
    match located {
        Ok(None) => receipt::creation_state(creation, target.head.as_str()),
        Ok(found) => receipt::state_for_target(found.as_ref(), target, tip),
        Err(_) => ReceiptState::Unknown,
    }
}

/// A compaction receipt takes precedence over a creation receipt.
pub proof fn compaction_receipt_counts_first(
    found: Result<LocatedReceipt, Error>,
    a: CreationRead,
    b: CreationRead,
    head: Seq<char>,
    tip: Option<Seq<char>>,
)
    ensures
        known_state(Ok(Some(found)), a, head, tip) == known_state(Ok(Some(found)), b, head, tip),
        known_state(Ok(Some(found)), a, head, tip) != ReceiptState::Created,
{
}

/// A creation receipt never stands in for a compaction: a worktree without a
/// compaction receipt does not count as compacted.
pub proof fn creation_is_no_compaction(
    creation: CreationRead,
    head: Seq<char>,
    tip: Option<Seq<char>>,
)
    ensures
        known_state(Ok(None), creation, head, tip) != ReceiptState::Compacted,
        receipt::target_state(found_view(None), head, tip) != ReceiptState::Compacted,
{
}

/// Where the administration directory is not known, or a receipt file cannot be
/// read, nothing is known of the worktree.
pub proof fn uninspected_worktree_is_unknown(
    refused: Option<Error>,
    canonical: Option<Result<Vec<u8>, String>>,
    legacy: Option<Result<Vec<u8>, String>>,
    error: Error,
    creation: CreationRead,
    head: Seq<char>,
    tip: Option<Seq<char>>,
)
    ensures
        refused is Some ==> receipt::located_receipt(refused, canonical, legacy) is Err,
        canonical matches Some(Err(_)) ==> receipt::located_receipt(
            refused,
            canonical,
            legacy,
        ) is Err,
        known_state(Err(error), creation, head, tip) == ReceiptState::Unknown,
{
}

/// What a compaction may do.
#[derive(Clone, Copy, Debug, PartialEq, Eq, Structural)]
pub struct Actions {
    /// Remove clones that an interrupted compaction left behind.
    pub remove_leftovers: bool,
    /// Replace files by clones.
    pub clone_files: bool,
    /// Write a receipt.
    pub write_receipt: bool,
}

/// What a compaction may do: everything, or nothing in a dry run.
pub open spec fn allowed_actions(dry_run: bool) -> Actions {
    Actions { remove_leftovers: !dry_run, clone_files: !dry_run, write_receipt: !dry_run }
}

/// What a compaction may do.
pub fn actions(dry_run: bool) -> (allowed: Actions)
    ensures
        allowed == allowed_actions(dry_run),
{
    Actions { remove_leftovers: !dry_run, clone_files: !dry_run, write_receipt: !dry_run }
}

/// A dry run removes nothing, clones nothing and writes nothing.
pub proof fn dry_run_changes_nothing()
    ensures
        !allowed_actions(true).remove_leftovers,
        !allowed_actions(true).clone_files,
        !allowed_actions(true).write_receipt,
{
}

/// What a compaction that was not a dry run came to: its tally, the target's
/// commit afterwards, and when it ended.
#[derive(Debug)]
pub struct Work {
    pub tally: Tally,
    pub head: String,
    pub completed_at: String,
}

/// The receipt of a compaction. Its clones can come from several worktrees: it
/// names the least of their commits, or the target's where nothing was cloned.
pub open spec fn compaction_receipt(
    target: Registered,
    plan: Plan,
    work: Work,
) -> receipt::Stored {
    receipt::Stored {
        source_branch: receipt::several_sources(),
        source_commit: if work.tally.sources@.len() > 0 {
            clones::least_text(text::texts(work.tally.sources@))
        } else {
            target.head
        },
        target_commit: target.head,
        excluded_hash: plan.excluded_hash@,
        cloned_files: work.tally.cloned,
        eligible_allocated_bytes: Some(plan.allocated_bytes),
        completed_at: work.completed_at@,
    }
}

/// What is reported of a target that was compacted, or would be.
pub open spec fn compaction_report(
    target: Registered,
    initial: ReceiptState,
    plan: Plan,
    work: Option<Work>,
) -> output::Reported {
    output::Reported {
        branch: target.branch,
        path: text::lossy_text(target.path),
        status: if work is None {
            initial
        } else {
            ReceiptState::Compacted
        },
        outcome: match work {
            None => CompactOutcome::DryRun,
            Some(work) => if work.tally.raced > 0 {
                CompactOutcome::CompactedWithChangedPathsSkipped
            } else {
                CompactOutcome::Compacted
            },
        },
        cloned_files: match work {
            None => None,
            Some(work) => Some(work.tally.cloned),
        },
        eligible_files: Some(plan.jobs@.len() as u64),
        eligible_logical_bytes: Some(plan.logical_bytes),
        eligible_allocated_bytes: Some(plan.allocated_bytes),
        skipped_divergent_paths: Some(plan.excluded_count as u64),
        skipped_changed_paths: match work {
            None => None,
            Some(work) => Some(work.tally.raced),
        },
        error: None,
    }
}

/// What compacting a target comes to: the report, and the receipt that is to be
/// written. `work` is absent in a dry run, which writes none. `initial` is what
/// was known of the target before. A head that moved meanwhile is an error. Every
/// job was either cloned or skipped.
pub fn compact_one(
    target: &Worktree,
    initial: ReceiptState,
    plan: &Plan,
    work: Option<Work>,
) -> (result: Result<(CompactResult, Option<Receipt>), Error>)
    requires
        work matches Some(work) ==> work.tally@.files() == plan.jobs@.len(),
    ensures
        result is Ok <==> (work matches Some(work) ==> work.head@ == target.head@),
        result matches Ok((report, written)) ==> {
            &&& report@ == compaction_report(target@, initial, *plan, work)
            &&& work is Some ==> report.cloned_files->0 + report.skipped_changed_paths->0
                == report.eligible_files->0
            &&& written is Some <==> work is Some
            &&& written matches Some(receipt) ==> receipt@ == compaction_receipt(
                target@,
                *plan,
                work->0,
            )
        },
        result matches Err(error) ==> error@ == Failure::Message(
            "target HEAD changed during compaction; no receipt was written"@,
        ),
{
    let mut report = CompactResult {
        branch: text::copy_optional(&target.branch),
        path: text::lossy(target.path.as_slice()),
        status: initial,
        outcome: CompactOutcome::DryRun,
        cloned_files: None,
        eligible_files: Some(plan.jobs.len() as u64),
        eligible_logical_bytes: Some(plan.logical_bytes),
        eligible_allocated_bytes: Some(plan.allocated_bytes),
        skipped_divergent_paths: Some(plan.excluded_count as u64),
        skipped_changed_paths: None,
        error: None,
    };
    match work {
        None => Ok((report, None)),
        Some(work) => {
            if !text::same(work.head.as_str(), target.head.as_str()) {
                return Err(
                    error::message("target HEAD changed during compaction; no receipt was written"),
                );
            }
            report.status = ReceiptState::Compacted;
            report.outcome = if work.tally.raced > 0 {
                CompactOutcome::CompactedWithChangedPathsSkipped
            } else {
                CompactOutcome::Compacted
            };
            report.cloned_files = Some(work.tally.cloned);
            report.skipped_changed_paths = Some(work.tally.raced);
            let source_commit = match clones::least_source(&work.tally.sources) {
                Some(commit) => commit,
                None => target.head.as_str().to_owned(),
            };
            let receipt = Receipt {
                source_branch: "multi".to_owned(),
                source_commit,
                target_commit: target.head.as_str().to_owned(),
                excluded_hash: plan.excluded_hash.as_str().to_owned(),
                cloned_files: work.tally.cloned,
                eligible_allocated_bytes: Some(plan.allocated_bytes),
                completed_at: work.completed_at,
            };
            Ok((report, Some(receipt)))
        },
    }
}

/// The receipt of a compaction, once written, makes the target known as
/// compacted while its head stays, whatever becomes of the donors, and as stale
/// once the head moves.
pub proof fn compacted_until_head_moves(
    target: Registered,
    plan: Plan,
    work: Work,
    head: Seq<char>,
    tip: Option<Seq<char>>,
)
    requires
        receipt::writable(compaction_receipt(target, plan, work)),
    ensures
        ({
            let written = compaction_receipt(target, plan, work);
            let content = vstd::utf8::encode_utf8(
                crate::bytes::terminate(receipt::receipt_lines(written), '\n'),
            );
            receipt::target_state(Some(receipt::stored(content)), head, tip) == (if head
                == target.head {
                ReceiptState::Compacted
            } else {
                ReceiptState::Stale
            })
        }),
{
    receipt::written_receipt_is_current(compaction_receipt(target, plan, work), head, tip);
}

/// What is written of a compaction: that it may have several sources, the least
/// commit that was cloned from or the target's where nothing was, the target's
/// commit, the hash of what was left out, how many files were cloned, the bytes
/// allocated to what was eligible, and when it ended.
pub proof fn receipts_say_what_was_done(target: Registered, plan: Plan, work: Work)
    ensures
        ({
            let written = compaction_receipt(target, plan, work);
            &&& written.source_branch == "multi"@
            &&& written.target_commit == target.head
            &&& written.excluded_hash == plan.excluded_hash@
            &&& written.cloned_files == work.tally.cloned
            &&& written.eligible_allocated_bytes == Some(plan.allocated_bytes)
            &&& written.completed_at == work.completed_at@
            &&& work.tally.sources@.len() == 0 ==> written.source_commit == target.head
            &&& work.tally.sources@.len() > 0 ==> text::texts(work.tally.sources@).contains(
                written.source_commit,
            ) && forall|i: int|
                0 <= i < work.tally.sources@.len() ==> !order::bytes_less(
                    vstd::utf8::encode_utf8((#[trigger] work.tally.sources@[i])@),
                    vstd::utf8::encode_utf8(written.source_commit),
                )
        }),
{
    let all = text::texts(work.tally.sources@);
    if all.len() > 0 {
        clones::least_text_is_least(all);
        assert forall|i: int| 0 <= i < work.tally.sources@.len() implies !order::bytes_less(
            vstd::utf8::encode_utf8((#[trigger] work.tally.sources@[i])@),
            vstd::utf8::encode_utf8(clones::least_text(all)),
        ) by {
            assert(all[i] == work.tally.sources@[i]@);
        }
    }
}

/// What is reported of a compaction: the worktree as it is known, what was
/// eligible and what was left out, and for work that was done how many files
/// were cloned and how many had changed. It counts as compacted, with a remark
/// where files had changed; without work it is a dry run, and what was known
/// stays.
pub proof fn reports_say_what_was_done(
    target: Registered,
    initial: ReceiptState,
    plan: Plan,
    work: Option<Work>,
)
    ensures
        ({
            let report = compaction_report(target, initial, plan, work);
            &&& report.branch == target.branch
            &&& report.path == text::lossy_text(target.path)
            &&& report.eligible_files == Some(plan.jobs@.len() as u64)
            &&& report.eligible_logical_bytes == Some(plan.logical_bytes)
            &&& report.eligible_allocated_bytes == Some(plan.allocated_bytes)
            &&& report.skipped_divergent_paths == Some(plan.excluded_count as u64)
            &&& report.error is None
            &&& match work {
                None => {
                    &&& report.outcome == CompactOutcome::DryRun
                    &&& report.status == initial
                    &&& report.cloned_files is None
                    &&& report.skipped_changed_paths is None
                },
                Some(work) => {
                    &&& report.status == ReceiptState::Compacted
                    &&& report.cloned_files == Some(work.tally.cloned)
                    &&& report.skipped_changed_paths == Some(work.tally.raced)
                    &&& report.outcome == (if work.tally.raced == 0 {
                        CompactOutcome::Compacted
                    } else {
                        CompactOutcome::CompactedWithChangedPathsSkipped
                    })
                },
            }
        }),
{
}

/// Every action is allowed but in a dry run.
pub proof fn real_runs_do_everything()
    ensures
        allowed_actions(false).remove_leftovers,
        allowed_actions(false).clone_files,
        allowed_actions(false).write_receipt,
{
}

/// What is known of a worktree comes from the receipt that was found, and from
/// the creation receipt where none was.
pub proof fn states_come_from_receipts(
    found: Result<LocatedReceipt, Error>,
    creation: CreationRead,
    head: Seq<char>,
    tip: Option<Seq<char>>,
)
    ensures
        known_state(Ok(None), creation, head, tip) == receipt::created_state(creation, head),
        found matches Ok(located) ==> known_state(Ok(Some(found)), creation, head, tip)
            == receipt::target_state(Some(Ok(located.receipt@)), head, tip),
        found is Err ==> known_state(Ok(Some(found)), creation, head, tip)
            == ReceiptState::Invalid,
{
}

/// Where the receipt could not be looked for, nothing is known.
pub proof fn unread_receipts_tell_nothing(
    error: Error,
    creation: CreationRead,
    head: Seq<char>,
    tip: Option<Seq<char>>,
)
    ensures
        known_state(Err(error), creation, head, tip) == ReceiptState::Unknown,
{
}

} // verus!
