//! Creating a worktree: register it first, clone what is proven to be the
//! checkout's bytes, and let Git write the rest.
//!
//! The work is a sequence of stages. What each of them found decides which of
//! the later ones is next.
use crate::bytes;
use crate::donors;
use crate::error;
use crate::error::{Error, Failure};
use crate::git;
use crate::git::TreeEntry;
use crate::order;
use crate::ownership::Creation;
use crate::pathmap::PathMap;
use crate::paths;
use crate::platform::Identity;
use crate::receipt;
use crate::seeding;
use crate::text;
use crate::worktree;
use vstd::prelude::*;
use vstd::string::*;

verus! {

/// What is done to fill a registered worktree, in this order.
#[derive(Clone, Copy, Debug, PartialEq, Eq, Structural)]
pub enum Stage {
    /// Check that the worktree is the one registered.
    CheckAuthority,
    ReadCommit,
    ResetIndex,
    ListTree,
    ReadSparse,
    /// Find out which paths the sparse checkout takes in.
    MatchSparse,
    /// Mark the paths that are not checked out.
    OmitPaths,
    /// Check that the volume can share blocks.
    ValidateVolume,
    CheckAttributes,
    InventoryDonors,
    PlanSeeds,
    SeedFiles,
    /// Check that something was cloned.
    RequireSeeds,
    /// Check that nothing stands where Git is going to write.
    CheckAbsent,
    /// From here on Git writes files.
    Materialize,
    CheckOutMissing,
    MakeGitlinks,
    ReadIndexSparse,
    ReapplySparse,
    RefreshIndex,
    /// Check again that the worktree is the one registered.
    Revalidate,
    CheckSeeds,
    CheckHead,
    CheckClean,
    Unlock,
    /// From here on the worktree stays.
    Complete,
    ShowSummary,
    RunHook,
    RecordReceipt,
    Done,
}

/// What the stages found out so far.
#[derive(Clone, Copy, Debug, PartialEq, Eq, Structural)]
pub struct Facts {
    /// The checkout is sparse.
    pub sparse: bool,
    /// There are paths that are not checked out.
    pub omitted: bool,
    /// There are paths that are checked out.
    pub wanted: bool,
    /// There are paths that Git has to write.
    pub missing: bool,
    /// The index is sparse.
    pub index_sparse: bool,
    /// The worktree is to stay locked.
    pub locked: bool,
    /// Nothing is to be shown.
    pub quiet: bool,
    /// The exit status of the hook.
    pub hook_code: i32,
}

/// The place of a stage in the order.
pub open spec fn rank(stage: Stage) -> int {
    match stage {
        Stage::CheckAuthority => 0,
        Stage::ReadCommit => 1,
        Stage::ResetIndex => 2,
        Stage::ListTree => 3,
        Stage::ReadSparse => 4,
        Stage::MatchSparse => 5,
        Stage::OmitPaths => 6,
        Stage::ValidateVolume => 7,
        Stage::CheckAttributes => 8,
        Stage::InventoryDonors => 9,
        Stage::PlanSeeds => 10,
        Stage::SeedFiles => 11,
        Stage::RequireSeeds => 12,
        Stage::CheckAbsent => 13,
        Stage::Materialize => 14,
        Stage::CheckOutMissing => 15,
        Stage::MakeGitlinks => 16,
        Stage::ReadIndexSparse => 17,
        Stage::ReapplySparse => 18,
        Stage::RefreshIndex => 19,
        Stage::Revalidate => 20,
        Stage::CheckSeeds => 21,
        Stage::CheckHead => 22,
        Stage::CheckClean => 23,
        Stage::Unlock => 24,
        Stage::Complete => 25,
        Stage::ShowSummary => 26,
        Stage::RunHook => 27,
        Stage::RecordReceipt => 28,
        Stage::Done => 29,
    }
}

/// A stage is passed over where there is nothing to do in it.
pub open spec fn is_idle(stage: Stage, facts: Facts) -> bool {
    match stage {
        Stage::MatchSparse => !facts.sparse,
        Stage::OmitPaths => !facts.omitted,
        Stage::ValidateVolume => !facts.wanted,
        Stage::CheckAttributes => !facts.wanted,
        Stage::CheckOutMissing => !facts.missing,
        Stage::ReadIndexSparse => !facts.sparse,
        Stage::ReapplySparse => !(facts.sparse && facts.index_sparse),
        Stage::Unlock => facts.locked,
        Stage::ShowSummary => facts.quiet,
        Stage::RecordReceipt => facts.hook_code != 0,
        _ => false,
    }
}

/// The stage behind `stage` in the order.
pub open spec fn behind(stage: Stage) -> Stage {
    match stage {
        Stage::CheckAuthority => Stage::ReadCommit,
        Stage::ReadCommit => Stage::ResetIndex,
        Stage::ResetIndex => Stage::ListTree,
        Stage::ListTree => Stage::ReadSparse,
        Stage::ReadSparse => Stage::MatchSparse,
        Stage::MatchSparse => Stage::OmitPaths,
        Stage::OmitPaths => Stage::ValidateVolume,
        Stage::ValidateVolume => Stage::CheckAttributes,
        Stage::CheckAttributes => Stage::InventoryDonors,
        Stage::InventoryDonors => Stage::PlanSeeds,
        Stage::PlanSeeds => Stage::SeedFiles,
        Stage::SeedFiles => Stage::RequireSeeds,
        Stage::RequireSeeds => Stage::CheckAbsent,
        Stage::CheckAbsent => Stage::Materialize,
        Stage::Materialize => Stage::CheckOutMissing,
        Stage::CheckOutMissing => Stage::MakeGitlinks,
        Stage::MakeGitlinks => Stage::ReadIndexSparse,
        Stage::ReadIndexSparse => Stage::ReapplySparse,
        Stage::ReapplySparse => Stage::RefreshIndex,
        Stage::RefreshIndex => Stage::Revalidate,
        Stage::Revalidate => Stage::CheckSeeds,
        Stage::CheckSeeds => Stage::CheckHead,
        Stage::CheckHead => Stage::CheckClean,
        Stage::CheckClean => Stage::Unlock,
        Stage::Unlock => Stage::Complete,
        Stage::Complete => Stage::ShowSummary,
        Stage::ShowSummary => Stage::RunHook,
        Stage::RunHook => Stage::RecordReceipt,
        _ => Stage::Done,
    }
}

/// The first stage behind `stage` in which there is something to do.
pub open spec fn next_stage(stage: Stage, facts: Facts) -> Stage
    decreases 30 - rank(stage),
{
    if stage == Stage::Done {
        Stage::Done
    } else if is_idle(behind(stage), facts) {
        next_stage(behind(stage), facts)
    } else {
        behind(stage)
    }
}

/// `later` is the first stage behind `stage` in which there is something to do.
pub open spec fn follows(stage: Stage, later: Stage, facts: Facts) -> bool {
    &&& rank(stage) < rank(later)
    &&& !is_idle(later, facts)
    &&& forall|between: Stage|
        rank(stage) < #[trigger] rank(between) < rank(later) ==> is_idle(between, facts)
}

/// The stage behind `stage` in the order.
fn successor(stage: Stage) -> (next: Stage)
    requires
        stage != Stage::Done,
    ensures
        next == behind(stage),
        rank(next) == rank(stage) + 1,
{
    match stage {
        Stage::CheckAuthority => Stage::ReadCommit,
        Stage::ReadCommit => Stage::ResetIndex,
        Stage::ResetIndex => Stage::ListTree,
        Stage::ListTree => Stage::ReadSparse,
        Stage::ReadSparse => Stage::MatchSparse,
        Stage::MatchSparse => Stage::OmitPaths,
        Stage::OmitPaths => Stage::ValidateVolume,
        Stage::ValidateVolume => Stage::CheckAttributes,
        Stage::CheckAttributes => Stage::InventoryDonors,
        Stage::InventoryDonors => Stage::PlanSeeds,
        Stage::PlanSeeds => Stage::SeedFiles,
        Stage::SeedFiles => Stage::RequireSeeds,
        Stage::RequireSeeds => Stage::CheckAbsent,
        Stage::CheckAbsent => Stage::Materialize,
        Stage::Materialize => Stage::CheckOutMissing,
        Stage::CheckOutMissing => Stage::MakeGitlinks,
        Stage::MakeGitlinks => Stage::ReadIndexSparse,
        Stage::ReadIndexSparse => Stage::ReapplySparse,
        Stage::ReapplySparse => Stage::RefreshIndex,
        Stage::RefreshIndex => Stage::Revalidate,
        Stage::Revalidate => Stage::CheckSeeds,
        Stage::CheckSeeds => Stage::CheckHead,
        Stage::CheckHead => Stage::CheckClean,
        Stage::CheckClean => Stage::Unlock,
        Stage::Unlock => Stage::Complete,
        Stage::Complete => Stage::ShowSummary,
        Stage::ShowSummary => Stage::RunHook,
        Stage::RunHook => Stage::RecordReceipt,
        _ => Stage::Done,
    }
}

fn idle(stage: Stage, facts: &Facts) -> (yes: bool)
    ensures
        yes == is_idle(stage, *facts),
{
    match stage {
        Stage::MatchSparse => !facts.sparse,
        Stage::OmitPaths => !facts.omitted,
        Stage::ValidateVolume => !facts.wanted,
        Stage::CheckAttributes => !facts.wanted,
        Stage::CheckOutMissing => !facts.missing,
        Stage::ReadIndexSparse => !facts.sparse,
        Stage::ReapplySparse => !(facts.sparse && facts.index_sparse),
        Stage::Unlock => facts.locked,
        Stage::ShowSummary => facts.quiet,
        Stage::RecordReceipt => facts.hook_code != 0,
        _ => false,
    }
}

/// The stage to go on with after `stage`.
pub fn following(stage: Stage, facts: &Facts) -> (next: Stage)
    requires
        stage != Stage::Done,
    ensures
        next == next_stage(stage, *facts),
        follows(stage, next, *facts),
{
    let mut next = successor(stage);
    while idle(next, facts)
        invariant
            rank(stage) < rank(next),
            next_stage(stage, *facts) == (if is_idle(next, *facts) {
                next_stage(next, *facts)
            } else {
                next
            }),
            forall|between: Stage|
                rank(stage) < #[trigger] rank(between) < rank(next) ==> is_idle(between, *facts),
        decreases 29 - rank(next),
    {
        let ghost passed = next;
        next = successor(next);
        proof {
            assert forall|between: Stage|
                rank(stage) < #[trigger] rank(between) < rank(next) implies is_idle(
                between,
                *facts,
            ) by {
                if rank(between) == rank(passed) {
                    assert(between == passed);
                }
            }
        }
    }
    next
}

/// A stage with something to do is never passed over: no step leads from before
/// it to behind it.
pub proof fn no_stage_is_skipped(stage: Stage, next: Stage, due: Stage, facts: Facts)
    requires
        follows(stage, next, facts),
        rank(stage) < rank(due),
        !is_idle(due, facts),
    ensures
        rank(next) <= rank(due),
{
    if rank(due) < rank(next) {
        assert(is_idle(due, facts));
    }
}

/// What follows a stage is determined.
pub proof fn following_is_unique(stage: Stage, a: Stage, b: Stage, facts: Facts)
    requires
        follows(stage, a, facts),
        follows(stage, b, facts),
    ensures
        a == b,
{
    if rank(a) < rank(b) {
        assert(is_idle(a, facts));
    }
    if rank(b) < rank(a) {
        assert(is_idle(b, facts));
    }
}

/// Before the worktree is unlocked or counts as complete, it was checked that
/// it is the one registered, that its clones and its head did not change, and
/// that it is clean; and the hook runs only then.
pub proof fn checks_come_before_completion(stage: Stage, next: Stage, facts: Facts)
    requires
        follows(stage, next, facts),
        next == Stage::Unlock || next == Stage::Complete || next == Stage::RunHook,
    ensures
        rank(stage) >= rank(Stage::CheckClean),
        rank(Stage::Revalidate) < rank(Stage::CheckSeeds) < rank(Stage::CheckHead) < rank(
            Stage::CheckClean,
        ),
{
    if rank(stage) < rank(Stage::CheckClean) {
        no_stage_is_skipped(stage, next, Stage::CheckClean, facts);
    }
}

/// A receipt is recorded only after a hook that succeeded.
pub proof fn failed_hook_leaves_no_receipt(stage: Stage, next: Stage, facts: Facts)
    requires
        follows(stage, next, facts),
        facts.hook_code != 0,
    ensures
        next != Stage::RecordReceipt,
{
}

/// Whether Git may have written files, so that an incomplete worktree is kept.
pub fn is_materializing(stage: Stage) -> (yes: bool)
    ensures
        yes == (rank(stage) >= rank(Stage::Materialize)),
{
    match stage {
        Stage::CheckAuthority => false,
        Stage::ReadCommit => false,
        Stage::ResetIndex => false,
        Stage::ListTree => false,
        Stage::ReadSparse => false,
        Stage::MatchSparse => false,
        Stage::OmitPaths => false,
        Stage::ValidateVolume => false,
        Stage::CheckAttributes => false,
        Stage::InventoryDonors => false,
        Stage::PlanSeeds => false,
        Stage::SeedFiles => false,
        Stage::RequireSeeds => false,
        Stage::CheckAbsent => false,
        _ => true,
    }
}

/// Whether the worktree counts as complete, so that it stays whatever follows.
pub fn is_complete(stage: Stage) -> (yes: bool)
    ensures
        yes == (rank(stage) >= rank(Stage::Complete)),
{
    match stage {
        Stage::Complete => true,
        Stage::ShowSummary => true,
        Stage::RunHook => true,
        Stage::RecordReceipt => true,
        Stage::Done => true,
        _ => false,
    }
}

/// What has been done once `stage` is behind, for the display of times.
pub open spec fn milestone(stage: int) -> Option<Seq<char>> {
    if stage == rank(Stage::OmitPaths) {
        Some("prepare target index"@)
    } else if stage == rank(Stage::CheckAttributes) {
        Some("check checkout attributes"@)
    } else if stage == rank(Stage::InventoryDonors) {
        Some("inventory donor trees"@)
    } else if stage == rank(Stage::PlanSeeds) {
        Some("plan clone jobs"@)
    } else if stage == rank(Stage::SeedFiles) {
        Some("verify and clone files"@)
    } else if stage == rank(Stage::ReapplySparse) {
        Some("materialize remaining files"@)
    } else if stage == rank(Stage::RefreshIndex) {
        Some("refresh index"@)
    } else if stage == rank(Stage::CheckClean) {
        Some("validate checkout"@)
    } else if stage == rank(Stage::RecordReceipt) {
        Some("finalize and run hook"@)
    } else {
        None
    }
}

fn milestone_label(stage: Stage) -> (label: Option<&'static str>)
    ensures
        match label {
            Some(label) => milestone(rank(stage)) == Some(label@),
            None => milestone(rank(stage)) is None,
        },
{
    match stage {
        Stage::OmitPaths => Some("prepare target index"),
        Stage::CheckAttributes => Some("check checkout attributes"),
        Stage::InventoryDonors => Some("inventory donor trees"),
        Stage::PlanSeeds => Some("plan clone jobs"),
        Stage::SeedFiles => Some("verify and clone files"),
        Stage::ReapplySparse => Some("materialize remaining files"),
        Stage::RefreshIndex => Some("refresh index"),
        Stage::CheckClean => Some("validate checkout"),
        Stage::RecordReceipt => Some("finalize and run hook"),
        _ => None,
    }
}

/// The milestones from the stage at one place up to before another.
pub open spec fn milestones(from: int, to: int) -> Seq<Seq<char>>
    decreases to - from,
{
    if from >= to {
        Seq::empty()
    } else {
        let rest = milestones(from, to - 1);
        match milestone(to - 1) {
            Some(label) => rest.push(label),
            None => rest,
        }
    }
}

/// What a list of labels holds.
pub open spec fn labels(list: Seq<&'static str>) -> Seq<Seq<char>> {
    Seq::new(list.len(), |i: int| list[i]@)
}

/// The milestones that are reached by going on from `stage` to `next`.
pub fn reached(stage: Stage, next: Stage) -> (list: Vec<&'static str>)
    requires
        rank(stage) <= rank(next),
    ensures
        labels(list@) == milestones(rank(stage), rank(next)),
{
    let mut list: Vec<&'static str> = Vec::new();
    let mut at = stage;
    assert(labels(list@) =~= milestones(rank(stage), rank(stage)));
    while at != next
        invariant
            rank(stage) <= rank(at) <= rank(next),
            labels(list@) == milestones(rank(stage), rank(at)),
        decreases rank(next) - rank(at),
    {
        proof {
            if rank(at) == rank(next) {
                assert(at == next);
            }
        }
        let ghost before = labels(list@);
        if let Some(label) = milestone_label(at) {
            list.push(label);
            assert(labels(list@) =~= before.push(label@));
        }
        at = successor(at);
    }
    list
}

/// The arguments of the Git command of a stage, where it runs one.
pub open spec fn arguments(stage: Stage, commit: Seq<char>) -> Seq<Seq<char>> {
    match stage {
        Stage::ReadCommit => seq!["rev-parse"@, "--verify"@, "HEAD^{commit}"@],
        Stage::ResetIndex => seq!["read-tree"@, "--reset"@, commit],
        Stage::ListTree => seq!["ls-tree"@, "-r"@, "-z"@, commit],
        Stage::ReadSparse => seq![
            "config"@,
            "--type=bool"@,
            "--get"@,
            "core.sparseCheckout"@,
        ],
        Stage::MatchSparse => seq!["sparse-checkout"@, "check-rules"@, "-z"@],
        Stage::OmitPaths => seq!["update-index"@, "--skip-worktree"@, "-z"@, "--stdin"@],
        Stage::CheckAttributes => seq![
            "check-attr"@,
            "--cached"@,
            "-z"@,
            "--stdin"@,
            "filter"@,
            "text"@,
            "eol"@,
            "working-tree-encoding"@,
            "ident"@,
        ],
        Stage::CheckOutMissing => seq!["checkout-index"@, "--index"@, "-z"@, "--stdin"@],
        Stage::ReadIndexSparse => seq!["config"@, "--type=bool"@, "--get"@, "index.sparse"@],
        Stage::ReapplySparse => seq!["sparse-checkout"@, "reapply"@, "--sparse-index"@],
        Stage::RefreshIndex => seq!["update-index"@, "--refresh"@],
        Stage::CheckHead => seq!["rev-parse"@, "HEAD"@],
        Stage::CheckClean => seq![
            "status"@,
            "--porcelain=v1"@,
            "-z"@,
            "--untracked-files=all"@,
            "--ignore-submodules=none"@,
        ],
        Stage::Unlock => seq!["worktree"@, "unlock"@, "."@],
        Stage::ShowSummary => seq!["log"@, "-1"@, "--format=HEAD is now at %h %s"@],
        _ => Seq::empty(),
    }
}

/// A list with one more word.
fn and(list: Vec<String>, word: &str) -> (result: Vec<String>)
    ensures
        text::texts(result@) == text::texts(list@).push(word@),
{
    let ghost before = text::texts(list@);
    let mut result = list;
    result.push(word.to_owned());
    assert(text::texts(result@) =~= before.push(word@));
    result
}

fn words(word: &str) -> (result: Vec<String>)
    ensures
        text::texts(result@) == seq![word@],
{
    let mut result: Vec<String> = Vec::new();
    result.push(word.to_owned());
    assert(text::texts(result@) =~= seq![word@]);
    result
}

/// The arguments of the Git command of a stage; none where it runs no command.
pub fn git_arguments(stage: Stage, commit: &str) -> (list: Vec<String>)
    ensures
        text::texts(list@) == arguments(stage, commit@),
{
    let list = match stage {
        Stage::ReadCommit => and(and(words("rev-parse"), "--verify"), "HEAD^{commit}"),
        Stage::ResetIndex => and(and(words("read-tree"), "--reset"), commit),
        Stage::ListTree => and(and(and(words("ls-tree"), "-r"), "-z"), commit),
        Stage::ReadSparse => and(
            and(and(words("config"), "--type=bool"), "--get"),
            "core.sparseCheckout",
        ),
        Stage::MatchSparse => and(and(words("sparse-checkout"), "check-rules"), "-z"),
        Stage::OmitPaths => and(
            and(and(words("update-index"), "--skip-worktree"), "-z"),
            "--stdin",
        ),
        Stage::CheckAttributes => {
            let start = and(and(and(words("check-attr"), "--cached"), "-z"), "--stdin");
            and(
                and(and(and(and(start, "filter"), "text"), "eol"), "working-tree-encoding"),
                "ident",
            )
        },
        Stage::CheckOutMissing => and(
            and(and(words("checkout-index"), "--index"), "-z"),
            "--stdin",
        ),
        Stage::ReadIndexSparse => and(
            and(and(words("config"), "--type=bool"), "--get"),
            "index.sparse",
        ),
        Stage::ReapplySparse => and(and(words("sparse-checkout"), "reapply"), "--sparse-index"),
        Stage::RefreshIndex => and(words("update-index"), "--refresh"),
        Stage::CheckHead => and(words("rev-parse"), "HEAD"),
        Stage::CheckClean => and(
            and(
                and(and(words("status"), "--porcelain=v1"), "-z"),
                "--untracked-files=all",
            ),
            "--ignore-submodules=none",
        ),
        Stage::Unlock => and(and(words("worktree"), "unlock"), "."),
        Stage::ShowSummary => and(and(words("log"), "-1"), "--format=HEAD is now at %h %s"),
        _ => Vec::new(),
    };
    assert(text::texts(list@) =~= arguments(stage, commit@));
    list
}

/// No stage runs a command that throws work away.
#[verifier::spinoff_prover]
pub proof fn no_stage_destroys(stage: Stage, commit: Seq<char>)
    requires
        arguments(stage, commit).len() > 0,
    ensures
        arguments(stage, commit)[0] != "reset"@,
        arguments(stage, commit)[0] != "clean"@,
        arguments(stage, commit)[0] != "checkout"@,
{
    reveal_strlit("reset");
    reveal_strlit("clean");
    reveal_strlit("checkout");
    reveal_strlit("rev-parse");
    reveal_strlit("read-tree");
    reveal_strlit("ls-tree");
    reveal_strlit("config");
    reveal_strlit("sparse-checkout");
    reveal_strlit("update-index");
    reveal_strlit("check-attr");
    reveal_strlit("checkout-index");
    reveal_strlit("status");
    reveal_strlit("worktree");
    reveal_strlit("log");
    assert("reset"@.len() == 5 && "clean"@.len() == 5 && "checkout"@.len() == 8);
    assert("rev-parse"@.len() == 9 && "read-tree"@.len() == 9 && "ls-tree"@.len() == 7);
    assert("config"@.len() == 6 && "sparse-checkout"@.len() == 15 && "update-index"@.len() == 12);
    assert("check-attr"@.len() == 10 && "checkout-index"@.len() == 14 && "status"@.len() == 6);
    assert("worktree"@.len() == 8 && "log"@.len() == 3);
    assert("worktree"@[0] == 'w' && "checkout"@[0] == 'c');
    let first = arguments(stage, commit)[0];
    match stage {
        Stage::ReadCommit => assert(first == "rev-parse"@),
        Stage::ResetIndex => assert(first == "read-tree"@),
        Stage::ListTree => assert(first == "ls-tree"@),
        Stage::ReadSparse => assert(first == "config"@),
        Stage::MatchSparse => assert(first == "sparse-checkout"@),
        Stage::OmitPaths => assert(first == "update-index"@),
        Stage::CheckAttributes => assert(first == "check-attr"@),
        Stage::CheckOutMissing => assert(first == "checkout-index"@),
        Stage::ReadIndexSparse => assert(first == "config"@),
        Stage::ReapplySparse => assert(first == "sparse-checkout"@),
        Stage::RefreshIndex => assert(first == "update-index"@),
        Stage::CheckHead => assert(first == "rev-parse"@),
        Stage::CheckClean => assert(first == "status"@),
        Stage::Unlock => assert(first == "worktree"@),
        Stage::ShowSummary => assert(first == "log"@),
        _ => {},
    }
}

/// The path that Git printed.
pub fn path_output(output: &[u8]) -> (result: Result<Vec<u8>, Error>)
    ensures
        result is Ok <==> bytes::without_newline(output@).len() > 0,
        result matches Ok(path) ==> path@ == bytes::without_newline(output@),
        result matches Err(error) ==> error@ == Failure::Message("Git returned an empty path"@),
{
    let path = bytes::trim_newline(output);
    if path.len() == 0 {
        Err(error::message("Git returned an empty path"))
    } else {
        Ok(path)
    }
}

/// The exit status of a creation: that of the signal that interrupted it, or
/// what it came to.
pub fn finish(signal: usize, result: Result<i32, Error>) -> (end: Result<i32, Error>)
    requires
        signal <= 0x7fff_ff7f,
    ensures
        signal == 0 ==> end == result,
        signal != 0 ==> end == Ok::<i32, Error>((128 + signal) as i32),
{
    if signal != 0 {
        Ok(128 + signal as i32)
    } else {
        result
    }
}

/// A checkout that is not empty needs a clone: nothing is copied instead.
pub fn require_seeds(wanted: bool, cloned: usize) -> (result: Result<(), Error>)
    ensures
        result is Ok <==> !wanted || cloned > 0,
        result matches Err(error) ==> error@ == Failure::Message(
            "COW creation unavailable: no verified, checkout-compatible source files on the destination APFS volume; no full-copy fallback was used"@,
        ),
{
    if wanted && cloned == 0 {
        Err(
            error::message(
                "COW creation unavailable: no verified, checkout-compatible source files on the destination APFS volume; no full-copy fallback was used",
            ),
        )
    } else {
        Ok(())
    }
}

/// The entries that Git has to write: those that were not cloned.
pub open spec fn unseeded(entries: Seq<git::Entry>, seeds: Set<Seq<Seq<u8>>>) -> spec_fn(
    int,
) -> bool {
    |i: int| !seeds.contains(paths::components(entries[i].path))
}

/// Those of them whose content Git writes.
pub open spec fn written_by_git(entries: Seq<git::Entry>, seeds: Set<Seq<Seq<u8>>>) -> spec_fn(
    int,
) -> bool {
    |i: int| !seeds.contains(paths::components(entries[i].path)) && !entries[i].gitlink
}

pub open spec fn is_gitlink(entries: Seq<git::Entry>) -> spec_fn(int) -> bool {
    |i: int| entries[i].gitlink
}

/// What is left after seeding: the positions of the entries where nothing may
/// stand yet, of those that Git writes, and of the submodules.
#[derive(Debug)]
pub struct Remainder {
    pub absent: Vec<usize>,
    pub missing: Vec<usize>,
    pub gitlinks: Vec<usize>,
}

/// What is left of the wanted entries after these paths were cloned.
pub fn remainder(entries: &Vec<TreeEntry>, wanted: &Vec<usize>, seeds: &PathMap<bool>) -> (rest:
    Remainder)
    requires
        seeding::within(wanted@, entries@.len() as int),
        seeds.wf(),
    ensures
        ({
            let all = git::entries(entries@);
            let list = donors::numbers(wanted@);
            let set = seeds@.dom();
            &&& donors::numbers(rest.absent@) == seeding::select(list, unseeded(all, set))
            &&& donors::numbers(rest.missing@) == seeding::select(list, written_by_git(all, set))
            &&& donors::numbers(rest.gitlinks@) == seeding::select(list, is_gitlink(all))
            &&& seeding::within(rest.absent@, entries@.len() as int)
            &&& seeding::within(rest.missing@, entries@.len() as int)
            &&& seeding::within(rest.gitlinks@, entries@.len() as int)
        }),
{
    let ghost all = git::entries(entries@);
    let ghost list = donors::numbers(wanted@);
    let ghost set = seeds@.dom();
    let mut absent: Vec<usize> = Vec::new();
    let mut missing: Vec<usize> = Vec::new();
    let mut gitlinks: Vec<usize> = Vec::new();
    assert(list.take(0) =~= Seq::<int>::empty());
    assert(donors::numbers(absent@) =~= Seq::<int>::empty());
    assert(donors::numbers(missing@) =~= Seq::<int>::empty());
    assert(donors::numbers(gitlinks@) =~= Seq::<int>::empty());
    for i in 0..wanted.len()
        invariant
            seeding::within(wanted@, entries@.len() as int),
            seeds.wf(),
            all == git::entries(entries@),
            list == donors::numbers(wanted@),
            set == seeds@.dom(),
            donors::numbers(absent@) == seeding::select(list.take(i as int), unseeded(all, set)),
            donors::numbers(missing@) == seeding::select(
                list.take(i as int),
                written_by_git(all, set),
            ),
            donors::numbers(gitlinks@) == seeding::select(list.take(i as int), is_gitlink(all)),
            seeding::within(absent@, entries@.len() as int),
            seeding::within(missing@, entries@.len() as int),
            seeding::within(gitlinks@, entries@.len() as int),
    {
        assert(list.take(i + 1).drop_last() =~= list.take(i as int));
        assert(list.take(i + 1).last() == wanted@[i as int] as int);
        let at: usize = wanted[i];
        let entry = &entries[at];
        assert(all[at as int] == entry@);
        let seeded = seeds.contains(entry.path.as_slice());
        assert(unseeded(all, set)(at as int) == !seeded);
        assert(written_by_git(all, set)(at as int) == (!seeded && !entry.gitlink));
        assert(is_gitlink(all)(at as int) == entry.gitlink);
        if !seeded {
            let ghost before = donors::numbers(absent@);
            absent.push(at);
            assert(donors::numbers(absent@) =~= before.push(at as int));
            if !entry.gitlink {
                let ghost before = donors::numbers(missing@);
                missing.push(at);
                assert(donors::numbers(missing@) =~= before.push(at as int));
            }
        }
        if entry.gitlink {
            let ghost before = donors::numbers(gitlinks@);
            gitlinks.push(at);
            assert(donors::numbers(gitlinks@) =~= before.push(at as int));
        }
    }
    assert(list.take(list.len() as int) =~= list);
    Remainder { absent, missing, gitlinks }
}

fn with_path(prefix: &str, path: &[u8]) -> (error: Error)
    ensures
        error@ == Failure::Message(prefix@ + text::lossy_text(path@)),
{
    let mut message = prefix.to_owned();
    let shown = text::lossy(path);
    message.append(shown.as_str());
    Error::Message(message)
}

/// Accepts a path where nothing stands.
pub fn check_absent(path: &[u8], exists: bool) -> (result: Result<(), Error>)
    ensures
        result is Ok <==> !exists,
        result matches Err(error) ==> error@ == Failure::Message(
            "unexpected destination path: "@ + text::lossy_text(path@),
        ),
{
    if exists {
        Err(with_path("unexpected destination path: ", path))
    } else {
        Ok(())
    }
}

/// Accepts a clone that is still the one that was made.
pub fn check_seed(creation: &Creation, path: &[u8], found: Result<Identity, String>) -> (result:
    Result<(), Error>)
    ensures
        ({
            let key = paths::components(path@);
            &&& result is Ok <==> (found matches Ok(identity) && creation.owned().contains_key(key)
                && creation.owned()[key] == identity)
            &&& result matches Err(error) ==> error@ == (match found {
                Err(text) => Failure::Io(text@),
                Ok(_) => Failure::Message(
                    "seeded clone changed during Git materialization: "@ + text::lossy_text(path@),
                ),
            })
        }),
{
    match found {
        Err(text) => Err(Error::Io(text)),
        Ok(identity) => {
            if creation.is_owned(path, identity) {
                Ok(())
            } else {
                Err(with_path("seeded clone changed during Git materialization: ", path))
            }
        },
    }
}

/// Accepts a head that did not move.
pub fn check_head(head: &str, commit: &str) -> (result: Result<(), Error>)
    ensures
        result is Ok <==> head@ == commit@,
        result matches Err(error) ==> error@ == Failure::Message(
            "target HEAD changed during creation"@,
        ),
{
    if text::same(head, commit) {
        Ok(())
    } else {
        Err(error::message("target HEAD changed during creation"))
    }
}

/// Accepts a worktree of which Git reports nothing.
pub fn check_clean(report: &[u8]) -> (result: Result<(), Error>)
    ensures
        result is Ok <==> report@.len() == 0,
        result matches Err(error) ==> error@ == Failure::Message(
            "checkout validation failed; worktree is not clean"@,
        ),
{
    if report.len() == 0 {
        Ok(())
    } else {
        Err(error::message("checkout validation failed; worktree is not clean"))
    }
}

/// How many of the first `n` clones are still those that were made.
pub open spec fn intact(
    owned: Map<Seq<Seq<u8>>, Identity>,
    seeds: Seq<Seq<u8>>,
    found: Seq<Option<Identity>>,
    n: int,
) -> int
    decreases n,
{
    if n <= 0 {
        0
    } else {
        let key = paths::components(seeds[n - 1]);
        let stays = n - 1 < found.len() && owned.contains_key(key) && found[n - 1] == Some(
            owned[key],
        );
        intact(owned, seeds, found, n - 1) + if stays {
            1int
        } else {
            0int
        }
    }
}

/// How many clones the hook left intact. `found` is what stands at each path.
pub fn retained(creation: &Creation, seeds: &Vec<Vec<u8>>, found: &Vec<Option<Identity>>) -> (count:
    usize)
    ensures
        count as int == intact(
            creation.owned(),
            bytes::views(seeds@),
            found@,
            seeds@.len() as int,
        ),
        count <= seeds@.len(),
{
    let mut count: usize = 0;
    let ghost all = bytes::views(seeds@);
    for i in 0..seeds.len()
        invariant
            all == bytes::views(seeds@),
            count as int == intact(creation.owned(), all, found@, i as int),
            count <= i,
    {
        assert(all[i as int] == seeds@[i as int]@);
        if i < found.len() {
            if let Some(identity) = found[i] {
                if creation.is_owned(seeds[i].as_slice(), identity) {
                    count = count + 1;
                }
            }
        }
    }
    count
}

/// Whether a creation is recorded: clones are left, the worktree is still the
/// one registered, and its head, which was read for this, did not move.
pub fn records(retained: usize, authority: bool, head: Result<String, Error>, commit: &str) -> (result:
    Result<bool, Error>)
    ensures
        result is Ok <==> retained == 0 || !authority || head is Ok,
        result matches Ok(yes) ==> yes == (retained > 0 && authority && head->Ok_0@ == commit@),
        result matches Err(error) ==> error@ == head->Err_0@,
{
    if retained == 0 || !authority {
        return Ok(false);
    }
    match head {
        Ok(head) => Ok(text::same(head.as_str(), commit)),
        Err(error) => Err(error),
    }
}

/// The texts in the order of their bytes.
pub open spec fn sorted_texts(items: Seq<Seq<char>>) -> Seq<Seq<char>> {
    let keys = Seq::new(items.len(), |i: int| seq![vstd::utf8::encode_utf8(items[i])]);
    order::arranged(items, order::sorted_order(keys))
}

/// Each text comes before those after it, by their bytes.
pub open spec fn is_ascending(items: Seq<Seq<char>>) -> bool {
    forall|a: int, b: int|
        0 <= a < b < items.len() ==> order::bytes_less(
            vstd::utf8::encode_utf8(#[trigger] items[a]),
            vstd::utf8::encode_utf8(#[trigger] items[b]),
        )
}

proof fn lemma_sorted_texts(items: Seq<Seq<char>>, sorted: Seq<usize>)
    requires
        items.len() <= usize::MAX,
        order::is_order(
            Seq::new(items.len(), |i: int| seq![vstd::utf8::encode_utf8(items[i])]),
            items.len() as int,
            sorted,
        ),
    ensures
        ({
            let result = Seq::new(sorted.len(), |i: int| items[sorted[i] as int]);
            &&& result.to_set() == items.to_set()
            &&& items.no_duplicates() ==> is_ascending(result)
        }),
{
    let keys = Seq::new(items.len(), |i: int| seq![vstd::utf8::encode_utf8(items[i])]);
    let result = Seq::new(sorted.len(), |i: int| items[sorted[i] as int]);
    assert forall|x: Seq<char>| result.to_set().contains(x) <==> items.to_set().contains(x) by {
        if items.contains(x) {
            let i = choose|i: int| 0 <= i < items.len() && items[i] == x;
            assert(sorted.contains(i as usize));
            let k = choose|k: int| 0 <= k < sorted.len() && sorted[k] == i as usize;
            assert(result[k] == x);
        }
        if result.contains(x) {
            let k = choose|k: int| 0 <= k < result.len() && result[k] == x;
            assert(items[sorted[k] as int] == x);
        }
    }
    assert(result.to_set() =~= items.to_set());
    if items.no_duplicates() {
        assert forall|a: int, b: int| 0 <= a < b < result.len() implies order::bytes_less(
            vstd::utf8::encode_utf8(#[trigger] result[a]),
            vstd::utf8::encode_utf8(#[trigger] result[b]),
        ) by {
            let i = sorted[a] as int;
            let j = sorted[b] as int;
            assert(order::precedes(keys, i, j));
            order::precedes_asymmetric(keys, i, j);
            let x = vstd::utf8::encode_utf8(items[i]);
            let y = vstd::utf8::encode_utf8(items[j]);
            assert(keys[i] == seq![x] && keys[j] == seq![y]);
            assert(keys[i][0] == x && keys[j][0] == y);
            vstd::utf8::encode_utf8_decode_utf8(items[i]);
            vstd::utf8::encode_utf8_decode_utf8(items[j]);
            assert(x != y);
        }
    }
}

/// The commits that were cloned from, in the order of their bytes.
pub fn sorted_sources(sources: &Vec<String>) -> (result: Vec<String>)
    ensures
        text::texts(result@) == sorted_texts(text::texts(sources@)),
        text::texts(result@).to_set() == text::texts(sources@).to_set(),
        text::texts(sources@).no_duplicates() ==> is_ascending(text::texts(result@)),
        result@.len() == sources@.len(),
{
    let ghost all = text::texts(sources@);
    let ghost wanted = Seq::new(all.len(), |i: int| seq![vstd::utf8::encode_utf8(all[i])]);
    let mut keys: Vec<Vec<Vec<u8>>> = Vec::new();
    for i in 0..sources.len()
        invariant
            all == text::texts(sources@),
            wanted == Seq::new(all.len(), |i: int| seq![vstd::utf8::encode_utf8(all[i])]),
            order::key_views(keys@) == wanted.take(i as int),
    {
        let mut key: Vec<Vec<u8>> = Vec::new();
        key.push(bytes::copy(sources[i].as_str().as_bytes()));
        assert(bytes::views(key@) =~= wanted[i as int]);
        let ghost before = order::key_views(keys@);
        let ghost k = bytes::views(key@);
        keys.push(key);
        assert(order::key_views(keys@) =~= before.push(k));
        assert(wanted.take(i + 1) =~= before.push(k));
    }
    assert(wanted.take(wanted.len() as int) =~= wanted);
    let sorted = order::stable_order(&keys);
    let ghost listed = Seq::new(sorted@.len(), |i: int| all[sorted@[i] as int]);
    let mut result: Vec<String> = Vec::new();
    for i in 0..sorted.len()
        invariant
            all == text::texts(sources@),
            sorted@.len() == sources@.len(),
            forall|k: int| 0 <= k < sorted@.len() ==> 0 <= #[trigger] sorted@[k] < sources@.len(),
            listed == Seq::new(sorted@.len(), |i: int| all[sorted@[i] as int]),
            text::texts(result@) == listed.take(i as int),
    {
        let one = sources[sorted[i]].as_str().to_owned();
        let ghost before = text::texts(result@);
        let ghost v = one@;
        result.push(one);
        assert(text::texts(result@) =~= before.push(v));
        assert(listed.take(i + 1) =~= before.push(v));
    }
    assert(listed.take(listed.len() as int) =~= listed);
    proof {
        assert(all.len() == sources.len());
        lemma_sorted_texts(all, sorted@);
    }
    result
}

/// The stages one after the other. Each comes with what it needs: the rules of a
/// sparse checkout are matched and its index is read where there is one, paths
/// are left out where some are, the volume and the attributes are checked where
/// there is something to check out, Git writes where something is missing, the
/// worktree is unlocked unless it is to stay locked, the summary is shown unless
/// nothing is to be shown, and the receipt is written after a hook that
/// succeeded.
pub proof fn stages_come_with_what_they_need(facts: Facts)
    ensures
        next_stage(Stage::CheckAuthority, facts) == Stage::ReadCommit,
        next_stage(Stage::ReadCommit, facts) == Stage::ResetIndex,
        next_stage(Stage::ResetIndex, facts) == Stage::ListTree,
        next_stage(Stage::ListTree, facts) == Stage::ReadSparse,
        facts.sparse ==> next_stage(Stage::ReadSparse, facts) == Stage::MatchSparse,
        !facts.sparse ==> next_stage(Stage::ReadSparse, facts) == next_stage(
            Stage::MatchSparse,
            facts,
        ),
        facts.omitted ==> next_stage(Stage::MatchSparse, facts) == Stage::OmitPaths,
        !facts.omitted ==> next_stage(Stage::MatchSparse, facts) == next_stage(
            Stage::OmitPaths,
            facts,
        ),
        facts.wanted ==> next_stage(Stage::OmitPaths, facts) == Stage::ValidateVolume,
        facts.wanted ==> next_stage(Stage::ValidateVolume, facts) == Stage::CheckAttributes,
        !facts.wanted ==> next_stage(Stage::OmitPaths, facts) == Stage::InventoryDonors,
        !facts.wanted ==> next_stage(Stage::ValidateVolume, facts) == Stage::InventoryDonors,
        next_stage(Stage::CheckAttributes, facts) == Stage::InventoryDonors,
        next_stage(Stage::InventoryDonors, facts) == Stage::PlanSeeds,
        next_stage(Stage::PlanSeeds, facts) == Stage::SeedFiles,
        next_stage(Stage::SeedFiles, facts) == Stage::RequireSeeds,
        next_stage(Stage::RequireSeeds, facts) == Stage::CheckAbsent,
        next_stage(Stage::CheckAbsent, facts) == Stage::Materialize,
        facts.missing ==> next_stage(Stage::Materialize, facts) == Stage::CheckOutMissing,
        !facts.missing ==> next_stage(Stage::Materialize, facts) == Stage::MakeGitlinks,
        next_stage(Stage::CheckOutMissing, facts) == Stage::MakeGitlinks,
        facts.sparse ==> next_stage(Stage::MakeGitlinks, facts) == Stage::ReadIndexSparse,
        !facts.sparse ==> next_stage(Stage::MakeGitlinks, facts) == Stage::RefreshIndex,
        facts.sparse && facts.index_sparse ==> next_stage(Stage::ReadIndexSparse, facts)
            == Stage::ReapplySparse,
        !(facts.sparse && facts.index_sparse) ==> next_stage(Stage::ReadIndexSparse, facts)
            == Stage::RefreshIndex,
        next_stage(Stage::ReapplySparse, facts) == Stage::RefreshIndex,
        next_stage(Stage::RefreshIndex, facts) == Stage::Revalidate,
        next_stage(Stage::Revalidate, facts) == Stage::CheckSeeds,
        next_stage(Stage::CheckSeeds, facts) == Stage::CheckHead,
        next_stage(Stage::CheckHead, facts) == Stage::CheckClean,
        !facts.locked ==> next_stage(Stage::CheckClean, facts) == Stage::Unlock,
        facts.locked ==> next_stage(Stage::CheckClean, facts) == Stage::Complete,
        next_stage(Stage::Unlock, facts) == Stage::Complete,
        !facts.quiet ==> next_stage(Stage::Complete, facts) == Stage::ShowSummary,
        facts.quiet ==> next_stage(Stage::Complete, facts) == Stage::RunHook,
        next_stage(Stage::ShowSummary, facts) == Stage::RunHook,
        facts.hook_code == 0 ==> next_stage(Stage::RunHook, facts) == Stage::RecordReceipt,
        facts.hook_code != 0 ==> next_stage(Stage::RunHook, facts) == Stage::Done,
        next_stage(Stage::RecordReceipt, facts) == Stage::Done,
{
    reveal_with_fuel(next_stage, 4);
}

/// Milestones are reached one after the other: those on the way from one place
/// to another are those up to a place between and those from it on.
pub proof fn milestones_follow_one_another(from: int, between: int, to: int)
    requires
        from <= between <= to,
    ensures
        milestones(from, to) == milestones(from, between) + milestones(between, to),
    decreases to - between,
{
    if between < to {
        milestones_follow_one_another(from, between, to - 1);
        assert(milestones(from, to) =~= milestones(from, between) + milestones(between, to));
    } else {
        assert(milestones(from, to) =~= milestones(from, between) + milestones(between, to));
    }
}

/// What has been done once a stage is behind.
pub proof fn milestones_stand_behind_stages()
    ensures
        milestones(rank(Stage::CheckAuthority), rank(Stage::OmitPaths)).len() == 0,
        milestones(rank(Stage::OmitPaths), rank(Stage::ValidateVolume)) == seq![
            "prepare target index"@,
        ],
        milestones(rank(Stage::ValidateVolume), rank(Stage::CheckAttributes)).len() == 0,
        milestones(rank(Stage::CheckAttributes), rank(Stage::InventoryDonors)) == seq![
            "check checkout attributes"@,
        ],
        milestones(rank(Stage::InventoryDonors), rank(Stage::PlanSeeds)) == seq![
            "inventory donor trees"@,
        ],
        milestones(rank(Stage::PlanSeeds), rank(Stage::SeedFiles)) == seq!["plan clone jobs"@],
        milestones(rank(Stage::SeedFiles), rank(Stage::RequireSeeds)) == seq![
            "verify and clone files"@,
        ],
        milestones(rank(Stage::RequireSeeds), rank(Stage::ReapplySparse)).len() == 0,
        milestones(rank(Stage::ReapplySparse), rank(Stage::RefreshIndex)) == seq![
            "materialize remaining files"@,
        ],
        milestones(rank(Stage::RefreshIndex), rank(Stage::Revalidate)) == seq!["refresh index"@],
        milestones(rank(Stage::Revalidate), rank(Stage::CheckClean)).len() == 0,
        milestones(rank(Stage::CheckClean), rank(Stage::Unlock)) == seq!["validate checkout"@],
        milestones(rank(Stage::Unlock), rank(Stage::RecordReceipt)).len() == 0,
        milestones(rank(Stage::RecordReceipt), rank(Stage::Done)) == seq![
            "finalize and run hook"@,
        ],
{
    reveal_with_fuel(milestones, 8);
    assert(milestones(6, 7) =~= seq!["prepare target index"@]);
    assert(milestones(8, 9) =~= seq!["check checkout attributes"@]);
    assert(milestones(9, 10) =~= seq!["inventory donor trees"@]);
    assert(milestones(10, 11) =~= seq!["plan clone jobs"@]);
    assert(milestones(11, 12) =~= seq!["verify and clone files"@]);
    assert(milestones(18, 19) =~= seq!["materialize remaining files"@]);
    assert(milestones(19, 20) =~= seq!["refresh index"@]);
    assert(milestones(23, 24) =~= seq!["validate checkout"@]);
    assert(milestones(28, 29) =~= seq!["finalize and run hook"@]);
}

/// The index is filled from the commit and its tree listed in full; whatever
/// Git reads from its input or prints as paths ends with NUL.
pub proof fn commands_name_the_commit(commit: Seq<char>)
    ensures
        arguments(Stage::ResetIndex, commit) == seq!["read-tree"@, "--reset"@, commit],
        arguments(Stage::ListTree, commit) == seq!["ls-tree"@, "-r"@, "-z"@, commit],
        arguments(Stage::ReadCommit, commit) == seq!["rev-parse"@, "--verify"@, "HEAD^{commit}"@],
        arguments(Stage::CheckHead, commit) == seq!["rev-parse"@, "HEAD"@],
        arguments(Stage::ReadSparse, commit) == seq![
            "config"@,
            "--type=bool"@,
            "--get"@,
            "core.sparseCheckout"@,
        ],
        arguments(Stage::ReadIndexSparse, commit) == seq![
            "config"@,
            "--type=bool"@,
            "--get"@,
            "index.sparse"@,
        ],
        arguments(Stage::MatchSparse, commit) == seq![
            "sparse-checkout"@,
            "check-rules"@,
            "-z"@,
        ],
        arguments(Stage::OmitPaths, commit) == seq![
            "update-index"@,
            "--skip-worktree"@,
            "-z"@,
            "--stdin"@,
        ],
        arguments(Stage::CheckAttributes, commit) == seq![
            "check-attr"@,
            "--cached"@,
            "-z"@,
            "--stdin"@,
            "filter"@,
            "text"@,
            "eol"@,
            "working-tree-encoding"@,
            "ident"@,
        ],
        arguments(Stage::CheckOutMissing, commit) == seq![
            "checkout-index"@,
            "--index"@,
            "-z"@,
            "--stdin"@,
        ],
        arguments(Stage::ReapplySparse, commit) == seq![
            "sparse-checkout"@,
            "reapply"@,
            "--sparse-index"@,
        ],
        arguments(Stage::RefreshIndex, commit) == seq!["update-index"@, "--refresh"@],
        arguments(Stage::CheckClean, commit) == seq![
            "status"@,
            "--porcelain=v1"@,
            "-z"@,
            "--untracked-files=all"@,
            "--ignore-submodules=none"@,
        ],
        arguments(Stage::Unlock, commit) == seq!["worktree"@, "unlock"@, "."@],
        arguments(Stage::ShowSummary, commit) == seq![
            "log"@,
            "-1"@,
            "--format=HEAD is now at %h %s"@,
        ],
{
}

/// Of the wanted entries, nothing may stand where no clone was made; Git writes
/// those of them that are no submodules; and the submodules are all listed. Each
/// list keeps the order.
pub proof fn what_was_not_cloned_is_written(
    entries: Seq<git::Entry>,
    wanted: Seq<int>,
    seeds: Set<Seq<Seq<u8>>>,
    i: int,
)
    ensures
        ({
            let cloned = seeds.contains(paths::components(entries[i].path));
            &&& seeding::select(wanted, unseeded(entries, seeds)).contains(i) <==> wanted.contains(
                i,
            ) && !cloned
            &&& seeding::select(wanted, written_by_git(entries, seeds)).contains(i)
                <==> wanted.contains(i) && !cloned && !entries[i].gitlink
            &&& seeding::select(wanted, is_gitlink(entries)).contains(i) <==> wanted.contains(i)
                && entries[i].gitlink
        }),
{
    seeding::lemma_select(wanted, unseeded(entries, seeds), i);
    seeding::lemma_select(wanted, written_by_git(entries, seeds), i);
    seeding::lemma_select(wanted, is_gitlink(entries), i);
}

/// The clones that count as intact are those at whose path the very file stands
/// that was made there.
pub proof fn intact_clones_are_those_made(
    owned: Map<Seq<Seq<u8>>, Identity>,
    seeds: Seq<Seq<u8>>,
    found: Seq<Option<Identity>>,
    n: int,
)
    requires
        0 <= n <= seeds.len(),
    ensures
        intact(owned, seeds, found, n) == worktree::positions(
            n,
            |i: int|
                i < found.len() && found[i] is Some && owned.contains_key(
                    paths::components(seeds[i]),
                ) && owned[paths::components(seeds[i])] == found[i]->0,
        ).len(),
    decreases n,
{
    if n > 0 {
        intact_clones_are_those_made(owned, seeds, found, n - 1);
    }
}

} // verus!
