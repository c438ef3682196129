//! Replacing a file by a clone.
//!
//! The source and the target are looked at before the clone is made and again
//! before it takes the target's place. Each function here takes what one step
//! found out and says what is to be done next.
use crate::bytes;
use crate::error::{Error, Failure};
use crate::platform::{CloneOutcome, Identity};
use vstd::prelude::*;

verus! {

/// What was seen of a file.
#[derive(Clone, Copy, Debug, PartialEq, Eq, Structural)]
pub struct FileFacts {
    pub regular: bool,
    pub identity: Identity,
    pub mode: u32,
}

/// The source and the target before anything was done.
#[derive(Clone, Copy, Debug, PartialEq, Eq, Structural)]
pub struct Files {
    pub source: FileFacts,
    pub target: FileFacts,
}

/// What is to be done next about a replacement.
#[derive(Debug)]
pub enum ReplaceStep {
    /// Find out whether the source still holds the object that is expected.
    Verify(Files),
    /// Clone the source to a new file beside the target.
    Clone(Files),
    /// Look at the source again.
    InspectSource(Files),
    /// Give the clone these permissions.
    SetMode { files: Files, mode: u32 },
    /// Give the clone the times of the target.
    SetTimes(Files),
    /// Look at the target again.
    InspectTarget(Files),
    /// Let the clone take the target's place.
    Rename,
    /// The replacement is done with; the clone is to be removed where `discard` says so.
    Finished { result: Result<CloneOutcome, Error>, discard: bool },
}

/// What `ReplaceStep` says.
pub enum ReplacePlan {
    Verify(Files),
    Clone(Files),
    InspectSource(Files),
    SetMode(Files, u32),
    SetTimes(Files),
    InspectTarget(Files),
    Rename,
    Finished(Result<CloneOutcome, Failure>, bool),
}

/// What a result says.
pub open spec fn outcome_view(result: Result<CloneOutcome, Error>) -> Result<
    CloneOutcome,
    Failure,
> {
    match result {
        Ok(outcome) => Ok(outcome),
        Err(error) => Err(error@),
    }
}

impl View for ReplaceStep {
    type V = ReplacePlan;

    open spec fn view(&self) -> ReplacePlan {
        match *self {
            ReplaceStep::Verify(files) => ReplacePlan::Verify(files),
            ReplaceStep::Clone(files) => ReplacePlan::Clone(files),
            ReplaceStep::InspectSource(files) => ReplacePlan::InspectSource(files),
            ReplaceStep::SetMode { files, mode } => ReplacePlan::SetMode(files, mode),
            ReplaceStep::SetTimes(files) => ReplacePlan::SetTimes(files),
            ReplaceStep::InspectTarget(files) => ReplacePlan::InspectTarget(files),
            ReplaceStep::Rename => ReplacePlan::Rename,
            ReplaceStep::Finished { result, discard } => ReplacePlan::Finished(
                outcome_view(result),
                discard,
            ),
        }
    }
}

pub open spec fn plan_inspected(
    source: Option<FileFacts>,
    target: Option<FileFacts>,
) -> ReplacePlan {
    if source is Some && target is Some && source->0.regular && target->0.regular {
        ReplacePlan::Verify(Files { source: source->0, target: target->0 })
    } else {
        ReplacePlan::Finished(Ok(CloneOutcome::NotRegular), false)
    }
}

/// After both files were looked at: they have to be regular files.
pub fn inspected(source: Option<FileFacts>, target: Option<FileFacts>) -> (next: ReplaceStep)
    ensures
        next@ == plan_inspected(source, target),
{
    if let (Some(source), Some(target)) = (source, target) {
        if source.regular && target.regular {
            return ReplaceStep::Verify(Files { source, target });
        }
    }
    ReplaceStep::Finished { result: Ok(CloneOutcome::NotRegular), discard: false }
}

pub open spec fn plan_verified(files: Files, verified: Result<bool, Failure>) -> ReplacePlan {
    match verified {
        Ok(true) => ReplacePlan::Clone(files),
        Ok(false) => ReplacePlan::Finished(Ok(CloneOutcome::NotRegular), false),
        Err(failure) => ReplacePlan::Finished(Err(failure), false),
    }
}

pub open spec fn verified_view(verified: Result<bool, Error>) -> Result<bool, Failure> {
    match verified {
        Ok(yes) => Ok(yes),
        Err(error) => Err(error@),
    }
}

/// After the source was held against the expected object.
pub fn verified(files: Files, holds: Result<bool, Error>) -> (next: ReplaceStep)
    ensures
        next@ == plan_verified(files, verified_view(holds)),
{
    match holds {
        Ok(true) => ReplaceStep::Clone(files),
        Ok(false) => ReplaceStep::Finished { result: Ok(CloneOutcome::NotRegular), discard: false },
        Err(error) => ReplaceStep::Finished { result: Err(error), discard: false },
    }
}

/// What an attempt of the system says: nothing, or why it failed.
pub open spec fn attempt(done: Result<(), String>) -> Result<(), Seq<char>> {
    match done {
        Ok(()) => Ok(()),
        Err(text) => Err(text@),
    }
}

pub open spec fn plan_cloned(
    files: Files,
    relative: Seq<u8>,
    done: Result<(), Seq<char>>,
) -> ReplacePlan {
    match done {
        Ok(()) => ReplacePlan::InspectSource(files),
        Err(text) => ReplacePlan::Finished(
            Err(Failure::Clone { path: relative, source: text }),
            false,
        ),
    }
}

/// After the source was cloned.
pub fn cloned(files: Files, relative: &[u8], done: Result<(), String>) -> (next: ReplaceStep)
    ensures
        next@ == plan_cloned(files, relative@, attempt(done)),
{
    match done {
        Ok(()) => ReplaceStep::InspectSource(files),
        Err(source) => ReplaceStep::Finished {
            result: Err(Error::Clone { path: bytes::copy(relative), source }),
            discard: false,
        },
    }
}

/// The permission bits that a clone has to get: those of the target.
pub open spec fn wanted_mode(files: Files) -> u32 {
    files.target.mode & 0o7777
}

/// What a second look says.
pub open spec fn look(after: Result<Identity, String>) -> Result<Identity, Seq<char>> {
    match after {
        Ok(identity) => Ok(identity),
        Err(text) => Err(text@),
    }
}

pub open spec fn plan_source_checked(
    files: Files,
    after: Result<Identity, Seq<char>>,
) -> ReplacePlan {
    match after {
        Err(text) => ReplacePlan::Finished(Err(Failure::Io(text)), true),
        Ok(identity) => if identity != files.source.identity {
            ReplacePlan::Finished(Ok(CloneOutcome::ChangedDuringClone), true)
        } else if files.source.mode & 0o1777 != wanted_mode(files) {
            ReplacePlan::SetMode(files, wanted_mode(files))
        } else {
            ReplacePlan::SetTimes(files)
        },
    }
}

/// After the source was looked at again. The clone has the source's
/// permissions, without the set-ID bits; most often those are the wanted ones.
pub fn source_checked(files: Files, after: Result<Identity, String>) -> (next: ReplaceStep)
    ensures
        next@ == plan_source_checked(files, look(after)),
{
    match after {
        Err(text) => ReplaceStep::Finished { result: Err(Error::Io(text)), discard: true },
        Ok(identity) => {
            if identity != files.source.identity {
                return ReplaceStep::Finished {
                    result: Ok(CloneOutcome::ChangedDuringClone),
                    discard: true,
                };
            }
            let mode: u32 = files.target.mode & 0o7777;
            if files.source.mode & 0o1777 != mode {
                ReplaceStep::SetMode { files, mode }
            } else {
                ReplaceStep::SetTimes(files)
            }
        },
    }
}

pub open spec fn plan_mode_set(files: Files, done: Result<(), Seq<char>>) -> ReplacePlan {
    match done {
        Ok(()) => ReplacePlan::SetTimes(files),
        Err(text) => ReplacePlan::Finished(Err(Failure::Io(text)), true),
    }
}

/// After the clone's permissions were set.
pub fn mode_set(files: Files, done: Result<(), String>) -> (next: ReplaceStep)
    ensures
        next@ == plan_mode_set(files, attempt(done)),
{
    match done {
        Ok(()) => ReplaceStep::SetTimes(files),
        Err(text) => ReplaceStep::Finished { result: Err(Error::Io(text)), discard: true },
    }
}

pub open spec fn plan_times_set(files: Files, done: Result<(), Seq<char>>) -> ReplacePlan {
    match done {
        Ok(()) => ReplacePlan::InspectTarget(files),
        Err(text) => ReplacePlan::Finished(Err(Failure::Io(text)), true),
    }
}

/// After the clone's times were set.
pub fn times_set(files: Files, done: Result<(), String>) -> (next: ReplaceStep)
    ensures
        next@ == plan_times_set(files, attempt(done)),
{
    match done {
        Ok(()) => ReplaceStep::InspectTarget(files),
        Err(text) => ReplaceStep::Finished { result: Err(Error::Io(text)), discard: true },
    }
}

pub open spec fn plan_target_checked(
    files: Files,
    after: Result<Identity, Seq<char>>,
) -> ReplacePlan {
    match after {
        Err(text) => ReplacePlan::Finished(Err(Failure::Io(text)), true),
        Ok(identity) => if identity != files.target.identity {
            ReplacePlan::Finished(Ok(CloneOutcome::ChangedDuringClone), true)
        } else {
            ReplacePlan::Rename
        },
    }
}

/// After the target was looked at again.
pub fn target_checked(files: Files, after: Result<Identity, String>) -> (next: ReplaceStep)
    ensures
        next@ == plan_target_checked(files, look(after)),
{
    match after {
        Err(text) => ReplaceStep::Finished { result: Err(Error::Io(text)), discard: true },
        Ok(identity) => {
            if identity != files.target.identity {
                ReplaceStep::Finished { result: Ok(CloneOutcome::ChangedDuringClone), discard: true }
            } else {
                ReplaceStep::Rename
            }
        },
    }
}

pub open spec fn plan_renamed(done: Result<(), Seq<char>>) -> ReplacePlan {
    match done {
        Ok(()) => ReplacePlan::Finished(Ok(CloneOutcome::Cloned), false),
        Err(text) => ReplacePlan::Finished(Err(Failure::Io(text)), true),
    }
}

/// After the clone was to take the target's place.
pub fn renamed(done: Result<(), String>) -> (next: ReplaceStep)
    ensures
        next@ == plan_renamed(attempt(done)),
{
    match done {
        Ok(()) => ReplaceStep::Finished { result: Ok(CloneOutcome::Cloned), discard: false },
        Err(text) => ReplaceStep::Finished { result: Err(Error::Io(text)), discard: true },
    }
}

/// All that a replacement can find out on its way.
pub struct ReplaceTrace {
    pub source: Option<FileFacts>,
    pub target: Option<FileFacts>,
    pub verified: Result<bool, Failure>,
    pub cloned: Result<(), Seq<char>>,
    pub source_after: Result<Identity, Seq<char>>,
    pub mode_set: Result<(), Seq<char>>,
    pub times_set: Result<(), Seq<char>>,
    pub target_after: Result<Identity, Seq<char>>,
    pub renamed: Result<(), Seq<char>>,
}

/// How a replacement ends: its result, whether a clone was made, whether the
/// target's place was taken, and whether the clone is removed.
pub struct ReplaceEnd {
    pub result: Result<CloneOutcome, Failure>,
    pub made: bool,
    pub replaced: bool,
    pub discarded: bool,
}

/// Following the steps from `plan` on.
pub open spec fn replace_from(
    plan: ReplacePlan,
    relative: Seq<u8>,
    trace: ReplaceTrace,
    made: bool,
    replaced: bool,
    steps: nat,
) -> ReplaceEnd
    decreases steps,
{
    if steps == 0 {
        ReplaceEnd { result: Ok(CloneOutcome::NotRegular), made, replaced, discarded: false }
    } else {
        let rest = (steps - 1) as nat;
        match plan {
            ReplacePlan::Verify(files) => replace_from(
                plan_verified(files, trace.verified),
                relative,
                trace,
                made,
                replaced,
                rest,
            ),
            ReplacePlan::Clone(files) => replace_from(
                plan_cloned(files, relative, trace.cloned),
                relative,
                trace,
                trace.cloned is Ok,
                replaced,
                rest,
            ),
            ReplacePlan::InspectSource(files) => replace_from(
                plan_source_checked(files, trace.source_after),
                relative,
                trace,
                made,
                replaced,
                rest,
            ),
            ReplacePlan::SetMode(files, _) => replace_from(
                plan_mode_set(files, trace.mode_set),
                relative,
                trace,
                made,
                replaced,
                rest,
            ),
            ReplacePlan::SetTimes(files) => replace_from(
                plan_times_set(files, trace.times_set),
                relative,
                trace,
                made,
                replaced,
                rest,
            ),
            ReplacePlan::InspectTarget(files) => replace_from(
                plan_target_checked(files, trace.target_after),
                relative,
                trace,
                made,
                replaced,
                rest,
            ),
            ReplacePlan::Rename => replace_from(
                plan_renamed(trace.renamed),
                relative,
                trace,
                made,
                trace.renamed is Ok,
                rest,
            ),
            ReplacePlan::Finished(result, discard) => ReplaceEnd {
                result,
                made,
                replaced,
                discarded: discard,
            },
        }
    }
}

/// The end that a replacement comes to. Nine steps are the longest way.
pub open spec fn replacement(relative: Seq<u8>, trace: ReplaceTrace) -> ReplaceEnd {
    replace_from(
        plan_inspected(trace.source, trace.target),
        relative,
        trace,
        false,
        false,
        9,
    )
}

/// A target is replaced only by a clone of a regular source that holds the
/// expected object and did not change, and only if the target did not change
/// either; and that, and only that, counts as cloned.
pub proof fn replaced_only_when_unchanged(relative: Seq<u8>, trace: ReplaceTrace)
    ensures
        ({
            let end = replacement(relative, trace);
            &&& end.replaced <==> end.result == Ok::<CloneOutcome, Failure>(CloneOutcome::Cloned)
            &&& end.replaced ==> {
                &&& trace.verified == Ok::<bool, Failure>(true)
                &&& trace.source matches Some(source) && source.regular && trace.source_after
                    == Ok::<Identity, Seq<char>>(source.identity)
                &&& trace.target matches Some(target) && target.regular && trace.target_after
                    == Ok::<Identity, Seq<char>>(target.identity)
            }
        }),
{
    reveal_with_fuel(replace_from, 10);
}

/// A clone that was made either takes the target's place or is removed.
pub proof fn no_clone_is_left(relative: Seq<u8>, trace: ReplaceTrace)
    ensures
        ({
            let end = replacement(relative, trace);
            &&& end.made && !end.replaced ==> end.discarded
            &&& end.discarded ==> end.made && !end.replaced
        }),
{
    reveal_with_fuel(replace_from, 10);
}

/// A change of the source or of the target during the clone is no error: the
/// path is skipped, and the target stays as it is.
pub proof fn detected_race_skips(relative: Seq<u8>, trace: ReplaceTrace)
    requires
        trace.source matches Some(source) && source.regular,
        trace.target matches Some(target) && target.regular,
        trace.verified == Ok::<bool, Failure>(true),
        trace.cloned is Ok,
        trace.source_after is Ok,
        trace.source_after->Ok_0 != trace.source->0.identity || (trace.mode_set is Ok
            && trace.times_set is Ok && trace.target_after is Ok && trace.target_after->Ok_0
            != trace.target->0.identity),
    ensures
        replacement(relative, trace).result == Ok::<CloneOutcome, Failure>(
            CloneOutcome::ChangedDuringClone,
        ),
        !replacement(relative, trace).replaced,
        replacement(relative, trace).discarded,
{
    reveal_with_fuel(replace_from, 10);
}

/// The way of a replacement to its end: the first thing that stands against it
/// decides, and with nothing against it the target is replaced.
pub proof fn first_obstacle_decides_a_replacement(relative: Seq<u8>, trace: ReplaceTrace)
    ensures
        ({
            let set = trace.source->0.mode % 1024 != trace.target->0.mode % 4096;
            replacement(relative, trace).result == (if trace.source is None || trace.target is None
                || !trace.source->0.regular || !trace.target->0.regular {
                Ok::<CloneOutcome, Failure>(CloneOutcome::NotRegular)
            } else if trace.verified is Err {
                Err(trace.verified->Err_0)
            } else if !trace.verified->Ok_0 {
                Ok(CloneOutcome::NotRegular)
            } else if trace.cloned is Err {
                Err(Failure::Clone { path: relative, source: trace.cloned->Err_0 })
            } else if trace.source_after is Err {
                Err(Failure::Io(trace.source_after->Err_0))
            } else if trace.source_after->Ok_0 != trace.source->0.identity {
                Ok(CloneOutcome::ChangedDuringClone)
            } else if set && trace.mode_set is Err {
                Err(Failure::Io(trace.mode_set->Err_0))
            } else if trace.times_set is Err {
                Err(Failure::Io(trace.times_set->Err_0))
            } else if trace.target_after is Err {
                Err(Failure::Io(trace.target_after->Err_0))
            } else if trace.target_after->Ok_0 != trace.target->0.identity {
                Ok(CloneOutcome::ChangedDuringClone)
            } else if trace.renamed is Err {
                Err(Failure::Io(trace.renamed->Err_0))
            } else {
                Ok(CloneOutcome::Cloned)
            })
        }),
{
    if trace.source is Some && trace.target is Some {
        lemma_modes(trace.source->0.mode, trace.target->0.mode);
    }
    reveal_with_fuel(replace_from, 10);
}

proof fn lemma_modes(source: u32, target: u32)
    ensures
        source & 0o1777 == source % 1024,
        target & 0o7777 == target % 4096,
{
    assert(source & 0o1777 == source % 1024) by (bit_vector);
    assert(target & 0o7777 == target % 4096) by (bit_vector);
}

/// The clone gets the permissions of the target, the lowest twelve bits of its
/// mode, unless it has them from the source.
pub proof fn clones_get_the_mode_of_the_target(files: Files)
    ensures
        ({
            let next = plan_source_checked(files, Ok(files.source.identity));
            if files.source.mode % 1024 == files.target.mode % 4096 {
                next == ReplacePlan::SetTimes(files)
            } else {
                next == ReplacePlan::SetMode(files, (files.target.mode % 4096) as u32)
            }
        }),
{
    lemma_modes(files.source.mode, files.target.mode);
}

} // verus!
