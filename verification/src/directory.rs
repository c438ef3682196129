//! Cloning a whole directory.
//!
//! The directory is cloned under a private name, every file of the clone is
//! held against the tree, and only then does the clone take its name. Each
//! function here takes what one step found out and says what is to be done next.
use crate::bytes;
use crate::eligibility;
use crate::error::{Error, Failure};
use crate::fresh;
use crate::paths;
use crate::platform::Place;
use crate::receipt::Removal;
use crate::replace;
use vstd::prelude::*;

verus! {

/// What was seen of an open directory.
#[derive(Clone, Copy, Debug, PartialEq, Eq, Structural)]
pub struct DirectoryFacts {
    pub directory: bool,
    pub flags: u32,
    pub mode: u32,
}

/// What stands under a name.
#[derive(Clone, Copy, Debug, PartialEq, Eq, Structural)]
pub struct Named {
    pub directory: bool,
    pub place: Place,
}

/// How the clone call went.
#[derive(Debug)]
pub enum CloneTry {
    Made,
    /// The source is not there any more, or is no directory.
    Vanished,
    Failed(String),
}

/// What is to be done next about a directory.
#[derive(Debug)]
pub enum DirectoryStep {
    OpenSourceParent,
    OpenSource { name: Vec<u8> },
    InspectSource,
    OpenTargetParent,
    /// Find out whether the open target directory stands under its name.
    CheckParent,
    /// Clone the source under a private name.
    CloneDirectory,
    InspectClone,
    /// Hold the clone against the tree.
    Validate { clone: Place },
    /// Find out again whether the open target directory stands under its name.
    RecheckParent { clone: Place },
    /// Let the clone take its name, if nothing has it.
    Publish { clone: Place },
    CheckPublished { clone: Place },
    /// Remove the private clone, then fail where `then` says how.
    Remove { clone: Place, then: Option<Error> },
    /// The directory was cloned, or it was not.
    Finished(Result<bool, Error>),
}

/// What `DirectoryStep` says.
pub enum DirectoryPlan {
    OpenSourceParent,
    OpenSource(Seq<u8>),
    InspectSource,
    OpenTargetParent,
    CheckParent,
    CloneDirectory,
    InspectClone,
    Validate(Place),
    RecheckParent(Place),
    Publish(Place),
    CheckPublished(Place),
    Remove(Place, Option<Failure>),
    Finished(Result<bool, Failure>),
}

/// What a possible error says.
pub open spec fn optional_failure(error: Option<Error>) -> Option<Failure> {
    match error {
        Some(error) => Some(error@),
        None => None,
    }
}

impl View for DirectoryStep {
    type V = DirectoryPlan;

    open spec fn view(&self) -> DirectoryPlan {
        match *self {
            DirectoryStep::OpenSourceParent => DirectoryPlan::OpenSourceParent,
            DirectoryStep::OpenSource { name } => DirectoryPlan::OpenSource(name@),
            DirectoryStep::InspectSource => DirectoryPlan::InspectSource,
            DirectoryStep::OpenTargetParent => DirectoryPlan::OpenTargetParent,
            DirectoryStep::CheckParent => DirectoryPlan::CheckParent,
            DirectoryStep::CloneDirectory => DirectoryPlan::CloneDirectory,
            DirectoryStep::InspectClone => DirectoryPlan::InspectClone,
            DirectoryStep::Validate { clone } => DirectoryPlan::Validate(clone),
            DirectoryStep::RecheckParent { clone } => DirectoryPlan::RecheckParent(clone),
            DirectoryStep::Publish { clone } => DirectoryPlan::Publish(clone),
            DirectoryStep::CheckPublished { clone } => DirectoryPlan::CheckPublished(clone),
            DirectoryStep::Remove { clone, then } => DirectoryPlan::Remove(
                clone,
                optional_failure(then),
            ),
            DirectoryStep::Finished(result) => DirectoryPlan::Finished(
                replace::verified_view(result),
            ),
        }
    }
}

pub open spec fn plan_start(relative: Seq<u8>) -> DirectoryPlan {
    if paths::is_safe_relative(relative) {
        DirectoryPlan::OpenSourceParent
    } else {
        DirectoryPlan::Finished(Err(Failure::UnsafePath(relative)))
    }
}

/// The first step of cloning the directory at `relative`.
pub fn clone_directory_new(relative: &[u8]) -> (next: DirectoryStep)
    ensures
        next@ == plan_start(relative@),
{
    match eligibility::validate_relative(relative) {
        Ok(()) => DirectoryStep::OpenSourceParent,
        Err(error) => DirectoryStep::Finished(Err(error)),
    }
}

pub open spec fn plan_source_parent(relative: Seq<u8>, opened: bool) -> DirectoryPlan {
    if !opened {
        DirectoryPlan::Finished(Ok(false))
    } else {
        match paths::last_name(relative) {
            None => DirectoryPlan::Finished(Err(Failure::UnsafePath(relative))),
            Some(name) => if name.contains(0) {
                DirectoryPlan::Finished(Err(Failure::UnsafePath(name)))
            } else {
                DirectoryPlan::OpenSource(name)
            },
        }
    }
}

/// After the directory that holds the source was opened.
pub fn source_parent(relative: &[u8], opened: bool) -> (next: DirectoryStep)
    ensures
        next@ == plan_source_parent(relative@, opened),
{
    if !opened {
        return DirectoryStep::Finished(Ok(false));
    }
    match paths::file_name(relative) {
        None => DirectoryStep::Finished(Err(Error::UnsafePath(bytes::copy(relative)))),
        Some(name) => match fresh::check_name(name.as_slice()) {
            Ok(()) => DirectoryStep::OpenSource { name },
            Err(error) => DirectoryStep::Finished(Err(error)),
        },
    }
}

pub open spec fn plan_source_opened(opened: bool) -> DirectoryPlan {
    if opened {
        DirectoryPlan::InspectSource
    } else {
        DirectoryPlan::Finished(Ok(false))
    }
}

/// After the source was opened.
pub fn source_opened(opened: bool) -> (next: DirectoryStep)
    ensures
        next@ == plan_source_opened(opened),
{
    if opened {
        DirectoryStep::InspectSource
    } else {
        DirectoryStep::Finished(Ok(false))
    }
}

/// A directory that a checkout could have made.
pub open spec fn is_ordinary(facts: DirectoryFacts, ordinary: bool) -> bool {
    facts.directory && facts.flags == 0 && ordinary
}

pub open spec fn directory_look(facts: Result<DirectoryFacts, String>) -> Result<
    DirectoryFacts,
    Seq<char>,
> {
    match facts {
        Ok(facts) => Ok(facts),
        Err(text) => Err(text@),
    }
}

pub open spec fn plan_source_inspected(
    facts: Result<DirectoryFacts, Seq<char>>,
    ordinary: bool,
) -> DirectoryPlan {
    match facts {
        Err(text) => DirectoryPlan::Finished(Err(Failure::Io(text))),
        Ok(facts) => if is_ordinary(facts, ordinary) {
            DirectoryPlan::OpenTargetParent
        } else {
            DirectoryPlan::Finished(Ok(false))
        },
    }
}

/// After the open source was looked at.
pub fn source_inspected(facts: Result<DirectoryFacts, String>, ordinary: bool) -> (next:
    DirectoryStep)
    ensures
        next@ == plan_source_inspected(directory_look(facts), ordinary),
{
    match facts {
        Err(text) => DirectoryStep::Finished(Err(Error::Io(text))),
        Ok(facts) => {
            if facts.directory && facts.flags == 0 && ordinary {
                DirectoryStep::OpenTargetParent
            } else {
                DirectoryStep::Finished(Ok(false))
            }
        },
    }
}

pub open spec fn plan_target_parent(opened: Result<(), Failure>) -> DirectoryPlan {
    match opened {
        Err(failure) => DirectoryPlan::Finished(Err(failure)),
        Ok(()) => DirectoryPlan::CheckParent,
    }
}

/// After the directory that is to hold the clone was opened.
pub fn target_parent(opened: Result<(), Error>) -> (next: DirectoryStep)
    ensures
        next@ == plan_target_parent(fresh::opened_view(opened)),
{
    match opened {
        Err(error) => DirectoryStep::Finished(Err(error)),
        Ok(()) => DirectoryStep::CheckParent,
    }
}

pub open spec fn plan_parent_checked(relative: Seq<u8>, matches: bool) -> DirectoryPlan {
    if matches {
        DirectoryPlan::CloneDirectory
    } else {
        DirectoryPlan::Finished(Err(Failure::UnsafePath(relative)))
    }
}

/// After the open target directory was looked up by its name.
pub fn parent_checked(relative: &[u8], matches: bool) -> (next: DirectoryStep)
    ensures
        next@ == plan_parent_checked(relative@, matches),
{
    if matches {
        DirectoryStep::CloneDirectory
    } else {
        DirectoryStep::Finished(Err(Error::UnsafePath(bytes::copy(relative))))
    }
}

/// What the clone call came to.
pub enum Tried {
    Made,
    Vanished,
    Failed(Seq<char>),
}

impl View for CloneTry {
    type V = Tried;

    open spec fn view(&self) -> Tried {
        match *self {
            CloneTry::Made => Tried::Made,
            CloneTry::Vanished => Tried::Vanished,
            CloneTry::Failed(text) => Tried::Failed(text@),
        }
    }
}

pub open spec fn plan_cloned(relative: Seq<u8>, tried: Tried) -> DirectoryPlan {
    match tried {
        Tried::Made => DirectoryPlan::InspectClone,
        Tried::Vanished => DirectoryPlan::Finished(Ok(false)),
        Tried::Failed(text) => DirectoryPlan::Finished(
            Err(Failure::Clone { path: relative, source: text }),
        ),
    }
}

/// After the clone call.
pub fn directory_cloned(relative: &[u8], tried: CloneTry) -> (next: DirectoryStep)
    ensures
        next@ == plan_cloned(relative@, tried@),
{
    match tried {
        CloneTry::Made => DirectoryStep::InspectClone,
        CloneTry::Vanished => DirectoryStep::Finished(Ok(false)),
        CloneTry::Failed(source) => DirectoryStep::Finished(
            Err(Error::Clone { path: bytes::copy(relative), source }),
        ),
    }
}

pub open spec fn named_look(found: Result<Named, String>) -> Result<Named, Seq<char>> {
    match found {
        Ok(found) => Ok(found),
        Err(text) => Err(text@),
    }
}

pub open spec fn plan_clone_inspected(
    relative: Seq<u8>,
    found: Result<Named, Seq<char>>,
) -> DirectoryPlan {
    match found {
        Err(text) => DirectoryPlan::Finished(Err(Failure::Io(text))),
        Ok(found) => if found.directory {
            DirectoryPlan::Validate(found.place)
        } else {
            DirectoryPlan::Finished(Err(Failure::UnsafePath(relative)))
        },
    }
}

/// After the private clone was looked at.
pub fn clone_inspected(relative: &[u8], found: Result<Named, String>) -> (next: DirectoryStep)
    ensures
        next@ == plan_clone_inspected(relative@, named_look(found)),
{
    match found {
        Err(text) => DirectoryStep::Finished(Err(Error::Io(text))),
        Ok(found) => {
            if found.directory {
                DirectoryStep::Validate { clone: found.place }
            } else {
                DirectoryStep::Finished(Err(Error::UnsafePath(bytes::copy(relative))))
            }
        },
    }
}

pub open spec fn plan_validated(clone: Place, holds: Result<bool, Failure>) -> DirectoryPlan {
    match holds {
        Ok(true) => DirectoryPlan::RecheckParent(clone),
        Ok(false) => DirectoryPlan::Remove(clone, None),
        Err(failure) => DirectoryPlan::Remove(clone, Some(failure)),
    }
}

/// After the clone was held against the tree.
pub fn clone_validated(clone: Place, holds: Result<bool, Error>) -> (next: DirectoryStep)
    ensures
        next@ == plan_validated(clone, replace::verified_view(holds)),
{
    match holds {
        Ok(true) => DirectoryStep::RecheckParent { clone },
        Ok(false) => DirectoryStep::Remove { clone, then: None },
        Err(error) => DirectoryStep::Remove { clone, then: Some(error) },
    }
}

pub open spec fn plan_parent_rechecked(
    relative: Seq<u8>,
    clone: Place,
    matches: bool,
) -> DirectoryPlan {
    if matches {
        DirectoryPlan::Publish(clone)
    } else {
        DirectoryPlan::Finished(Err(Failure::UnsafePath(relative)))
    }
}

/// After the open target directory was looked up by its name again. Where it
/// does not stand there any more the clone is kept: what stands there now is
/// not to be touched.
pub fn parent_rechecked(relative: &[u8], clone: Place, matches: bool) -> (next: DirectoryStep)
    ensures
        next@ == plan_parent_rechecked(relative@, clone, matches),
{
    if matches {
        DirectoryStep::Publish { clone }
    } else {
        DirectoryStep::Finished(Err(Error::UnsafePath(bytes::copy(relative))))
    }
}

pub open spec fn plan_published(
    relative: Seq<u8>,
    clone: Place,
    done: Result<(), Seq<char>>,
) -> DirectoryPlan {
    match done {
        Ok(()) => DirectoryPlan::CheckPublished(clone),
        Err(text) => DirectoryPlan::Remove(
            clone,
            Some(Failure::Clone { path: relative, source: text }),
        ),
    }
}

/// After the clone was to take its name.
pub fn published(relative: &[u8], clone: Place, done: Result<(), String>) -> (next: DirectoryStep)
    ensures
        next@ == plan_published(relative@, clone, replace::attempt(done)),
{
    match done {
        Ok(()) => DirectoryStep::CheckPublished { clone },
        Err(source) => DirectoryStep::Remove {
            clone,
            then: Some(Error::Clone { path: bytes::copy(relative), source }),
        },
    }
}

pub open spec fn plan_published_checked(
    relative: Seq<u8>,
    clone: Place,
    found: Option<Named>,
) -> DirectoryPlan {
    if found == Some(Named { directory: true, place: clone }) {
        DirectoryPlan::Finished(Ok(true))
    } else {
        DirectoryPlan::Finished(Err(Failure::UnsafePath(relative)))
    }
}

/// After the published directory was looked at.
pub fn published_checked(relative: &[u8], clone: Place, found: Option<Named>) -> (next:
    DirectoryStep)
    ensures
        next@ == plan_published_checked(relative@, clone, found),
{
    if let Some(named) = found {
        if named.directory && named.place == clone {
            return DirectoryStep::Finished(Ok(true));
        }
    }
    DirectoryStep::Finished(Err(Error::UnsafePath(bytes::copy(relative))))
}

pub open spec fn plan_removed(
    after: Option<Failure>,
    removal: Result<(), Failure>,
) -> DirectoryPlan {
    match removal {
        Err(failure) => DirectoryPlan::Finished(Err(failure)),
        Ok(()) => match after {
            None => DirectoryPlan::Finished(Ok(false)),
            Some(failure) => DirectoryPlan::Finished(Err(failure)),
        },
    }
}

/// After the private clone was removed.
pub fn clone_removed(after: Option<Error>, removal: Result<(), Error>) -> (next: DirectoryStep)
    ensures
        next@ == plan_removed(optional_failure(after), fresh::opened_view(removal)),
{
    match removal {
        Err(error) => DirectoryStep::Finished(Err(error)),
        Ok(()) => match after {
            None => DirectoryStep::Finished(Ok(false)),
            Some(error) => DirectoryStep::Finished(Err(error)),
        },
    }
}

/// Whether an open directory stands under its name.
pub fn directory_path_matches(opened: Option<Place>, named: Option<Named>) -> (yes: bool)
    ensures
        yes == (opened is Some && named == Some(Named { directory: true, place: opened->0 })),
{
    match (opened, named) {
        (Some(opened), Some(named)) => named.directory && named.place == opened,
        _ => false,
    }
}

/// What stands under the private clone's name.
#[derive(Debug)]
pub enum Standing {
    Missing,
    Unknown(String),
    Present(Named),
}

/// Whether the private clone at `path` is there to be removed. Only the
/// directory that was cloned may be.
pub fn remove_private_clone(path: &[u8], standing: Standing, expected: Place) -> (result: Result<
    bool,
    Error,
>)
    ensures
        result is Ok <==> match standing {
            Standing::Missing => true,
            Standing::Unknown(_) => false,
            Standing::Present(named) => named == (Named { directory: true, place: expected }),
        },
        result matches Ok(remove) ==> remove == (standing is Present),
        result matches Err(error) ==> error@ == (match standing {
            Standing::Unknown(text) => Failure::Io(text@),
            _ => Failure::UnsafePath(path@),
        }),
{
    match standing {
        Standing::Missing => Ok(false),
        Standing::Unknown(text) => Err(Error::Io(text)),
        Standing::Present(named) => {
            if named.directory && named.place == expected {
                Ok(true)
            } else {
                Err(Error::UnsafePath(bytes::copy(path)))
            }
        },
    }
}

/// After the private clone was removed: that it was gone already is no error.
pub fn private_clone_removed(removal: Removal) -> (result: Result<(), Error>)
    ensures
        result is Ok <==> !(removal is Failed),
        result matches Err(error) ==> error@ == Failure::Io(removal->Failed_0@),
{
    match removal {
        Removal::Failed(text) => Err(Error::Io(text)),
        _ => Ok(()),
    }
}

/// All that cloning a directory can find out on its way.
pub struct DirectoryTrace {
    pub source_parent: bool,
    pub source_opened: bool,
    pub facts: Result<DirectoryFacts, Seq<char>>,
    pub ordinary: bool,
    pub target_parent: Result<(), Failure>,
    pub parent_matches: bool,
    pub tried: Tried,
    pub clone: Result<Named, Seq<char>>,
    pub holds: Result<bool, Failure>,
    pub parent_still_matches: bool,
    pub published: Result<(), Seq<char>>,
    pub found: Option<Named>,
    pub removal: Result<(), Failure>,
}

/// How cloning a directory ends.
pub struct DirectoryEnd {
    pub result: Result<bool, Failure>,
    /// The private clone that was held against the tree.
    pub validating: Option<Place>,
    /// The clone was to take its name.
    pub publishing: bool,
    /// The private clone that was to be removed.
    pub removing: Option<Place>,
}

/// Following the steps from `plan` on.
pub open spec fn directory_from(
    plan: DirectoryPlan,
    relative: Seq<u8>,
    trace: DirectoryTrace,
    validating: Option<Place>,
    publishing: bool,
    removing: Option<Place>,
    steps: nat,
) -> DirectoryEnd
    decreases steps,
{
    if steps == 0 {
        DirectoryEnd { result: Ok(false), validating, publishing, removing }
    } else {
        let rest = (steps - 1) as nat;
        match plan {
            DirectoryPlan::OpenSourceParent => directory_from(
                plan_source_parent(relative, trace.source_parent),
                relative,
                trace,
                validating,
                publishing,
                removing,
                rest,
            ),
            DirectoryPlan::OpenSource(_) => directory_from(
                plan_source_opened(trace.source_opened),
                relative,
                trace,
                validating,
                publishing,
                removing,
                rest,
            ),
            DirectoryPlan::InspectSource => directory_from(
                plan_source_inspected(trace.facts, trace.ordinary),
                relative,
                trace,
                validating,
                publishing,
                removing,
                rest,
            ),
            DirectoryPlan::OpenTargetParent => directory_from(
                plan_target_parent(trace.target_parent),
                relative,
                trace,
                validating,
                publishing,
                removing,
                rest,
            ),
            DirectoryPlan::CheckParent => directory_from(
                plan_parent_checked(relative, trace.parent_matches),
                relative,
                trace,
                validating,
                publishing,
                removing,
                rest,
            ),
            DirectoryPlan::CloneDirectory => directory_from(
                plan_cloned(relative, trace.tried),
                relative,
                trace,
                validating,
                publishing,
                removing,
                rest,
            ),
            DirectoryPlan::InspectClone => directory_from(
                plan_clone_inspected(relative, trace.clone),
                relative,
                trace,
                validating,
                publishing,
                removing,
                rest,
            ),
            DirectoryPlan::Validate(clone) => directory_from(
                plan_validated(clone, trace.holds),
                relative,
                trace,
                Some(clone),
                publishing,
                removing,
                rest,
            ),
            DirectoryPlan::RecheckParent(clone) => directory_from(
                plan_parent_rechecked(relative, clone, trace.parent_still_matches),
                relative,
                trace,
                validating,
                publishing,
                removing,
                rest,
            ),
            DirectoryPlan::Publish(clone) => directory_from(
                plan_published(relative, clone, trace.published),
                relative,
                trace,
                validating,
                true,
                removing,
                rest,
            ),
            DirectoryPlan::CheckPublished(clone) => directory_from(
                plan_published_checked(relative, clone, trace.found),
                relative,
                trace,
                validating,
                publishing,
                removing,
                rest,
            ),
            DirectoryPlan::Remove(clone, after) => directory_from(
                plan_removed(after, trace.removal),
                relative,
                trace,
                validating,
                publishing,
                Some(clone),
                rest,
            ),
            DirectoryPlan::Finished(result) => DirectoryEnd {
                result,
                validating,
                publishing,
                removing,
            },
        }
    }
}

/// The end that cloning a directory comes to. Thirteen steps are the longest way.
pub open spec fn directory_clone(relative: Seq<u8>, trace: DirectoryTrace) -> DirectoryEnd {
    directory_from(plan_start(relative), relative, trace, None, false, None, 13)
}

/// A clone takes its name only if every file of it was validated and its
/// directory stands under its name; it counts as cloned only if it then stands
/// under its name itself.
pub proof fn published_only_when_validated(relative: Seq<u8>, trace: DirectoryTrace)
    ensures
        ({
            let end = directory_clone(relative, trace);
            &&& end.publishing ==> trace.holds == Ok::<bool, Failure>(true) && trace.parent_matches
                && trace.parent_still_matches && paths::is_safe_relative(relative)
            &&& end.result == Ok::<bool, Failure>(true) ==> {
                &&& end.publishing && trace.published is Ok && end.removing is None
                &&& (trace.clone matches Ok(clone) && trace.found == Some(clone) && clone.directory)
            }
        }),
{
    reveal_with_fuel(directory_from, 14);
}

/// A clone that does not hold the tree, or could not take its name, is removed,
/// and nothing else is.
pub proof fn unpublished_clone_is_removed(relative: Seq<u8>, trace: DirectoryTrace)
    ensures
        ({
            let end = directory_clone(relative, trace);
            let refused = trace.holds != Ok::<bool, Failure>(true) || (end.publishing
                && trace.published is Err);
            &&& end.removing is Some ==> end.removing == end.validating
            &&& end.validating is Some && refused ==> end.removing == end.validating
        }),
{
    reveal_with_fuel(directory_from, 14);
}

/// The way of a directory's clone to its end: the first thing that stands against
/// it decides. With nothing against it the clone is published.
pub proof fn first_obstacle_decides_a_directory(relative: Seq<u8>, trace: DirectoryTrace)
    ensures
        directory_clone(relative, trace).result == ({
            let name = paths::last_name(relative);
            let facts = trace.facts->Ok_0;
            let unsafe_path = Err::<bool, Failure>(Failure::UnsafePath(relative));
            if !paths::is_safe_relative(relative) {
                unsafe_path
            } else if !trace.source_parent {
                Ok::<bool, Failure>(false)
            } else if name is None {
                unsafe_path
            } else if name->0.contains(0u8) {
                Err(Failure::UnsafePath(name->0))
            } else if !trace.source_opened {
                Ok(false)
            } else if trace.facts is Err {
                Err(Failure::Io(trace.facts->Err_0))
            } else if !facts.directory || facts.flags != 0 || !trace.ordinary {
                Ok(false)
            } else if trace.target_parent is Err {
                Err(trace.target_parent->Err_0)
            } else if !trace.parent_matches {
                unsafe_path
            } else if trace.tried is Vanished {
                Ok(false)
            } else if trace.tried is Failed {
                Err(Failure::Clone { path: relative, source: trace.tried->Failed_0 })
            } else if trace.clone is Err {
                Err(Failure::Io(trace.clone->Err_0))
            } else if !trace.clone->Ok_0.directory {
                unsafe_path
            } else if trace.holds != Ok::<bool, Failure>(true) {
                if trace.removal is Err {
                    Err(trace.removal->Err_0)
                } else {
                    trace.holds
                }
            } else if !trace.parent_still_matches {
                unsafe_path
            } else if trace.published is Err {
                if trace.removal is Err {
                    Err(trace.removal->Err_0)
                } else {
                    Err(Failure::Clone { path: relative, source: trace.published->Err_0 })
                }
            } else if trace.found is None || !trace.found->0.directory || trace.found->0.place
                != trace.clone->Ok_0.place {
                unsafe_path
            } else {
                Ok(true)
            }
        }),
{
    reveal_with_fuel(directory_from, 14);
}

} // verus!
