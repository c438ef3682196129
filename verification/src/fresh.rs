//! Cloning a file to a path where nothing is yet.
//!
//! The source is pinned by an open handle; its identity spans verification and
//! cloning. Each function here takes what one step found out and says what is
//! to be done next.
use crate::bytes;
use crate::eligibility;
use crate::error::{Error, Failure};
use crate::paths;
use crate::platform;
use crate::platform::{CloneOutcome, ClonePhase, Identity, Place};
use crate::replace;
use vstd::prelude::*;

verus! {

/// What was seen of an open file: whether it is a regular file, its file flags,
/// and its identity.
#[derive(Clone, Copy, Debug, PartialEq, Eq, Structural)]
pub struct OpenFacts {
    pub regular: bool,
    pub flags: u32,
    pub identity: Identity,
}

/// What is to be done next about a new clone.
#[derive(Debug)]
pub enum FreshStep {
    /// Open the directory of the source, without following links.
    OpenSourceParent,
    /// Open the source by its name there.
    OpenSource { name: Vec<u8> },
    /// Look at the open source and its attributes.
    InspectSource,
    /// Find out whether the open source holds the expected object.
    VerifyDonor { before: Identity },
    /// Look at the open source again.
    RecheckSource { before: Identity },
    /// Open the directory of the target, without following links.
    OpenTargetParent { before: Identity },
    /// Clone the open source into that directory.
    CloneFile { before: Identity },
    /// Open the clone and look at it.
    OpenClone { before: Identity },
    /// Look at the open source, and at what stands under both names.
    Validate { before: Identity, clone: Identity },
    /// Set the clone's permissions and times.
    Finalize { clone: Identity },
    /// The clone is done with. `discard` is the clone that is to be removed.
    Finished { result: Result<CloneOutcome, Error>, discard: Option<Identity> },
}

/// What `FreshStep` says.
pub enum FreshPlan {
    OpenSourceParent,
    OpenSource(Seq<u8>),
    InspectSource,
    VerifyDonor(Identity),
    RecheckSource(Identity),
    OpenTargetParent(Identity),
    CloneFile(Identity),
    OpenClone(Identity),
    Validate(Identity, Identity),
    Finalize(Identity),
    Finished(Result<CloneOutcome, Failure>, Option<Identity>),
}

impl View for FreshStep {
    type V = FreshPlan;

    open spec fn view(&self) -> FreshPlan {
        match *self {
            FreshStep::OpenSourceParent => FreshPlan::OpenSourceParent,
            FreshStep::OpenSource { name } => FreshPlan::OpenSource(name@),
            FreshStep::InspectSource => FreshPlan::InspectSource,
            FreshStep::VerifyDonor { before } => FreshPlan::VerifyDonor(before),
            FreshStep::RecheckSource { before } => FreshPlan::RecheckSource(before),
            FreshStep::OpenTargetParent { before } => FreshPlan::OpenTargetParent(before),
            FreshStep::CloneFile { before } => FreshPlan::CloneFile(before),
            FreshStep::OpenClone { before } => FreshPlan::OpenClone(before),
            FreshStep::Validate { before, clone } => FreshPlan::Validate(before, clone),
            FreshStep::Finalize { clone } => FreshPlan::Finalize(clone),
            FreshStep::Finished { result, discard } => FreshPlan::Finished(
                replace::outcome_view(result),
                discard,
            ),
        }
    }
}

/// The step whose time a step of a clone is counted for.
pub open spec fn measured(plan: FreshPlan) -> Option<ClonePhase> {
    match plan {
        FreshPlan::OpenSourceParent => Some(ClonePhase::SourceLookup),
        FreshPlan::OpenSource(_) => Some(ClonePhase::SourceLookup),
        FreshPlan::InspectSource => Some(ClonePhase::SourceMetadata),
        FreshPlan::VerifyDonor(_) => Some(ClonePhase::DonorVerification),
        FreshPlan::RecheckSource(_) => Some(ClonePhase::SourceStability),
        FreshPlan::OpenTargetParent(_) => Some(ClonePhase::TargetLookup),
        FreshPlan::CloneFile(_) => Some(ClonePhase::CloneFile),
        FreshPlan::OpenClone(_) => Some(ClonePhase::DestinationLookup),
        FreshPlan::Validate(_, _) => Some(ClonePhase::RaceValidation),
        FreshPlan::Finalize(_) => Some(ClonePhase::MetadataFinalization),
        FreshPlan::Finished(_, _) => None,
    }
}

impl FreshStep {
    /// What the time of this step is counted for.
    pub fn phase(&self) -> (phase: Option<ClonePhase>)
        ensures
            phase == measured(self@),
    {
        match self {
            FreshStep::OpenSourceParent => Some(ClonePhase::SourceLookup),
            FreshStep::OpenSource { .. } => Some(ClonePhase::SourceLookup),
            FreshStep::InspectSource => Some(ClonePhase::SourceMetadata),
            FreshStep::VerifyDonor { .. } => Some(ClonePhase::DonorVerification),
            FreshStep::RecheckSource { .. } => Some(ClonePhase::SourceStability),
            FreshStep::OpenTargetParent { .. } => Some(ClonePhase::TargetLookup),
            FreshStep::CloneFile { .. } => Some(ClonePhase::CloneFile),
            FreshStep::OpenClone { .. } => Some(ClonePhase::DestinationLookup),
            FreshStep::Validate { .. } => Some(ClonePhase::RaceValidation),
            FreshStep::Finalize { .. } => Some(ClonePhase::MetadataFinalization),
            FreshStep::Finished { .. } => None,
        }
    }
}

pub open spec fn not_regular() -> FreshPlan {
    FreshPlan::Finished(Ok(CloneOutcome::NotRegular), None)
}

fn skip() -> (next: FreshStep)
    ensures
        next@ == not_regular(),
{
    FreshStep::Finished { result: Ok(CloneOutcome::NotRegular), discard: None }
}

pub open spec fn failed(failure: Failure) -> FreshPlan {
    FreshPlan::Finished(Err(failure), None)
}

fn fail(error: Error) -> (next: FreshStep)
    ensures
        next@ == failed(error@),
{
    FreshStep::Finished { result: Err(error), discard: None }
}

pub open spec fn plan_start(relative: Seq<u8>) -> FreshPlan {
    if paths::is_safe_relative(relative) {
        FreshPlan::OpenSourceParent
    } else {
        failed(Failure::UnsafePath(relative))
    }
}

/// The first step of cloning the file at `relative`.
pub fn clone_new(relative: &[u8]) -> (next: FreshStep)
    ensures
        next@ == plan_start(relative@),
{
    match eligibility::validate_relative(relative) {
        Ok(()) => FreshStep::OpenSourceParent,
        Err(error) => fail(error),
    }
}

pub open spec fn plan_source_parent(relative: Seq<u8>, opened: bool) -> FreshPlan {
    match paths::last_name(relative) {
        _ if !opened => not_regular(),
        None => failed(Failure::UnsafePath(relative)),
        Some(name) => if name.contains(0) {
            failed(Failure::UnsafePath(name))
        } else {
            FreshPlan::OpenSource(name)
        },
    }
}

/// After the directory of the source was opened.
pub fn source_parent(relative: &[u8], opened: bool) -> (next: FreshStep)
    ensures
        next@ == plan_source_parent(relative@, opened),
{
    if !opened {
        return skip();
    }
    match paths::file_name(relative) {
        None => fail(Error::UnsafePath(bytes::copy(relative))),
        Some(name) => {
            if platform::holds_nul(name.as_slice()) {
                fail(Error::UnsafePath(name))
            } else {
                FreshStep::OpenSource { name }
            }
        },
    }
}

pub open spec fn plan_source_opened(opened: bool) -> FreshPlan {
    if opened {
        FreshPlan::InspectSource
    } else {
        not_regular()
    }
}

/// After the source was opened.
pub fn source_opened(opened: bool) -> (next: FreshStep)
    ensures
        next@ == plan_source_opened(opened),
{
    if opened {
        FreshStep::InspectSource
    } else {
        skip()
    }
}

/// What a look at an open file says.
pub open spec fn open_look(facts: Result<OpenFacts, String>) -> Result<OpenFacts, Seq<char>> {
    match facts {
        Ok(facts) => Ok(facts),
        Err(text) => Err(text@),
    }
}

pub open spec fn plan_source_inspected(
    facts: Result<OpenFacts, Seq<char>>,
    ordinary: bool,
) -> FreshPlan {
    match facts {
        Err(text) => failed(Failure::Io(text)),
        Ok(facts) => if facts.regular && facts.flags == 0 && ordinary {
            FreshPlan::VerifyDonor(facts.identity)
        } else {
            not_regular()
        },
    }
}

/// After the open source was looked at. A clone copies attributes and file
/// flags: a file that has any is left to Git.
pub fn source_inspected(facts: Result<OpenFacts, String>, ordinary: bool) -> (next: FreshStep)
    ensures
        next@ == plan_source_inspected(open_look(facts), ordinary),
{
    match facts {
        Err(text) => fail(Error::Io(text)),
        Ok(facts) => {
            if facts.regular && facts.flags == 0 && ordinary {
                FreshStep::VerifyDonor { before: facts.identity }
            } else {
                skip()
            }
        },
    }
}

pub open spec fn plan_verified(before: Identity, holds: Result<bool, Failure>) -> FreshPlan {
    match holds {
        Err(failure) => failed(failure),
        Ok(false) => not_regular(),
        Ok(true) => FreshPlan::RecheckSource(before),
    }
}

/// After the open source was held against the expected object.
pub fn donor_verified(before: Identity, holds: Result<bool, Error>) -> (next: FreshStep)
    ensures
        next@ == plan_verified(before, replace::verified_view(holds)),
{
    match holds {
        Err(error) => fail(error),
        Ok(false) => skip(),
        Ok(true) => FreshStep::RecheckSource { before },
    }
}

pub open spec fn plan_rechecked(before: Identity, after: Result<Identity, Seq<char>>) -> FreshPlan {
    match after {
        Err(text) => failed(Failure::Io(text)),
        Ok(identity) => if identity == before {
            FreshPlan::OpenTargetParent(before)
        } else {
            FreshPlan::Finished(Ok(CloneOutcome::ChangedDuringClone), None)
        },
    }
}

/// After the open source was looked at again.
pub fn source_rechecked(before: Identity, after: Result<Identity, String>) -> (next: FreshStep)
    ensures
        next@ == plan_rechecked(before, replace::look(after)),
{
    match after {
        Err(text) => fail(Error::Io(text)),
        Ok(identity) => {
            if identity == before {
                FreshStep::OpenTargetParent { before }
            } else {
                FreshStep::Finished { result: Ok(CloneOutcome::ChangedDuringClone), discard: None }
            }
        },
    }
}

/// What opening a directory came to.
pub open spec fn opened_view(opened: Result<(), Error>) -> Result<(), Failure> {
    match opened {
        Ok(()) => Ok(()),
        Err(error) => Err(error@),
    }
}

pub open spec fn plan_target_parent(before: Identity, opened: Result<(), Failure>) -> FreshPlan {
    match opened {
        Err(failure) => failed(failure),
        Ok(()) => FreshPlan::CloneFile(before),
    }
}

/// After the directory of the target was opened.
pub fn target_parent(before: Identity, opened: Result<(), Error>) -> (next: FreshStep)
    ensures
        next@ == plan_target_parent(before, opened_view(opened)),
{
    match opened {
        Err(error) => fail(error),
        Ok(()) => FreshStep::CloneFile { before },
    }
}

pub open spec fn plan_cloned(
    before: Identity,
    relative: Seq<u8>,
    done: Result<(), Seq<char>>,
) -> FreshPlan {
    match done {
        Err(text) => failed(Failure::Clone { path: relative, source: text }),
        Ok(()) => FreshPlan::OpenClone(before),
    }
}

/// After the source was cloned.
pub fn file_cloned(before: Identity, relative: &[u8], done: Result<(), String>) -> (next: FreshStep)
    ensures
        next@ == plan_cloned(before, relative@, replace::attempt(done)),
{
    match done {
        Err(source) => fail(Error::Clone { path: bytes::copy(relative), source }),
        Ok(()) => FreshStep::OpenClone { before },
    }
}

pub open spec fn plan_clone_opened(
    before: Identity,
    clone: Result<Identity, Seq<char>>,
) -> FreshPlan {
    match clone {
        Err(text) => failed(Failure::Io(text)),
        Ok(clone) => FreshPlan::Validate(before, clone),
    }
}

/// After the clone was opened and looked at.
pub fn clone_opened(before: Identity, clone: Result<Identity, String>) -> (next: FreshStep)
    ensures
        next@ == plan_clone_opened(before, replace::look(clone)),
{
    match clone {
        Err(text) => fail(Error::Io(text)),
        Ok(clone) => FreshStep::Validate { before, clone },
    }
}

pub open spec fn plan_validated(
    before: Identity,
    clone: Identity,
    relative: Seq<u8>,
    handle: Result<Identity, Seq<char>>,
    source_name: Option<Identity>,
    target_name: Option<Identity>,
) -> FreshPlan {
    match handle {
        Err(text) => FreshPlan::Finished(Err(Failure::Io(text)), Some(clone)),
        Ok(handle) => if handle != before || source_name != Some(before) {
            FreshPlan::Finished(Ok(CloneOutcome::ChangedDuringClone), Some(clone))
        } else if target_name != Some(clone) {
            FreshPlan::Finished(Err(Failure::UnsafePath(relative)), Some(clone))
        } else {
            FreshPlan::Finalize(clone)
        },
    }
}

/// After the clone was validated: `handle` is the open source, `source_name`
/// and `target_name` are what stands under the names of both. Looking the names
/// up from the roots detects ancestors that were renamed.
pub fn validated(
    before: Identity,
    clone: Identity,
    relative: &[u8],
    handle: Result<Identity, String>,
    source_name: Option<Identity>,
    target_name: Option<Identity>,
) -> (next: FreshStep)
    ensures
        next@ == plan_validated(
            before,
            clone,
            relative@,
            replace::look(handle),
            source_name,
            target_name,
        ),
{
    let handle = match handle {
        Err(text) => {
            return FreshStep::Finished { result: Err(Error::Io(text)), discard: Some(clone) };
        },
        Ok(handle) => handle,
    };
    let source_stands = match source_name {
        Some(found) => found == before,
        None => false,
    };
    if handle != before || !source_stands {
        return FreshStep::Finished {
            result: Ok(CloneOutcome::ChangedDuringClone),
            discard: Some(clone),
        };
    }
    let clone_stands = match target_name {
        Some(found) => found == clone,
        None => false,
    };
    if !clone_stands {
        return FreshStep::Finished {
            result: Err(Error::UnsafePath(bytes::copy(relative))),
            discard: Some(clone),
        };
    }
    FreshStep::Finalize { clone }
}

pub open spec fn plan_finalized(clone: Identity, done: Result<(), Seq<char>>) -> FreshPlan {
    match done {
        Err(text) => FreshPlan::Finished(Err(Failure::Io(text)), Some(clone)),
        Ok(()) => FreshPlan::Finished(Ok(CloneOutcome::Cloned), None),
    }
}

/// After the clone's permissions and times were set.
pub fn finalized(clone: Identity, done: Result<(), String>) -> (next: FreshStep)
    ensures
        next@ == plan_finalized(clone, replace::attempt(done)),
{
    match done {
        Err(text) => FreshStep::Finished { result: Err(Error::Io(text)), discard: Some(clone) },
        Ok(()) => FreshStep::Finished { result: Ok(CloneOutcome::Cloned), discard: None },
    }
}

/// Whether what stands under the clone's name is the clone: a file that another
/// process put there is not removed.
pub fn may_discard(found: Option<Place>, clone: Identity) -> (yes: bool)
    ensures
        yes == (found matches Some(place) && place.device == clone.device && place.inode
            == clone.inode),
{
    match found {
        Some(place) => place.device == clone.device && place.inode == clone.inode,
        None => false,
    }
}

/// All that a new clone can find out on its way.
pub struct FreshTrace {
    pub source_parent: bool,
    pub source_opened: bool,
    pub facts: Result<OpenFacts, Seq<char>>,
    pub ordinary: bool,
    pub holds: Result<bool, Failure>,
    pub rechecked: Result<Identity, Seq<char>>,
    pub target_parent: Result<(), Failure>,
    pub cloned: Result<(), Seq<char>>,
    pub clone: Result<Identity, Seq<char>>,
    pub handle: Result<Identity, Seq<char>>,
    pub source_name: Option<Identity>,
    pub target_name: Option<Identity>,
    pub finalized: Result<(), Seq<char>>,
}

/// How a new clone ends: its result, whether the clone call was made, and the
/// clone that is to be removed.
pub struct FreshEnd {
    pub result: Result<CloneOutcome, Failure>,
    pub called: bool,
    pub discard: Option<Identity>,
}

/// Following the steps from `plan` on.
pub open spec fn fresh_from(
    plan: FreshPlan,
    relative: Seq<u8>,
    trace: FreshTrace,
    called: bool,
    steps: nat,
) -> FreshEnd
    decreases steps,
{
    if steps == 0 {
        FreshEnd { result: Ok(CloneOutcome::NotRegular), called, discard: None }
    } else {
        let rest = (steps - 1) as nat;
        match plan {
            FreshPlan::OpenSourceParent => fresh_from(
                plan_source_parent(relative, trace.source_parent),
                relative,
                trace,
                called,
                rest,
            ),
            FreshPlan::OpenSource(_) => fresh_from(
                plan_source_opened(trace.source_opened),
                relative,
                trace,
                called,
                rest,
            ),
            FreshPlan::InspectSource => fresh_from(
                plan_source_inspected(trace.facts, trace.ordinary),
                relative,
                trace,
                called,
                rest,
            ),
            FreshPlan::VerifyDonor(before) => fresh_from(
                plan_verified(before, trace.holds),
                relative,
                trace,
                called,
                rest,
            ),
            FreshPlan::RecheckSource(before) => fresh_from(
                plan_rechecked(before, trace.rechecked),
                relative,
                trace,
                called,
                rest,
            ),
            FreshPlan::OpenTargetParent(before) => fresh_from(
                plan_target_parent(before, trace.target_parent),
                relative,
                trace,
                called,
                rest,
            ),
            FreshPlan::CloneFile(before) => fresh_from(
                plan_cloned(before, relative, trace.cloned),
                relative,
                trace,
                true,
                rest,
            ),
            FreshPlan::OpenClone(before) => fresh_from(
                plan_clone_opened(before, trace.clone),
                relative,
                trace,
                called,
                rest,
            ),
            FreshPlan::Validate(before, clone) => fresh_from(
                plan_validated(
                    before,
                    clone,
                    relative,
                    trace.handle,
                    trace.source_name,
                    trace.target_name,
                ),
                relative,
                trace,
                called,
                rest,
            ),
            FreshPlan::Finalize(clone) => fresh_from(
                plan_finalized(clone, trace.finalized),
                relative,
                trace,
                called,
                rest,
            ),
            FreshPlan::Finished(result, discard) => FreshEnd { result, called, discard },
        }
    }
}

/// The end that a new clone comes to. Eleven steps are the longest way.
pub open spec fn fresh_clone(relative: Seq<u8>, trace: FreshTrace) -> FreshEnd {
    fresh_from(plan_start(relative), relative, trace, false, 11)
}

/// A file counts as cloned only if its source is an ordinary regular file that
/// held the expected object and was, at every look, the file that was opened,
/// and if the clone stands under its name in the end.
pub proof fn cloned_only_when_stable(relative: Seq<u8>, trace: FreshTrace)
    requires
        fresh_clone(relative, trace).result == Ok::<CloneOutcome, Failure>(CloneOutcome::Cloned),
    ensures
        paths::is_safe_relative(relative),
        trace.holds == Ok::<bool, Failure>(true),
        trace.facts matches Ok(facts) && facts.regular && facts.flags == 0 && trace.ordinary
            && trace.rechecked == Ok::<Identity, Seq<char>>(facts.identity) && trace.handle
            == Ok::<Identity, Seq<char>>(facts.identity) && trace.source_name == Some(
            facts.identity,
        ),
        trace.clone matches Ok(clone) && trace.target_name == Some(clone),
        fresh_clone(relative, trace).discard is None,
{
    reveal_with_fuel(fresh_from, 12);
}

/// No clone is tried for an unsafe path, nor from a source that was not
/// verified or that changed while it was.
pub proof fn no_call_without_verification(relative: Seq<u8>, trace: FreshTrace)
    requires
        fresh_clone(relative, trace).called,
    ensures
        paths::is_safe_relative(relative),
        trace.holds == Ok::<bool, Failure>(true),
        trace.facts matches Ok(facts) && trace.rechecked == Ok::<Identity, Seq<char>>(
            facts.identity,
        ),
        trace.target_parent is Ok,
{
    reveal_with_fuel(fresh_from, 12);
}

/// Only the clone that this operation made is ever to be removed, and it is
/// unless it counts as cloned, as soon as it was seen.
pub proof fn unsuccessful_clone_is_removed(relative: Seq<u8>, trace: FreshTrace)
    ensures
        ({
            let end = fresh_clone(relative, trace);
            &&& end.discard is Some ==> end.called && trace.clone == Ok::<Identity, Seq<char>>(
                end.discard->0,
            )
            &&& end.called && trace.cloned is Ok && trace.clone is Ok && end.result != Ok::<
                CloneOutcome,
                Failure,
            >(CloneOutcome::Cloned) ==> end.discard is Some
        }),
{
    reveal_with_fuel(fresh_from, 12);
}

/// The directory that is held open for the next clone.
#[derive(Debug)]
pub struct ParentCache {
    pub root: Vec<u8>,
    pub relative: Vec<u8>,
    pub open: bool,
}

impl ParentCache {
    pub fn new() -> (cache: Self)
        ensures
            !cache.open,
    {
        ParentCache { root: Vec::new(), relative: Vec::new(), open: false }
    }

    /// The open directory is the one that holds `relative` below `root`.
    pub open spec fn holds(&self, root: Seq<u8>, relative: Seq<u8>) -> bool {
        &&& self.open
        &&& paths::components(self.root@) == paths::components(root)
        &&& paths::components(self.relative@) == paths::parent_components(relative)
    }

    /// Whether the directory of `relative` below `root` is held open.
    pub fn get(&self, root: &[u8], relative: &[u8]) -> (held: bool)
        requires
            !paths::is_absolute(relative@),
        ensures
            held == self.holds(root@, relative@),
    {
        if !self.open || !paths::same(self.root.as_slice(), root) {
            return false;
        }
        let parent = paths::parent(relative);
        paths::same(self.relative.as_slice(), parent.as_slice())
    }

    /// The directory of `relative` below `root` was opened.
    pub fn remember(&mut self, root: &[u8], relative: &[u8])
        requires
            !paths::is_absolute(relative@),
        ensures
            final(self).holds(root@, relative@),
    {
        self.root = bytes::copy(root);
        self.relative = paths::parent(relative);
        self.open = true;
    }
}

/// The directories that are held open: of the source and of the target.
#[derive(Debug)]
pub struct CloneDirectoryCache {
    pub source: ParentCache,
    pub target: ParentCache,
}

impl CloneDirectoryCache {
    pub fn new() -> (cache: Self)
        ensures
            !cache.source.open,
            !cache.target.open,
    {
        CloneDirectoryCache { source: ParentCache::new(), target: ParentCache::new() }
    }
}

/// The names to open one after another to reach a relative directory: its
/// components, but for a leading `.`.
pub open spec fn names_of(parts: Seq<Seq<u8>>) -> Seq<Seq<u8>>
    decreases parts.len(),
{
    if parts.len() == 0 {
        Seq::empty()
    } else if parts.last() == paths::current_component() {
        names_of(parts.drop_last())
    } else {
        names_of(parts.drop_last()).push(paths::component_text(parts.last()))
    }
}

/// The names by which the directory of `relative` is reached from its root,
/// each to be opened without following a link.
pub fn open_parent(directory: &[u8]) -> (list: Vec<Vec<u8>>)
    requires
        !paths::is_absolute(directory@),
    ensures
        bytes::views(list@) == names_of(paths::components(directory@)),
{
    proof {
        paths::components_of_relative(directory@);
    }
    let parts = paths::split_path(directory);
    let ghost all = paths::components(directory@);
    let mut list: Vec<Vec<u8>> = Vec::new();
    assert(all.take(0) =~= Seq::<Seq<u8>>::empty());
    assert(bytes::views(list@) =~= names_of(all.take(0)));
    for i in 0..parts.len()
        invariant
            all == bytes::views(parts@),
            paths::relative_components(all),
            bytes::views(list@) == names_of(all.take(i as int)),
    {
        assert(all.take(i + 1).drop_last() =~= all.take(i as int));
        assert(all.take(i + 1).last() == all[i as int]);
        assert(all[i as int] == parts@[i as int]@);
        let part = &parts[i];
        let current = part.len() == 1 && part[0] == 2;
        proof {
            if current {
                assert(part@ =~= paths::current_component());
            }
            assert(paths::current_component()[0] == 2);
        }
        if !current {
            let ghost before = bytes::views(list@);
            let name = paths::text_of_component(part);
            let ghost n = name@;
            list.push(name);
            assert(bytes::views(list@) =~= before.push(n));
        }
    }
    assert(all.take(all.len() as int) =~= all);
    list
}

/// Accepts a name that can be handed to the system.
pub fn check_name(name: &[u8]) -> (result: Result<(), Error>)
    ensures
        result is Ok <==> !name@.contains(0),
        result matches Err(error) ==> error@ == Failure::UnsafePath(name@),
{
    if platform::holds_nul(name) {
        Err(Error::UnsafePath(bytes::copy(name)))
    } else {
        Ok(())
    }
}

/// The way of a new clone to its end: the first thing that stands against it
/// decides. Without a parent or a source, or where the source is no ordinary
/// regular file or does not hold the object, there is nothing to clone; a source
/// that is another at a later look has changed; and what could not be done or
/// seen is an error. With nothing against it the file is cloned.
pub proof fn first_obstacle_decides_a_new_clone(relative: Seq<u8>, trace: FreshTrace)
    ensures
        fresh_clone(relative, trace).result == ({
            let name = paths::last_name(relative);
            if !paths::is_safe_relative(relative) {
                Err::<CloneOutcome, Failure>(Failure::UnsafePath(relative))
            } else if !trace.source_parent {
                Ok(CloneOutcome::NotRegular)
            } else if name is None {
                Err(Failure::UnsafePath(relative))
            } else if name->0.contains(0u8) {
                Err(Failure::UnsafePath(name->0))
            } else if !trace.source_opened {
                Ok(CloneOutcome::NotRegular)
            } else if trace.facts is Err {
                Err(Failure::Io(trace.facts->Err_0))
            } else if !trace.facts->Ok_0.regular || trace.facts->Ok_0.flags != 0
                || !trace.ordinary {
                Ok(CloneOutcome::NotRegular)
            } else if trace.holds is Err {
                Err(trace.holds->Err_0)
            } else if !trace.holds->Ok_0 {
                Ok(CloneOutcome::NotRegular)
            } else if trace.rechecked is Err {
                Err(Failure::Io(trace.rechecked->Err_0))
            } else if trace.rechecked->Ok_0 != trace.facts->Ok_0.identity {
                Ok(CloneOutcome::ChangedDuringClone)
            } else if trace.target_parent is Err {
                Err(trace.target_parent->Err_0)
            } else if trace.cloned is Err {
                Err(Failure::Clone { path: relative, source: trace.cloned->Err_0 })
            } else if trace.clone is Err {
                Err(Failure::Io(trace.clone->Err_0))
            } else if trace.handle is Err {
                Err(Failure::Io(trace.handle->Err_0))
            } else if trace.handle->Ok_0 != trace.facts->Ok_0.identity || trace.source_name is None
                || trace.source_name->0 != trace.facts->Ok_0.identity {
                Ok(CloneOutcome::ChangedDuringClone)
            } else if trace.target_name is None || trace.target_name->0 != trace.clone->Ok_0 {
                Err(Failure::UnsafePath(relative))
            } else if trace.finalized is Err {
                Err(Failure::Io(trace.finalized->Err_0))
            } else {
                Ok(CloneOutcome::Cloned)
            }
        }),
        fresh_clone(relative, trace).called <==> paths::is_safe_relative(relative)
            && trace.source_parent && paths::last_name(relative) is Some && !paths::last_name(
            relative,
        )->0.contains(0u8) && trace.source_opened && trace.facts is Ok
            && trace.facts->Ok_0.regular && trace.facts->Ok_0.flags == 0 && trace.ordinary
            && trace.holds == Ok::<bool, Failure>(true) && trace.rechecked == Ok::<
            Identity,
            Seq<char>,
        >(trace.facts->Ok_0.identity) && trace.target_parent is Ok,
{
    reveal_with_fuel(fresh_from, 12);
}

/// The directories on the way to a path are the names between its slashes, one
/// below the other.
pub proof fn directories_are_named_by_components(parts: Seq<Seq<u8>>, name: Seq<u8>)
    ensures
        names_of(parts.push(seq![4u8] + name)) == names_of(parts).push(name),
        names_of(parts.push(seq![2u8])) == names_of(parts),
        names_of(Seq::empty()) == Seq::<Seq<u8>>::empty(),
{
    let named = parts.push(seq![4u8] + name);
    assert(named.drop_last() =~= parts);
    assert((seq![4u8] + name)[0] == 4);
    assert((seq![4u8] + name).skip(1) =~= name);
    assert(seq![2u8][0] == 2);
    let here = parts.push(seq![2u8]);
    assert(here.drop_last() =~= parts);
}

/// Each kind of step counts for its own phase.
pub proof fn steps_are_measured_by_phase(before: Identity, clone: Identity, name: Seq<u8>)
    ensures
        measured(FreshPlan::OpenSourceParent) == Some(ClonePhase::SourceLookup),
        measured(FreshPlan::OpenSource(name)) == Some(ClonePhase::SourceLookup),
        measured(FreshPlan::InspectSource) == Some(ClonePhase::SourceMetadata),
        measured(FreshPlan::VerifyDonor(before)) == Some(ClonePhase::DonorVerification),
        measured(FreshPlan::RecheckSource(before)) == Some(ClonePhase::SourceStability),
        measured(FreshPlan::OpenTargetParent(before)) == Some(ClonePhase::TargetLookup),
        measured(FreshPlan::CloneFile(before)) == Some(ClonePhase::CloneFile),
        measured(FreshPlan::OpenClone(before)) == Some(ClonePhase::DestinationLookup),
        measured(FreshPlan::Validate(before, clone)) == Some(ClonePhase::RaceValidation),
        measured(FreshPlan::Finalize(clone)) == Some(ClonePhase::MetadataFinalization),
{
}

/// A directory that is held open serves just those paths that lie in it directly,
/// below the same root.
pub proof fn open_directories_serve_their_files(
    cache: ParentCache,
    root: Seq<u8>,
    directory: Seq<u8>,
    name: Seq<u8>,
)
    requires
        directory.len() > 0,
        name.len() > 0,
        !name.contains(47u8),
        name != seq![46u8],
    ensures
        cache.holds(root, directory + seq![47u8] + name) <==> cache.open && paths::components(
            cache.root@,
        ) == paths::components(root) && paths::components(cache.relative@) == paths::components(
            directory,
        ),
{
    paths::names_stand_behind_the_last_slash(directory, name);
}

} // verus!
