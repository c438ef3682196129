//! Working through clone jobs, by one worker or by several.
use crate::error;
use crate::error::{Error, Failure};
use crate::order;
use crate::order::Rank;
use crate::plan;
use crate::plan::{CloneJob, Job};
use crate::platform::{CloneOutcome, ClonePlatform};
use crate::text;
use crate::tuning;
use crate::worktree;
use crate::worktree::{Registered, Worktree};
use vstd::prelude::*;
use vstd::string::*;

verus! {

/// The most workers that clone files at once.
pub const MAX_WORKERS: usize = 4;

/// How many files make another worker worth its start.
pub const FILES_PER_WORKER: usize = 256;

pub open spec fn greatest(a: int, b: int) -> int {
    if a >= b {
        a
    } else {
        b
    }
}

/// How many workers there may be, where `available` threads can run at once;
/// one is assumed where that is not known.
pub fn allowed_workers(available: Option<usize>) -> (workers: usize)
    ensures
        workers as int == tuning::least(
            match available {
                Some(n) => n as int,
                None => 1,
            },
            MAX_WORKERS as int,
        ),
        available is Some && available->0 >= 4 ==> workers == 4,
        available is Some && available->0 < 4 ==> workers == available->0,
        available is None ==> workers == 1,
{
    match available {
        Some(n) => {
            if n <= MAX_WORKERS {
                n
            } else {
                MAX_WORKERS
            }
        },
        None => 1,
    }
}

/// No more workers than are allowed, and one more for each so many files, but
/// at least one.
pub open spec fn workers_for(allowed: int, jobs: int) -> int {
    greatest(tuning::least(allowed, greatest(jobs / FILES_PER_WORKER as int, 1)), 1)
}

/// There are never more workers than four or than can run at once, and a small
/// worktree has one.
pub proof fn workers_are_bounded(available: int, jobs: int)
    requires
        available >= 1,
        jobs >= 0,
    ensures
        ({
            let workers = workers_for(tuning::least(available, MAX_WORKERS as int), jobs);
            &&& 1 <= workers <= 4
            &&& workers <= available
            &&& workers > 1 ==> workers * FILES_PER_WORKER <= jobs
        }),
{
}

/// How many jobs a worker gets: they are dealt out evenly.
pub open spec fn share(workers: int, jobs: int) -> int {
    greatest((jobs + workers - 1) / workers, 1)
}

/// The number of workers, and how many jobs each of them gets.
pub fn divide(allowed: usize, jobs: usize) -> (result: (usize, usize))
    ensures
        result.0 as int == workers_for(allowed as int, jobs as int),
        result.1 as int == share(result.0 as int, jobs as int),
        result.0 >= 1,
        result.1 >= 1,
{
    let needed: usize = if jobs / FILES_PER_WORKER >= 1 {
        jobs / FILES_PER_WORKER
    } else {
        1
    };
    let capped: usize = if allowed <= needed {
        allowed
    } else {
        needed
    };
    let workers: usize = if capped >= 1 {
        capped
    } else {
        1
    };
    let full: usize = jobs / workers;
    let rest: usize = jobs % workers;
    proof {
        let j = jobs as int;
        let w = workers as int;
        assert(j == w * (j / w) + j % w) by {
            vstd::arithmetic::div_mod::lemma_fundamental_div_mod(j, w);
        }
        vstd::arithmetic::div_mod::lemma_mod_bound(j, w);
        if rest == 0 {
            assert((j + w - 1) / w == j / w) by (nonlinear_arith)
                requires
                    j == w * (j / w),
                    w >= 1,
            ;
        } else {
            assert((j + w - 1) / w == j / w + 1) by (nonlinear_arith)
                requires
                    j == w * (j / w) + j % w,
                    1 <= j % w < w,
                    w >= 1,
            ;
        }
        assert(full <= jobs) by (nonlinear_arith)
            requires
                full as int == j / w,
                w >= 1,
                j >= 0,
                jobs as int == j,
        ;
        if rest != 0 && w == 1 {
            assert(j % 1 == 0);
        }
        assert(rest != 0 ==> full < jobs) by (nonlinear_arith)
            requires
                full as int == j / w,
                rest as int == j % w,
                j == w * (j / w) + j % w,
                w >= 1,
                j >= 0,
                jobs as int == j,
        ;
    }
    let exact: usize = if rest == 0 {
        full
    } else {
        full + 1
    };
    let size: usize = if exact >= 1 {
        exact
    } else {
        1
    };
    (workers, size)
}

/// The jobs of the chunk `k`: from the first, to the one behind the last.
pub open spec fn chunk_start(size: int, jobs: int, k: int) -> int {
    tuning::least(k * size, jobs)
}

/// Every job is in exactly one chunk, that of its number, and no more chunks
/// than workers are needed.
pub proof fn chunks_hold_every_job_once(allowed: int, jobs: int, job: int, k: int)
    requires
        0 <= job < jobs,
        0 <= allowed,
        0 <= k,
    ensures
        ({
            let workers = workers_for(allowed, jobs);
            let size = share(workers, jobs);
            &&& chunk_start(size, jobs, k) <= job < chunk_start(size, jobs, k + 1) <==> k == job
                / size
            &&& job / size < workers
        }),
{
    let workers = workers_for(allowed, jobs);
    let size = share(workers, jobs);
    assert(size >= 1 && workers >= 1);
    assert(workers * size >= jobs) by {
        let q = (jobs + workers - 1) / workers;
        assert(workers * q >= jobs) by (nonlinear_arith)
            requires
                q == (jobs + workers - 1) / workers,
                workers >= 1,
        ;
        assert(workers * size >= workers * q) by (nonlinear_arith)
            requires
                size >= q,
                workers >= 1,
        ;
    }
    let c = job / size;
    assert(c * size <= job < (c + 1) * size && c >= 0) by (nonlinear_arith)
        requires
            c == job / size,
            size >= 1,
            job >= 0,
    ;
    if c >= workers {
        assert(c * size >= workers * size) by (nonlinear_arith)
            requires
                c >= workers,
                size >= 1,
        ;
    }
    if k < c {
        assert((k + 1) * size <= c * size) by (nonlinear_arith)
            requires
                k + 1 <= c,
                size >= 1,
        ;
    }
    if k > c {
        assert(k * size >= (c + 1) * size) by (nonlinear_arith)
            requires
                k >= c + 1,
                size >= 1,
        ;
    }
}

/// The bounds of the chunk `k`.
pub fn chunk_bounds(size: usize, jobs: usize, k: usize) -> (bounds: (usize, usize))
    requires
        size >= 1,
    ensures
        bounds.0 as int == chunk_start(size as int, jobs as int, k as int),
        bounds.1 as int == chunk_start(size as int, jobs as int, k + 1),
        bounds.0 <= bounds.1 <= jobs,
{
    let whole: usize = jobs / size;
    proof {
        let j = jobs as int;
        let s = size as int;
        let w = whole as int;
        assert(w * s <= j < (w + 1) * s) by (nonlinear_arith)
            requires
                w == j / s,
                s >= 1,
                j >= 0,
        ;
        if k as int <= w {
            assert(k * s <= w * s) by (nonlinear_arith)
                requires
                    k <= w,
                    s >= 1,
            ;
        } else {
            assert(k * s >= (w + 1) * s) by (nonlinear_arith)
                requires
                    k >= w + 1,
                    s >= 1,
            ;
        }
        assert((k + 1) * s == k * s + s) by (nonlinear_arith);
    }
    let start: usize = if k <= whole {
        k * size
    } else {
        jobs
    };
    let end: usize = if jobs - start >= size {
        start + size
    } else {
        jobs
    };
    proof {
        let s = size as int;
        let j = jobs as int;
        assert((k + 1) * s == k * s + s) by (nonlinear_arith);
        if k > whole {
            assert((k + 1) * s >= j) by (nonlinear_arith)
                requires
                    k * s >= j,
                    s >= 1,
                    k >= 0,
            ;
        }
    }
    (start, end)
}

/// What a worker did: how many files it cloned, how many it had to skip, and
/// the commits that it cloned from, each once.
#[derive(Debug)]
pub struct Tally {
    pub cloned: u64,
    pub raced: u64,
    pub sources: Vec<String>,
}

/// What a tally says.
pub struct Count {
    pub cloned: int,
    pub raced: int,
    pub sources: Set<Seq<char>>,
}

impl View for Tally {
    type V = Count;

    open spec fn view(&self) -> Count {
        Count {
            cloned: self.cloned as int,
            raced: self.raced as int,
            sources: text::texts(self.sources@).to_set(),
        }
    }
}

impl Count {
    pub open spec fn zero() -> Count {
        Count { cloned: 0, raced: 0, sources: Set::empty() }
    }

    /// A file was cloned from a commit.
    pub open spec fn cloned_from(self, commit: Seq<char>) -> Count {
        Count { cloned: self.cloned + 1, sources: self.sources.insert(commit), ..self }
    }

    /// A file was skipped.
    pub open spec fn skipped(self) -> Count {
        Count { raced: self.raced + 1, ..self }
    }

    /// Both together.
    pub open spec fn plus(self, other: Count) -> Count {
        Count {
            cloned: self.cloned + other.cloned,
            raced: self.raced + other.raced,
            sources: self.sources.union(other.sources),
        }
    }

    /// How many files were dealt with.
    pub open spec fn files(self) -> int {
        self.cloned + self.raced
    }
}

/// No commit is listed twice.
pub open spec fn is_tally(tally: Tally) -> bool {
    text::texts(tally.sources@).no_duplicates()
}

fn lists(sources: &Vec<String>, commit: &str) -> (yes: bool)
    ensures
        yes == text::texts(sources@).contains(commit@),
{
    for i in 0..sources.len()
        invariant
            forall|j: int| 0 <= j < i ==> #[trigger] text::texts(sources@)[j] != commit@,
    {
        if text::same(sources[i].as_str(), commit) {
            assert(text::texts(sources@)[i as int] == commit@);
            return true;
        }
    }
    false
}

pub(crate) fn add_source(sources: &mut Vec<String>, commit: &str)
    requires
        text::texts(old(sources)@).no_duplicates(),
    ensures
        text::texts(final(sources)@).no_duplicates(),
        text::texts(final(sources)@).to_set() == text::texts(old(sources)@).to_set().insert(
            commit@,
        ),
{
    let ghost before = text::texts(sources@);
    if !lists(sources, commit) {
        let one = commit.to_owned();
        sources.push(one);
        let ghost after = text::texts(sources@);
        assert(after =~= before.push(commit@));
        assert(after.to_set() =~= before.to_set().insert(commit@)) by {
            assert forall|s: Seq<char>| #[trigger] after.contains(s) <==> (before.contains(s) || s
                == commit@) by {
                if before.contains(s) {
                    let k = choose|k: int| 0 <= k < before.len() && before[k] == s;
                    assert(after[k] == s);
                }
                if s == commit@ {
                    assert(after[before.len() as int] == s);
                }
            }
        }
    } else {
        assert(before.to_set() =~= before.to_set().insert(commit@));
    }
}

/// What an attempt on one donor comes to: another donor may be tried only where
/// this one had no regular file.
pub open spec fn attempted(count: Count, commit: Seq<char>, outcome: CloneOutcome) -> (
    Count,
    bool,
) {
    match outcome {
        CloneOutcome::Cloned => (count.cloned_from(commit), true),
        CloneOutcome::ChangedDuringClone => (count.skipped(), true),
        CloneOutcome::NotRegular => (count, false),
    }
}

impl Tally {
    pub fn new() -> (tally: Self)
        ensures
            tally@ == Count::zero(),
            is_tally(tally),
    {
        let tally = Tally { cloned: 0, raced: 0, sources: Vec::new() };
        assert(text::texts(tally.sources@) =~= Seq::<Seq<char>>::empty());
        assert(tally@.sources =~= Set::<Seq<char>>::empty());
        tally
    }

    /// Takes in what an attempt on one donor came to; says whether the file is
    /// dealt with.
    pub fn record(&mut self, commit: &str, outcome: CloneOutcome) -> (done: bool)
        requires
            is_tally(*old(self)),
            old(self)@.files() < u64::MAX,
        ensures
            is_tally(*final(self)),
            (final(self)@, done) == attempted(old(self)@, commit@, outcome),
    {
        match outcome {
            CloneOutcome::Cloned => {
                self.cloned = self.cloned + 1;
                add_source(&mut self.sources, commit);
                true
            },
            CloneOutcome::ChangedDuringClone => {
                self.raced = self.raced + 1;
                true
            },
            CloneOutcome::NotRegular => false,
        }
    }

    /// No donor had a regular file.
    pub fn skip(&mut self)
        requires
            is_tally(*old(self)),
            old(self)@.files() < u64::MAX,
        ensures
            is_tally(*final(self)),
            final(self)@ == old(self)@.skipped(),
    {
        self.raced = self.raced + 1;
    }
}

/// What a job comes to: the commit that it was cloned from, or nothing.
pub enum Ending {
    ClonedFrom(Seq<char>),
    Skipped,
}

/// The tally of jobs that came to these ends.
pub open spec fn tally_of(endings: Seq<Ending>) -> Count
    decreases endings.len(),
{
    if endings.len() == 0 {
        Count::zero()
    } else {
        match endings.last() {
            Ending::ClonedFrom(commit) => tally_of(endings.drop_last()).cloned_from(commit),
            Ending::Skipped => tally_of(endings.drop_last()).skipped(),
        }
    }
}

/// A job can end in a clone only from one of its donors.
pub open spec fn can_end(donors: Seq<Registered>, job: Job, ending: Ending) -> bool {
    match ending {
        Ending::ClonedFrom(commit) => exists|d: int|
            0 <= d < job.donors.len() && donors[#[trigger] job.donors[d]].head == commit,
        Ending::Skipped => true,
    }
}

/// What the platform said of an attempt.
pub open spec fn answer_view(answer: Result<CloneOutcome, Error>) -> Result<CloneOutcome, Failure> {
    match answer {
        Ok(outcome) => Ok(outcome),
        Err(error) => Err(error@),
    }
}

/// The platform was to replace the file at `path` of `target` by that of
/// `source`, as the job `number`, and gave this answer.
pub open spec fn was_tried<P: ClonePlatform>(
    platform: &P,
    source: Seq<u8>,
    target: Seq<u8>,
    path: Seq<u8>,
    oid: Seq<char>,
    number: u64,
    answer: Result<CloneOutcome, Error>,
) -> bool {
    exists|s: &[u8], t: &[u8], r: &[u8], o: &str|
        s@ == source && t@ == target && r@ == path && o@ == oid && #[trigger] call_ensures(
            P::clone_replacing,
            (platform, s, t, r, o, number),
            answer,
        )
}

/// The donors of the job `number` were tried in turn and gave these answers.
/// Another one was tried only where the one before had no regular file.
pub open spec fn were_tried<P: ClonePlatform>(
    platform: &P,
    donors: Seq<Registered>,
    target: Seq<u8>,
    job: Job,
    number: int,
    answers: Seq<Result<CloneOutcome, Error>>,
) -> bool {
    &&& answers.len() <= job.donors.len()
    &&& forall|d: int|
        0 <= d < answers.len() ==> was_tried(
            platform,
            donors[job.donors[d]].path,
            target,
            job.path,
            job.oid,
            number as u64,
            #[trigger] answers[d],
        )
    &&& forall|d: int|
        0 <= d < answers.len() - 1 ==> #[trigger] answers[d] == Ok::<CloneOutcome, Error>(
            CloneOutcome::NotRegular,
        )
    &&& answers.len() < job.donors.len() ==> answers.len() > 0 && answers.last() != Ok::<
        CloneOutcome,
        Error,
    >(CloneOutcome::NotRegular)
}

/// What the donors of a job came to, tried in turn from the one at `d` on: the
/// first that has a regular file settles the job, and an error ends the work.
/// `answers` are what the platform said of each.
pub open spec fn job_end(
    donors: Seq<Registered>,
    job: Job,
    answers: Seq<Result<CloneOutcome, Error>>,
    d: int,
) -> Result<Ending, Failure>
    decreases job.donors.len() - d,
{
    if d >= job.donors.len() {
        Ok(Ending::Skipped)
    } else {
        match answer_view(answers[d]) {
            Err(failure) => Err(failure),
            Ok(CloneOutcome::Cloned) => Ok(Ending::ClonedFrom(donors[job.donors[d]].head)),
            Ok(CloneOutcome::ChangedDuringClone) => Ok(Ending::Skipped),
            Ok(CloneOutcome::NotRegular) => job_end(donors, job, answers, d + 1),
        }
    }
}

/// What a worker met at a job: whether the work was stopped before it, and what
/// the platform said of the donors that were tried.
pub struct Trial {
    pub stopped: bool,
    pub answers: Seq<Result<CloneOutcome, Error>>,
}

/// How far a worker came, and what its jobs came to.
pub enum Progress {
    Going(Seq<Ending>),
    Stopped(Seq<Ending>),
    Failed(Failure),
}

/// What the jobs from `start` on came to, one for each trial.
pub open spec fn chunk_end(
    donors: Seq<Registered>,
    jobs: Seq<Job>,
    start: int,
    trials: Seq<Trial>,
) -> Progress
    decreases trials.len(),
{
    if trials.len() == 0 {
        Progress::Going(Seq::empty())
    } else {
        match chunk_end(donors, jobs, start, trials.drop_last()) {
            Progress::Going(endings) => if trials.last().stopped {
                Progress::Stopped(endings)
            } else {
                match job_end(donors, jobs[start + trials.len() - 1], trials.last().answers, 0) {
                    Ok(ending) => Progress::Going(endings.push(ending)),
                    Err(failure) => Progress::Failed(failure),
                }
            },
            other => other,
        }
    }
}

/// What a worker returns.
pub open spec fn chunk_result(progress: Progress) -> Result<Count, Failure> {
    match progress {
        Progress::Going(endings) => Ok(tally_of(endings)),
        Progress::Stopped(endings) => Ok(tally_of(endings)),
        Progress::Failed(failure) => Err(failure),
    }
}

/// The trials of a worker for `jobs` jobs: one for each, unless it ended early.
pub open spec fn is_run(progress: Progress, trials: Seq<Trial>, jobs: int) -> bool {
    &&& trials.len() <= jobs
    &&& progress is Going ==> trials.len() == jobs
}

/// The answers of these trials are those that the platform gave for the jobs
/// from `start` on.
pub open spec fn are_answers<P: ClonePlatform>(
    platform: &P,
    donors: Seq<Registered>,
    target: Seq<u8>,
    jobs: Seq<Job>,
    start: int,
    trials: Seq<Trial>,
) -> bool {
    forall|i: int|
        0 <= i < trials.len() ==> (#[trigger] trials[i]).stopped || were_tried(
            platform,
            donors,
            target,
            jobs[start + i],
            start + i,
            trials[i].answers,
        )
}

/// A worker's trials of the jobs from `start` to `end` come to this result: it
/// asked before each job whether to stop, and the platform about each donor.
pub open spec fn chunk_comes_to<P: ClonePlatform, S: Fn() -> bool>(
    platform: &P,
    stop: S,
    donors: Seq<Registered>,
    target: Seq<u8>,
    jobs: Seq<Job>,
    start: int,
    end: int,
    trials: Seq<Trial>,
    result: Result<Count, Failure>,
) -> bool {
    let progress = chunk_end(donors, jobs, start, trials);
    &&& is_run(progress, trials, end - start)
    &&& are_answers(platform, donors, target, jobs, start, trials)
    &&& forall|i: int|
        0 <= i < trials.len() ==> call_ensures(stop, (), (#[trigger] trials[i]).stopped)
    &&& result == chunk_result(progress)
}

/// A file is cloned only from one of the job's donors.
pub proof fn clones_come_from_donors(
    donors: Seq<Registered>,
    job: Job,
    answers: Seq<Result<CloneOutcome, Error>>,
    d: int,
)
    requires
        d >= 0,
    ensures
        job_end(donors, job, answers, d) matches Ok(ending) ==> can_end(donors, job, ending),
    decreases job.donors.len() - d,
{
    if d < job.donors.len() {
        assert(job.donors[d] == job.donors[d]);
        clones_come_from_donors(donors, job, answers, d + 1);
    }
}

proof fn lemma_job_end(
    donors: Seq<Registered>,
    job: Job,
    answers: Seq<Result<CloneOutcome, Error>>,
    i: int,
    d: int,
)
    requires
        0 <= i <= d <= job.donors.len(),
        forall|k: int| i <= k < d ==> #[trigger] answers[k] == Ok::<CloneOutcome, Error>(
            CloneOutcome::NotRegular,
        ),
    ensures
        job_end(donors, job, answers, i) == job_end(donors, job, answers, d),
    decreases d - i,
{
    if i < d {
        assert(answers[i] == Ok::<CloneOutcome, Error>(CloneOutcome::NotRegular));
        lemma_job_end(donors, job, answers, i + 1, d);
    }
}

proof fn lemma_chunk_files(donors: Seq<Registered>, jobs: Seq<Job>, start: int, trials: Seq<Trial>)
    ensures
        chunk_end(donors, jobs, start, trials) matches Progress::Going(endings) ==> endings.len()
            == trials.len(),
        chunk_end(donors, jobs, start, trials) matches Progress::Stopped(endings)
            ==> endings.len() <= trials.len(),
        chunk_end(donors, jobs, start, trials) is Stopped ==> exists|i: int|
            0 <= i < trials.len() && (#[trigger] trials[i]).stopped,
    decreases trials.len(),
{
    if trials.len() > 0 {
        let init = trials.drop_last();
        lemma_chunk_files(donors, jobs, start, init);
        if chunk_end(donors, jobs, start, init) is Stopped {
            let i = choose|i: int| 0 <= i < init.len() && (#[trigger] init[i]).stopped;
            assert(trials[i] == init[i]);
        } else {
            assert(trials[trials.len() - 1] == trials.last());
        }
    }
}

/// The tallies of two workers together are the tally of all their jobs.
pub proof fn tallies_add_up(a: Seq<Ending>, b: Seq<Ending>)
    ensures
        tally_of(a + b) == tally_of(a).plus(tally_of(b)),
    decreases b.len(),
{
    if b.len() == 0 {
        assert(a + b =~= a);
        assert(tally_of(a).sources.union(Set::empty()) =~= tally_of(a).sources);
    } else {
        tallies_add_up(a, b.drop_last());
        assert((a + b).drop_last() =~= a + b.drop_last());
        assert((a + b).last() == b.last());
        if let Ending::ClonedFrom(commit) = b.last() {
            let left = tally_of(a).sources;
            let right = tally_of(b.drop_last()).sources;
            assert(left.union(right).insert(commit) =~= left.union(right.insert(commit)));
        }
    }
}

pub proof fn lemma_tally_files(endings: Seq<Ending>)
    ensures
        tally_of(endings).files() == endings.len(),
        tally_of(endings).cloned >= 0,
        tally_of(endings).raced >= 0,
    decreases endings.len(),
{
    if endings.len() > 0 {
        lemma_tally_files(endings.drop_last());
    }
}

/// A count with one more job that came to this end.
pub open spec fn with_ending(count: Count, ending: Ending) -> Count {
    match ending {
        Ending::ClonedFrom(commit) => count.cloned_from(commit),
        Ending::Skipped => count.skipped(),
    }
}

/// The answers that the platform gave for a job come to this end.
pub open spec fn job_comes_to<P: ClonePlatform>(
    platform: &P,
    donors: Seq<Registered>,
    target: Seq<u8>,
    job: Job,
    number: int,
    answers: Seq<Result<CloneOutcome, Error>>,
    end: Result<Ending, Failure>,
) -> bool {
    &&& were_tried(platform, donors, target, job, number, answers)
    &&& job_end(donors, job, answers, 0) == end
}

/// Works on one job: each of its donors is tried in turn until one settles it.
/// What the platform answered decides.
pub fn clone_job<P: ClonePlatform>(
    platform: &P,
    target: &[u8],
    donors: &Vec<Worktree>,
    job: &CloneJob,
    number: u64,
    tally: &mut Tally,
) -> (result: Result<(), Error>)
    requires
        is_tally(*old(tally)),
        old(tally)@.files() < u64::MAX,
        forall|d: int| 0 <= d < job.donors@.len() ==> #[trigger] job.donors@[d] < donors@.len(),
    ensures
        is_tally(*final(tally)),
        exists|answers: Seq<Result<CloneOutcome, Error>>, end: Result<Ending, Failure>|
            {
                &&& #[trigger] job_comes_to(
                    platform,
                    worktree::registered(donors@),
                    target@,
                    job@,
                    number as int,
                    answers,
                    end,
                )
                &&& result is Ok <==> end is Ok
                &&& result matches Err(error) ==> end == Err::<Ending, Failure>(error@)
                &&& final(tally)@ == (match end {
                    Ok(ending) => with_ending(old(tally)@, ending),
                    Err(_) => old(tally)@,
                })
            },
{
    let ghost heads = worktree::registered(donors@);
    let ghost before = tally@;
    let ghost mut answers: Seq<Result<CloneOutcome, Error>> = Seq::empty();
    for d in 0..job.donors.len()
        invariant
            job@.donors.len() == job.donors@.len(),
            forall|d: int| 0 <= d < job.donors@.len() ==> #[trigger] job.donors@[d] < donors@.len(),
            heads == worktree::registered(donors@),
            is_tally(*tally),
            tally@ == before,
            before == old(tally)@,
            before.files() < u64::MAX,
            answers.len() == d,
            forall|k: int|
                0 <= k < d ==> #[trigger] answers[k] == Ok::<CloneOutcome, Error>(
                    CloneOutcome::NotRegular,
                ),
            forall|k: int|
                0 <= k < d ==> was_tried(
                    platform,
                    heads[job@.donors[k]].path,
                    target@,
                    job@.path,
                    job@.oid,
                    number,
                    #[trigger] answers[k],
                ),
    {
        let donor = &donors[job.donors[d]];
        assert(job@.donors[d as int] == job.donors@[d as int] as int);
        assert(heads[job@.donors[d as int]] == donor@);
        let answer = platform.clone_replacing(
            donor.path.as_slice(),
            target,
            job.path.as_slice(),
            job.oid.as_str(),
            number,
        );
        proof {
            let earlier = answers;
            answers = earlier.push(answer);
            assert(was_tried(
                platform,
                donor@.path,
                target@,
                job@.path,
                job@.oid,
                number,
                answers[d as int],
            ));
            assert forall|k: int| 0 <= k < d implies #[trigger] answers[k] == Ok::<
                CloneOutcome,
                Error,
            >(CloneOutcome::NotRegular) by {
                assert(answers[k] == earlier[k]);
            }
            assert forall|k: int| 0 <= k < answers.len() implies was_tried(
                platform,
                heads[job@.donors[k]].path,
                target@,
                job@.path,
                job@.oid,
                number,
                #[trigger] answers[k],
            ) by {
                if k < d {
                    assert(answers[k] == earlier[k]);
                }
            }
            lemma_job_end(heads, job@, answers, 0, d as int);
        }
        match answer {
            Ok(outcome) => {
                if tally.record(donor.head.as_str(), outcome) {
                    assert(job_comes_to(
                        platform,
                        heads,
                        target@,
                        job@,
                        number as int,
                        answers,
                        job_end(heads, job@, answers, 0),
                    ));
                    return Ok(());
                }
            },
            Err(error) => {
                assert(job_comes_to(
                    platform,
                    heads,
                    target@,
                    job@,
                    number as int,
                    answers,
                    Err(error@),
                ));
                return Err(error);
            },
        }
    }
    proof {
        lemma_job_end(heads, job@, answers, 0, job@.donors.len() as int);
        assert(job_comes_to(
            platform,
            heads,
            target@,
            job@,
            number as int,
            answers,
            Ok(Ending::Skipped),
        ));
    }
    tally.skip();
    Ok(())
}

/// Works through the jobs from `start` to `end`. Before each of them `stop` is
/// asked whether the work is to end, as it is where another worker failed. What
/// `stop` and the platform answered decides, and nothing else: the result is
/// what those answers come to.
pub fn clone_chunk<P: ClonePlatform, S: Fn() -> bool>(
    platform: &P,
    target: &[u8],
    donors: &Vec<Worktree>,
    jobs: &Vec<CloneJob>,
    start: usize,
    end: usize,
    stop: S,
) -> (result: Result<Tally, Error>)
    requires
        start <= end <= jobs@.len(),
        jobs@.len() < u64::MAX,
        forall|j: int, d: int|
            0 <= j < jobs@.len() && 0 <= d < jobs@[j].donors@.len() ==> #[trigger] jobs@[j].donors@[d]
                < donors@.len(),
        call_requires(stop, ()),
    ensures
        result matches Ok(tally) ==> is_tally(tally),
        exists|trials: Seq<Trial>| #[trigger]
            chunk_comes_to(
                platform,
                stop,
                worktree::registered(donors@),
                target@,
                plan::jobs_view(jobs@),
                start as int,
                end as int,
                trials,
                result_view(result),
            ),
{
    let mut tally = Tally::new();
    let ghost heads = worktree::registered(donors@);
    let ghost all = plan::jobs_view(jobs@);
    let ghost mut trials: Seq<Trial> = Seq::empty();
    let ghost mut endings: Seq<Ending> = Seq::empty();
    for index in start..end
        invariant
            start <= end <= jobs@.len(),
            jobs@.len() < u64::MAX,
            forall|j: int, d: int|
                0 <= j < jobs@.len() && 0 <= d < jobs@[j].donors@.len()
                    ==> #[trigger] jobs@[j].donors@[d] < donors@.len(),
            call_requires(stop, ()),
            heads == worktree::registered(donors@),
            all == plan::jobs_view(jobs@),
            is_tally(tally),
            trials.len() == index - start,
            endings.len() == index - start,
            chunk_end(heads, all, start as int, trials) == Progress::Going(endings),
            are_answers(platform, heads, target@, all, start as int, trials),
            forall|i: int|
                0 <= i < trials.len() ==> call_ensures(stop, (), (#[trigger] trials[i]).stopped),
            tally@ == tally_of(endings),
    {
        proof {
            lemma_tally_files(endings);
        }
        let stopped = stop();
        if stopped {
            proof {
                let trial = Trial { stopped, answers: Seq::empty() };
                lemma_next_trial(platform, stop, heads, target@, all, start as int, trials, trial);
                assert(chunk_comes_to(
                    platform,
                    stop,
                    heads,
                    target@,
                    all,
                    start as int,
                    end as int,
                    trials.push(trial),
                    Ok(tally@),
                ));
            }
            return Ok(tally);
        }
        assert(all[index as int] == jobs@[index as int]@);
        match clone_job(platform, target, donors, &jobs[index], index as u64, &mut tally) {
            Ok(()) => {
                proof {
                    let (answers, ending) = choose|
                        answers: Seq<Result<CloneOutcome, Error>>,
                        ending: Result<Ending, Failure>,
                    |
                        {
                            &&& #[trigger] job_comes_to(
                                platform,
                                heads,
                                target@,
                                all[index as int],
                                index as int,
                                answers,
                                ending,
                            )
                            &&& ending is Ok
                            &&& tally@ == with_ending(tally_of(endings), ending->Ok_0)
                        };
                    let trial = Trial { stopped, answers };
                    lemma_next_trial(
                        platform,
                        stop,
                        heads,
                        target@,
                        all,
                        start as int,
                        trials,
                        trial,
                    );
                    let grown = endings.push(ending->Ok_0);
                    assert(grown.drop_last() =~= endings);
                    trials = trials.push(trial);
                    endings = grown;
                }
            },
            Err(error) => {
                proof {
                    let (answers, ending) = choose|
                        answers: Seq<Result<CloneOutcome, Error>>,
                        ending: Result<Ending, Failure>,
                    |
                        {
                            &&& #[trigger] job_comes_to(
                                platform,
                                heads,
                                target@,
                                all[index as int],
                                index as int,
                                answers,
                                ending,
                            )
                            &&& ending == Err::<Ending, Failure>(error@)
                        };
                    let trial = Trial { stopped, answers };
                    lemma_next_trial(
                        platform,
                        stop,
                        heads,
                        target@,
                        all,
                        start as int,
                        trials,
                        trial,
                    );
                    assert(chunk_comes_to(
                        platform,
                        stop,
                        heads,
                        target@,
                        all,
                        start as int,
                        end as int,
                        trials.push(trial),
                        Err(error@),
                    ));
                }
                return Err(error);
            },
        }
    }
    assert(chunk_comes_to(
        platform,
        stop,
        heads,
        target@,
        all,
        start as int,
        end as int,
        trials,
        Ok(tally@),
    ));
    Ok(tally)
}

proof fn lemma_next_trial<P: ClonePlatform, S: Fn() -> bool>(
    platform: &P,
    stop: S,
    donors: Seq<Registered>,
    target: Seq<u8>,
    jobs: Seq<Job>,
    start: int,
    trials: Seq<Trial>,
    trial: Trial,
)
    requires
        are_answers(platform, donors, target, jobs, start, trials),
        forall|i: int|
            0 <= i < trials.len() ==> call_ensures(stop, (), (#[trigger] trials[i]).stopped),
        call_ensures(stop, (), trial.stopped),
        trial.stopped || were_tried(
            platform,
            donors,
            target,
            jobs[start + trials.len()],
            start + trials.len(),
            trial.answers,
        ),
    ensures
        trials.push(trial).drop_last() == trials,
        are_answers(platform, donors, target, jobs, start, trials.push(trial)),
        forall|i: int|
            0 <= i < trials.len() + 1 ==> call_ensures(
                stop,
                (),
                (#[trigger] trials.push(trial)[i]).stopped,
            ),
{
    let grown = trials.push(trial);
    assert(grown.drop_last() =~= trials);
    assert forall|i: int| 0 <= i < grown.len() implies (#[trigger] grown[i]).stopped || were_tried(
        platform,
        donors,
        target,
        jobs[start + i],
        start + i,
        grown[i].answers,
    ) by {
        if i < trials.len() {
            assert(grown[i] == trials[i]);
        }
    }
    assert forall|i: int| 0 <= i < grown.len() implies call_ensures(
        stop,
        (),
        (#[trigger] grown[i]).stopped,
    ) by {
        if i < trials.len() {
            assert(grown[i] == trials[i]);
        }
    }
}

/// What a worker's result says.
pub open spec fn result_view(result: Result<Tally, Error>) -> Result<Count, Failure> {
    match result {
        Ok(tally) => Ok(tally@),
        Err(error) => Err(error@),
    }
}

/// What the results of all workers say.
pub open spec fn results_view(results: Seq<Result<Tally, Error>>) -> Seq<Result<Count, Failure>> {
    Seq::new(results.len(), |i: int| result_view(results[i]))
}

/// The sum of the tallies of those workers that did not fail.
pub open spec fn sum(results: Seq<Result<Count, Failure>>) -> Count
    decreases results.len(),
{
    if results.len() == 0 {
        Count::zero()
    } else {
        match results.last() {
            Ok(count) => sum(results.drop_last()).plus(count),
            Err(_) => sum(results.drop_last()),
        }
    }
}

/// The error of the first worker that failed.
pub open spec fn first_failure(results: Seq<Result<Count, Failure>>) -> Option<Failure>
    decreases results.len(),
{
    if results.len() == 0 {
        None
    } else {
        match first_failure(results.drop_last()) {
            Some(failure) => Some(failure),
            None => match results.last() {
                Ok(_) => None,
                Err(failure) => Some(failure),
            },
        }
    }
}

proof fn lemma_sum_grows(results: Seq<Result<Count, Failure>>, n: int)
    requires
        0 <= n <= results.len(),
        forall|i: int|
            0 <= i < results.len() ==> (#[trigger] results[i] matches Ok(count) ==> count.cloned >= 0
                && count.raced >= 0),
    ensures
        0 <= sum(results.take(n)).cloned <= sum(results).cloned,
        0 <= sum(results.take(n)).raced <= sum(results).raced,
    decreases results.len(),
{
    if n < results.len() {
        let init = results.drop_last();
        assert forall|i: int| 0 <= i < init.len() implies (#[trigger] init[i] matches Ok(count)
            ==> count.cloned >= 0 && count.raced >= 0) by {
            assert(init[i] == results[i]);
        }
        lemma_sum_grows(init, n);
        assert(init.take(n) =~= results.take(n));
        assert(results[results.len() - 1] == results.last());
    } else {
        assert(results.take(n) =~= results);
        if n > 0 {
            let init = results.drop_last();
            assert forall|i: int| 0 <= i < init.len() implies (#[trigger] init[i] matches Ok(count)
                ==> count.cloned >= 0 && count.raced >= 0) by {
                assert(init[i] == results[i]);
            }
            lemma_sum_grows(init, init.len() as int);
            assert(init.take(init.len() as int) =~= init);
            assert(results[results.len() - 1] == results.last());
        }
    }
}

/// Puts together what the workers did. Where one failed, its error counts; of
/// several, that of the first.
#[verifier::loop_isolation(false)]
pub fn merge(results: Vec<Result<Tally, Error>>) -> (result: Result<Tally, Error>)
    requires
        forall|i: int|
            0 <= i < results@.len() ==> (#[trigger] results@[i] matches Ok(tally) ==> is_tally(
                tally,
            )),
        sum(results_view(results@)).files() <= u64::MAX,
    ensures
        ({
            let all = results_view(results@);
            &&& result is Ok <==> first_failure(all) is None
            &&& result matches Ok(tally) ==> is_tally(tally) && tally@ == sum(all)
            &&& result matches Err(error) ==> Some(error@) == first_failure(all)
        }),
{
    let ghost all = results_view(results@);
    let ghost given = results@;
    let mut total = Tally::new();
    let mut failure: Option<Error> = None;
    let mut pending = results;
    let n: usize = pending.len();
    assert(all.take(0) =~= Seq::<Result<Count, Failure>>::empty());
    for i in 0..n
        invariant
            n == given.len(),
            pending@.len() == n,
            forall|k: int| i <= k < n ==> #[trigger] pending@[k] == given[k],
            is_tally(total),
            total@ == sum(all.take(i as int)),
            match failure {
                Some(error) => first_failure(all.take(i as int)) == Some(error@),
                None => first_failure(all.take(i as int)) is None,
            },
    {
        assert(all.take(i + 1).drop_last() =~= all.take(i as int));
        assert(all.take(i + 1).last() == all[i as int]);
        proof {
            assert forall|k: int| 0 <= k < all.len() implies (#[trigger] all[k] matches Ok(count)
                ==> count.cloned >= 0 && count.raced >= 0) by {
                assert(all[k] == result_view(given[k]));
            }
            lemma_sum_grows(all, i + 1);
        }
        let mut one: Result<Tally, Error> = Ok(Tally::new());
        std::mem::swap(&mut one, &mut pending[i]);
        assert(one == given[i as int]);
        assert(all[i as int] == result_view(one));
        match one {
            Ok(tally) => {
                total.cloned = total.cloned + tally.cloned;
                total.raced = total.raced + tally.raced;
                add_sources(&mut total.sources, &tally.sources);
            },
            Err(error) => {
                if failure.is_none() {
                    failure = Some(error);
                }
            },
        }
    }
    assert(all.take(all.len() as int) =~= all);
    match failure {
        Some(error) => Err(error),
        None => Ok(total),
    }
}

fn add_sources(sources: &mut Vec<String>, more: &Vec<String>)
    requires
        text::texts(old(sources)@).no_duplicates(),
    ensures
        text::texts(final(sources)@).no_duplicates(),
        text::texts(final(sources)@).to_set() == text::texts(old(sources)@).to_set().union(
            text::texts(more@).to_set(),
        ),
{
    let ghost start = text::texts(sources@).to_set();
    let ghost all = text::texts(more@);
    assert(start.union(all.take(0).to_set()) =~= start);
    for i in 0..more.len()
        invariant
            all == text::texts(more@),
            text::texts(sources@).no_duplicates(),
            text::texts(sources@).to_set() == start.union(all.take(i as int).to_set()),
    {
        add_source(sources, more[i].as_str());
        proof {
            let before = all.take(i as int);
            let after = all.take(i + 1);
            assert(after =~= before.push(all[i as int]));
            assert forall|s: Seq<char>| #[trigger] after.contains(s) <==> (before.contains(s) || s
                == all[i as int]) by {
                if before.contains(s) {
                    let k = choose|k: int| 0 <= k < before.len() && before[k] == s;
                    assert(after[k] == s);
                }
                if s == all[i as int] {
                    assert(after[i as int] == s);
                }
            }
            assert(text::texts(sources@).to_set() =~= start.union(after.to_set()));
        }
    }
    assert(all.take(all.len() as int) =~= all);
}

/// The error of a worker that did not come to an end.
pub fn worker_panicked() -> (error: Error)
    ensures
        error@ == Failure::Message("compaction worker panicked"@),
{
    error::message("compaction worker panicked")
}

/// What the workers return, for chunks of `size` jobs and the trials of each.
pub open spec fn worker_results(
    donors: Seq<Registered>,
    jobs: Seq<Job>,
    size: int,
    runs: Seq<Seq<Trial>>,
) -> Seq<Result<Count, Failure>> {
    Seq::new(
        runs.len(),
        |k: int|
            chunk_result(
                chunk_end(donors, jobs, chunk_start(size, jobs.len() as int, k), runs[k]),
            ),
    )
}

/// What the workers come to together: the error of the first that failed, or
/// the sum of what they did.
pub open spec fn merged(results: Seq<Result<Count, Failure>>) -> Result<Count, Failure> {
    match first_failure(results) {
        Some(failure) => Err(failure),
        None => Ok(sum(results)),
    }
}

/// Each worker had its own chunk of the jobs: the platform gave these answers,
/// and a worker was stopped exactly where one before it failed.
pub open spec fn are_runs<P: ClonePlatform>(
    platform: &P,
    donors: Seq<Registered>,
    target: Seq<u8>,
    jobs: Seq<Job>,
    size: int,
    runs: Seq<Seq<Trial>>,
) -> bool {
    forall|k: int|
        0 <= k < runs.len() ==> is_worker_run(
            platform,
            donors,
            target,
            jobs,
            size,
            runs.take(k),
            #[trigger] runs[k],
        )
}

/// The trials of the worker behind those of `before`.
pub open spec fn is_worker_run<P: ClonePlatform>(
    platform: &P,
    donors: Seq<Registered>,
    target: Seq<u8>,
    jobs: Seq<Job>,
    size: int,
    before: Seq<Seq<Trial>>,
    run: Seq<Trial>,
) -> bool {
    let start = chunk_start(size, jobs.len() as int, before.len() as int);
    let end = chunk_start(size, jobs.len() as int, before.len() as int + 1);
    let failed = first_failure(worker_results(donors, jobs, size, before)) is Some;
    &&& is_run(chunk_end(donors, jobs, start, run), run, end - start)
    &&& are_answers(platform, donors, target, jobs, start, run)
    &&& forall|i: int| 0 <= i < run.len() ==> (#[trigger] run[i]).stopped == failed
}

/// The trials of so many workers come to this result.
pub open spec fn come_to<P: ClonePlatform>(
    platform: &P,
    donors: Seq<Registered>,
    target: Seq<u8>,
    jobs: Seq<Job>,
    workers: int,
    runs: Seq<Seq<Trial>>,
    result: Result<Count, Failure>,
) -> bool {
    let count = workers_for(workers, jobs.len() as int);
    let size = share(count, jobs.len() as int);
    &&& runs.len() == count
    &&& are_runs(platform, donors, target, jobs, size, runs)
    &&& result == merged(worker_results(donors, jobs, size, runs))
}

proof fn lemma_chunks_reach(allowed: int, jobs: int)
    requires
        allowed >= 0,
        jobs >= 0,
    ensures
        ({
            let workers = workers_for(allowed, jobs);
            chunk_start(share(workers, jobs), jobs, workers) == jobs
        }),
{
    let workers = workers_for(allowed, jobs);
    let size = share(workers, jobs);
    let q = (jobs + workers - 1) / workers;
    assert(workers * q >= jobs) by (nonlinear_arith)
        requires
            q == (jobs + workers - 1) / workers,
            workers >= 1,
    ;
    assert(workers * size >= workers * q) by (nonlinear_arith)
        requires
            size >= q,
            workers >= 1,
    ;
}

/// Works through all jobs as so many workers would, one chunk after another.
/// The work ends with the first failure. What the platform answered decides;
/// the result is what those answers come to, and without an error among them
/// every job is counted.
pub fn clone_paths_with_workers<P: ClonePlatform>(
    platform: &P,
    target: &[u8],
    donors: &Vec<Worktree>,
    jobs: &Vec<CloneJob>,
    workers: usize,
) -> (result: Result<Tally, Error>)
    requires
        jobs@.len() < u64::MAX,
        forall|j: int, d: int|
            0 <= j < jobs@.len() && 0 <= d < jobs@[j].donors@.len() ==> #[trigger] jobs@[j].donors@[d]
                < donors@.len(),
    ensures
        result matches Ok(tally) ==> is_tally(tally) && tally@.files() == jobs@.len(),
        exists|runs: Seq<Seq<Trial>>| #[trigger]
            come_to(
                platform,
                worktree::registered(donors@),
                target@,
                plan::jobs_view(jobs@),
                workers as int,
                runs,
                result_view(result),
            ),
{
    let ghost heads = worktree::registered(donors@);
    let ghost all = plan::jobs_view(jobs@);
    let (count, size) = divide(workers, jobs.len());
    let mut failed = false;
    let mut results: Vec<Result<Tally, Error>> = Vec::new();
    let ghost mut runs: Seq<Seq<Trial>> = Seq::empty();
    let mut at: usize = 0;
    assert(0 * (size as int) == 0) by (nonlinear_arith);
    assert(results_view(results@) =~= worker_results(heads, all, size as int, runs));
    for k in 0..count
        invariant
            size >= 1,
            jobs@.len() < u64::MAX,
            heads == worktree::registered(donors@),
            all == plan::jobs_view(jobs@),
            all.len() == jobs@.len(),
            forall|j: int, d: int|
                0 <= j < jobs@.len() && 0 <= d < jobs@[j].donors@.len()
                    ==> #[trigger] jobs@[j].donors@[d] < donors@.len(),
            forall|i: int|
                0 <= i < results@.len() ==> (#[trigger] results@[i] matches Ok(tally) ==> is_tally(
                    tally,
                )),
            at as int == chunk_start(size as int, jobs@.len() as int, k as int),
            at <= jobs@.len(),
            runs.len() == k,
            are_runs(platform, heads, target@, all, size as int, runs),
            results_view(results@) == worker_results(heads, all, size as int, runs),
            failed == (first_failure(results_view(results@)) is Some),
            sum(results_view(results@)).files() <= at,
            !failed ==> sum(results_view(results@)).files() == at,
    {
        let (start, end) = chunk_bounds(size, jobs.len(), k);
        let stop = || -> (yes: bool)
            ensures
                yes == failed,
            { failed };
        let one = clone_chunk(platform, target, donors, jobs, start, end, stop);
        let ghost before = results_view(results@);
        let ghost said = result_view(one);
        proof {
            let trials = choose|trials: Seq<Trial>| #[trigger]
                chunk_comes_to(
                    platform,
                    stop,
                    heads,
                    target@,
                    all,
                    start as int,
                    end as int,
                    trials,
                    said,
                );
            lemma_chunk_files(heads, all, start as int, trials);
            match chunk_end(heads, all, start as int, trials) {
                Progress::Going(endings) => lemma_tally_files(endings),
                Progress::Stopped(endings) => lemma_tally_files(endings),
                Progress::Failed(_) => {},
            }
            assert forall|i: int| 0 <= i < trials.len() implies (#[trigger] trials[i]).stopped
                == failed by {
                assert(call_ensures(stop, (), trials[i].stopped));
            }
            let grown = runs.push(trials);
            assert(is_worker_run(platform, heads, target@, all, size as int, runs, trials));
            assert forall|i: int| 0 <= i < grown.len() implies is_worker_run(
                platform,
                heads,
                target@,
                all,
                size as int,
                grown.take(i),
                #[trigger] grown[i],
            ) by {
                if i < runs.len() {
                    assert(grown[i] == runs[i]);
                    assert(grown.take(i) =~= runs.take(i));
                } else {
                    assert(grown.take(i) =~= runs);
                }
            }
            assert(worker_results(heads, all, size as int, grown) =~= before.push(said));
            runs = grown;
        }
        if one.is_err() {
            failed = true;
        }
        results.push(one);
        at = end;
        proof {
            assert(results_view(results@) =~= before.push(said));
            assert(before.push(said).drop_last() =~= before);
        }
    }
    proof {
        lemma_chunks_reach(workers as int, jobs@.len() as int);
    }
    let result = merge(results);
    assert(come_to(platform, heads, target@, all, workers as int, runs, result_view(result)));
    result
}

/// What a platform answers, by the source, the target, the path, the object and
/// the number of the job that it is handed.
pub open spec fn answers_by<P: ClonePlatform>(
    platform: &P,
    f: spec_fn(Seq<u8>, Seq<u8>, Seq<u8>, Seq<char>, u64) -> Result<CloneOutcome, Failure>,
) -> bool {
    forall|
        s: &[u8],
        t: &[u8],
        r: &[u8],
        o: &str,
        number: u64,
        answer: Result<CloneOutcome, Error>,
    | #[trigger]
        call_ensures(P::clone_replacing, (platform, s, t, r, o, number), answer) ==> answer_view(
            answer,
        ) == f(s@, t@, r@, o@, number)
}

/// What a job comes to where a platform answers by `f`: the first donor, from
/// the one at `d` on, that has a regular file settles it.
pub open spec fn settled_job(
    f: spec_fn(Seq<u8>, Seq<u8>, Seq<u8>, Seq<char>, u64) -> Result<CloneOutcome, Failure>,
    donors: Seq<Registered>,
    target: Seq<u8>,
    job: Job,
    number: int,
    d: int,
) -> Result<Ending, Failure>
    decreases job.donors.len() - d,
{
    if d >= job.donors.len() {
        Ok(Ending::Skipped)
    } else {
        match f(donors[job.donors[d]].path, target, job.path, job.oid, number as u64) {
            Err(failure) => Err(failure),
            Ok(CloneOutcome::Cloned) => Ok(Ending::ClonedFrom(donors[job.donors[d]].head)),
            Ok(CloneOutcome::ChangedDuringClone) => Ok(Ending::Skipped),
            Ok(CloneOutcome::NotRegular) => settled_job(f, donors, target, job, number, d + 1),
        }
    }
}

/// What the `n` jobs from `start` on come to: their ends, or the first error.
pub open spec fn settled(
    f: spec_fn(Seq<u8>, Seq<u8>, Seq<u8>, Seq<char>, u64) -> Result<CloneOutcome, Failure>,
    donors: Seq<Registered>,
    target: Seq<u8>,
    jobs: Seq<Job>,
    start: int,
    n: int,
) -> Result<Seq<Ending>, Failure>
    decreases n,
{
    if n <= 0 {
        Ok(Seq::empty())
    } else {
        match settled(f, donors, target, jobs, start, n - 1) {
            Err(failure) => Err(failure),
            Ok(endings) => match settled_job(
                f,
                donors,
                target,
                jobs[start + n - 1],
                start + n - 1,
                0,
            ) {
                Err(failure) => Err(failure),
                Ok(ending) => Ok(endings.push(ending)),
            },
        }
    }
}

proof fn lemma_settled_job<P: ClonePlatform>(
    platform: &P,
    f: spec_fn(Seq<u8>, Seq<u8>, Seq<u8>, Seq<char>, u64) -> Result<CloneOutcome, Failure>,
    donors: Seq<Registered>,
    target: Seq<u8>,
    job: Job,
    number: int,
    answers: Seq<Result<CloneOutcome, Error>>,
    d: int,
)
    requires
        answers_by(platform, f),
        were_tried(platform, donors, target, job, number, answers),
        0 <= d < answers.len() || d == job.donors.len(),
    ensures
        job_end(donors, job, answers, d) == settled_job(f, donors, target, job, number, d),
    decreases job.donors.len() - d,
{
    if d < job.donors.len() {
        assert(was_tried(
            platform,
            donors[job.donors[d]].path,
            target,
            job.path,
            job.oid,
            number as u64,
            answers[d],
        ));
        if answers[d] == Ok::<CloneOutcome, Error>(CloneOutcome::NotRegular) {
            lemma_settled_job(platform, f, donors, target, job, number, answers, d + 1);
        }
    }
}

proof fn lemma_settled_chunk<P: ClonePlatform>(
    platform: &P,
    f: spec_fn(Seq<u8>, Seq<u8>, Seq<u8>, Seq<char>, u64) -> Result<CloneOutcome, Failure>,
    donors: Seq<Registered>,
    target: Seq<u8>,
    jobs: Seq<Job>,
    start: int,
    trials: Seq<Trial>,
)
    requires
        answers_by(platform, f),
        are_answers(platform, donors, target, jobs, start, trials),
        forall|i: int| 0 <= i < trials.len() ==> !(#[trigger] trials[i]).stopped,
    ensures
        chunk_end(donors, jobs, start, trials) == (match settled(
            f,
            donors,
            target,
            jobs,
            start,
            trials.len() as int,
        ) {
            Ok(endings) => Progress::Going(endings),
            Err(failure) => Progress::Failed(failure),
        }),
    decreases trials.len(),
{
    if trials.len() > 0 {
        let init = trials.drop_last();
        assert forall|i: int| 0 <= i < init.len() implies !(#[trigger] init[i]).stopped
            && were_tried(
            platform,
            donors,
            target,
            jobs[start + i],
            start + i,
            init[i].answers,
        ) by {
            assert(init[i] == trials[i]);
        }
        lemma_settled_chunk(platform, f, donors, target, jobs, start, init);
        let last = trials[trials.len() - 1];
        assert(last == trials.last());
        let number = start + trials.len() - 1;
        assert(were_tried(platform, donors, target, jobs[number], number, last.answers));
        lemma_settled_job(platform, f, donors, target, jobs[number], number, last.answers, 0);
    }
}

proof fn lemma_settled_more(
    f: spec_fn(Seq<u8>, Seq<u8>, Seq<u8>, Seq<char>, u64) -> Result<CloneOutcome, Failure>,
    donors: Seq<Registered>,
    target: Seq<u8>,
    jobs: Seq<Job>,
    start: int,
    m: int,
    n: int,
)
    requires
        0 <= m <= n,
    ensures
        settled(f, donors, target, jobs, start, n) == (match settled(
            f,
            donors,
            target,
            jobs,
            start,
            m,
        ) {
            Err(failure) => Err(failure),
            Ok(before) => match settled(f, donors, target, jobs, start + m, n - m) {
                Err(failure) => Err(failure),
                Ok(after) => Ok(before + after),
            },
        }),
    decreases n,
{
    if m < n {
        lemma_settled_more(f, donors, target, jobs, start, m, n - 1);
        if let Ok(before) = settled(f, donors, target, jobs, start, m) {
            if let Ok(after) = settled(f, donors, target, jobs, start + m, n - 1 - m) {
                if let Ok(ending) = settled_job(
                    f,
                    donors,
                    target,
                    jobs[start + n - 1],
                    start + n - 1,
                    0,
                ) {
                    assert((before + after).push(ending) =~= before + after.push(ending));
                }
            }
        }
    } else if let Ok(before) = settled(f, donors, target, jobs, start, m) {
        assert(before + Seq::<Ending>::empty() =~= before);
    }
}

proof fn lemma_settled_runs<P: ClonePlatform>(
    platform: &P,
    f: spec_fn(Seq<u8>, Seq<u8>, Seq<u8>, Seq<char>, u64) -> Result<CloneOutcome, Failure>,
    donors: Seq<Registered>,
    target: Seq<u8>,
    jobs: Seq<Job>,
    size: int,
    runs: Seq<Seq<Trial>>,
)
    requires
        answers_by(platform, f),
        are_runs(platform, donors, target, jobs, size, runs),
        size >= 1,
    ensures
        ({
            let results = worker_results(donors, jobs, size, runs);
            let reached = chunk_start(size, jobs.len() as int, runs.len() as int);
            match settled(f, donors, target, jobs, 0, reached) {
                Ok(endings) => first_failure(results) is None && sum(results) == tally_of(endings),
                Err(failure) => first_failure(results) == Some(failure),
            }
        }),
    decreases runs.len(),
{
    let results = worker_results(donors, jobs, size, runs);
    if runs.len() == 0 {
        assert(0 * size == 0) by (nonlinear_arith);
        assert(results =~= Seq::<Result<Count, Failure>>::empty());
    } else {
        let k = runs.len() - 1;
        let init = runs.drop_last();
        assert forall|i: int| 0 <= i < init.len() implies is_worker_run(
            platform,
            donors,
            target,
            jobs,
            size,
            init.take(i),
            #[trigger] init[i],
        ) by {
            assert(init[i] == runs[i]);
            assert(init.take(i) =~= runs.take(i));
        }
        lemma_settled_runs(platform, f, donors, target, jobs, size, init);
        let earlier = worker_results(donors, jobs, size, init);
        let run = runs[k];
        assert(runs.take(k) =~= init);
        assert(is_worker_run(platform, donors, target, jobs, size, init, run));
        let start = chunk_start(size, jobs.len() as int, k);
        let end = chunk_start(size, jobs.len() as int, k + 1);
        assert(0 <= k * size <= (k + 1) * size) by (nonlinear_arith)
            requires
                k >= 0,
                size >= 1,
        ;
        assert(results.drop_last() =~= earlier);
        assert(results.last() == chunk_result(chunk_end(donors, jobs, start, run)));
        lemma_settled_more(f, donors, target, jobs, 0, start, end);
        if first_failure(earlier) is None {
            lemma_settled_chunk(platform, f, donors, target, jobs, start, run);
            lemma_settled_more(f, donors, target, jobs, start, run.len() as int, end - start);
            if let Ok(before) = settled(f, donors, target, jobs, 0, start) {
                if let Ok(after) = settled(f, donors, target, jobs, start, end - start) {
                    tallies_add_up(before, after);
                }
            }
        }
    }
}

/// Where the answers of the platform depend on nothing but what it is handed,
/// any number of workers comes to the same: every job is settled by the first
/// of its donors that has a regular file, and the result counts all jobs, or is
/// the error of the first job that failed.
pub proof fn any_workers_agree<P: ClonePlatform>(
    platform: &P,
    f: spec_fn(Seq<u8>, Seq<u8>, Seq<u8>, Seq<char>, u64) -> Result<CloneOutcome, Failure>,
    donors: Seq<Registered>,
    target: Seq<u8>,
    jobs: Seq<Job>,
    workers: int,
    runs: Seq<Seq<Trial>>,
    result: Result<Count, Failure>,
)
    requires
        answers_by(platform, f),
        workers >= 0,
        come_to(platform, donors, target, jobs, workers, runs, result),
    ensures
        result == (match settled(f, donors, target, jobs, 0, jobs.len() as int) {
            Ok(endings) => Ok(tally_of(endings)),
            Err(failure) => Err(failure),
        }),
{
    let count = workers_for(workers, jobs.len() as int);
    let size = share(count, jobs.len() as int);
    lemma_settled_runs(platform, f, donors, target, jobs, size, runs);
    lemma_chunks_reach(workers, jobs.len() as int);
}

/// So many jobs that were skipped.
pub open spec fn all_skipped(jobs: int) -> Seq<Ending> {
    Seq::new(jobs as nat, |i: int| Ending::Skipped)
}

proof fn lemma_all_skipped(jobs: int)
    requires
        jobs >= 0,
    ensures
        tally_of(all_skipped(jobs)) == (Count { cloned: 0, raced: jobs, sources: Set::empty() }),
    decreases jobs,
{
    if jobs > 0 {
        lemma_all_skipped(jobs - 1);
        assert(all_skipped(jobs).drop_last() =~= all_skipped(jobs - 1));
    }
}

proof fn lemma_skipped_chunk(
    donors: Seq<Registered>,
    jobs: Seq<Job>,
    start: int,
    trials: Seq<Trial>,
)
    requires
        0 <= start,
        start + trials.len() <= jobs.len(),
        forall|j: int| 0 <= j < jobs.len() ==> (#[trigger] jobs[j]).donors.len() == 0,
        forall|i: int| 0 <= i < trials.len() ==> !(#[trigger] trials[i]).stopped,
    ensures
        chunk_end(donors, jobs, start, trials) == Progress::Going(all_skipped(trials.len() as int)),
    decreases trials.len(),
{
    if trials.len() > 0 {
        let init = trials.drop_last();
        assert forall|i: int| 0 <= i < init.len() implies !(#[trigger] init[i]).stopped by {
            assert(init[i] == trials[i]);
        }
        lemma_skipped_chunk(donors, jobs, start, init);
        assert(trials[trials.len() - 1] == trials.last());
        assert(jobs[start + trials.len() - 1].donors.len() == 0);
        assert(all_skipped(trials.len() as int) =~= all_skipped(init.len() as int).push(
            Ending::Skipped,
        ));
    } else {
        assert(all_skipped(0) =~= Seq::<Ending>::empty());
    }
}

proof fn lemma_skipped_runs<P: ClonePlatform>(
    platform: &P,
    donors: Seq<Registered>,
    target: Seq<u8>,
    jobs: Seq<Job>,
    size: int,
    runs: Seq<Seq<Trial>>,
)
    requires
        are_runs(platform, donors, target, jobs, size, runs),
        size >= 1,
        forall|j: int| 0 <= j < jobs.len() ==> (#[trigger] jobs[j]).donors.len() == 0,
    ensures
        ({
            let results = worker_results(donors, jobs, size, runs);
            let reached = chunk_start(size, jobs.len() as int, runs.len() as int);
            &&& first_failure(results) is None
            &&& sum(results) == Count { cloned: 0, raced: reached, sources: Set::empty() }
        }),
    decreases runs.len(),
{
    let results = worker_results(donors, jobs, size, runs);
    if runs.len() == 0 {
        assert(0 * size == 0) by (nonlinear_arith);
        assert(results =~= Seq::<Result<Count, Failure>>::empty());
    } else {
        let k = runs.len() - 1;
        let init = runs.drop_last();
        assert forall|i: int| 0 <= i < init.len() implies is_worker_run(
            platform,
            donors,
            target,
            jobs,
            size,
            init.take(i),
            #[trigger] init[i],
        ) by {
            assert(init[i] == runs[i]);
            assert(init.take(i) =~= runs.take(i));
        }
        lemma_skipped_runs(platform, donors, target, jobs, size, init);
        let run = runs[k];
        assert(runs.take(k) =~= init);
        assert(is_worker_run(platform, donors, target, jobs, size, init, run));
        assert(results.drop_last() =~= worker_results(donors, jobs, size, init));
        let start = chunk_start(size, jobs.len() as int, k);
        assert(0 <= k * size <= (k + 1) * size) by (nonlinear_arith)
            requires
                k >= 0,
                size >= 1,
        ;
        lemma_skipped_chunk(donors, jobs, start, run);
        lemma_all_skipped(run.len() as int);
        assert(Set::<Seq<char>>::empty().union(Set::empty()) =~= Set::<Seq<char>>::empty());
    }
}

/// Where no job has a donor the platform has no say: the work succeeds, and
/// every file is skipped.
pub proof fn without_donors_all_is_skipped<P: ClonePlatform>(
    platform: &P,
    donors: Seq<Registered>,
    target: Seq<u8>,
    jobs: Seq<Job>,
    workers: int,
    runs: Seq<Seq<Trial>>,
    result: Result<Count, Failure>,
)
    requires
        forall|j: int| 0 <= j < jobs.len() ==> (#[trigger] jobs[j]).donors.len() == 0,
        workers >= 0,
        come_to(platform, donors, target, jobs, workers, runs, result),
    ensures
        result == Ok::<Count, Failure>(
            Count { cloned: 0, raced: jobs.len() as int, sources: Set::empty() },
        ),
{
    let count = workers_for(workers, jobs.len() as int);
    let size = share(count, jobs.len() as int);
    lemma_skipped_runs(platform, donors, target, jobs, size, runs);
    lemma_chunks_reach(workers, jobs.len() as int);
}

/// The least of some texts, in the order of their bytes.
pub open spec fn least_text(items: Seq<Seq<char>>) -> Seq<char>
    decreases items.len(),
{
    if items.len() <= 1 {
        items[0]
    } else {
        let least = least_text(items.drop_last());
        if order::bytes_less(
            vstd::utf8::encode_utf8(items.last()),
            vstd::utf8::encode_utf8(least),
        ) {
            items.last()
        } else {
            least
        }
    }
}

/// The least of the commits that were cloned from, if any.
pub fn least_source(sources: &Vec<String>) -> (least: Option<String>)
    ensures
        least is Some <==> sources@.len() > 0,
        least matches Some(text) ==> text@ == least_text(text::texts(sources@)),
{
    if sources.len() == 0 {
        return None;
    }
    let ghost all = text::texts(sources@);
    let mut at: usize = 0;
    assert(all.take(1)[0] == all[0]);
    for i in 1..sources.len()
        invariant
            all == text::texts(sources@),
            at < sources@.len(),
            sources@[at as int]@ == least_text(all.take(i as int)),
    {
        assert(all.take(i + 1).drop_last() =~= all.take(i as int));
        assert(all.take(i + 1).last() == sources@[i as int]@);
        let rank = order::bytes_rank(
            sources[i].as_str().as_bytes(),
            sources[at].as_str().as_bytes(),
        );
        if let Rank::Before = rank {
            at = i;
        }
    }
    assert(all.take(all.len() as int) =~= all);
    Some(sources[at].as_str().to_owned())
}

/// The least of some texts is one of them, and none is less by its bytes.
pub proof fn least_text_is_least(items: Seq<Seq<char>>)
    requires
        items.len() > 0,
    ensures
        items.contains(least_text(items)),
        forall|i: int|
            0 <= i < items.len() ==> !order::bytes_less(
                vstd::utf8::encode_utf8(#[trigger] items[i]),
                vstd::utf8::encode_utf8(least_text(items)),
            ),
    decreases items.len(),
{
    let n = items.len() - 1;
    if n == 0 {
        assert(items[0] == least_text(items));
        order::bytes_less_irreflexive(vstd::utf8::encode_utf8(items[0]));
    } else {
        let init = items.drop_last();
        least_text_is_least(init);
        let before = least_text(init);
        let k = choose|k: int| 0 <= k < init.len() && init[k] == before;
        assert(items[k] == before);
        assert(items[n] == items.last());
        let last = vstd::utf8::encode_utf8(items[n]);
        let kept = vstd::utf8::encode_utf8(before);
        assert forall|i: int| 0 <= i < items.len() implies !order::bytes_less(
            vstd::utf8::encode_utf8(#[trigger] items[i]),
            vstd::utf8::encode_utf8(least_text(items)),
        ) by {
            let one = vstd::utf8::encode_utf8(items[i]);
            if i < n {
                assert(init[i] == items[i]);
                if order::bytes_less(last, kept) && order::bytes_less(one, last) {
                    order::bytes_less_transitive(one, last, kept);
                }
            } else {
                order::bytes_less_irreflexive(last);
            }
        }
    }
}

/// A worker is added for every 256 files, up to those allowed, and there is at
/// least one; each gets as many files as are needed to deal them all out.
pub proof fn workers_are_worth_their_start(allowed: int, jobs: int)
    requires
        allowed >= 1,
        jobs >= 0,
    ensures
        ({
            let workers = workers_for(allowed, jobs);
            let size = share(workers, jobs);
            &&& 1 <= workers <= allowed
            &&& workers == 1 || workers * 256 <= jobs
            &&& workers == allowed || jobs < (workers + 1) * 256
            &&& size >= 1
            &&& size * workers >= jobs
            &&& size == 1 || (size - 1) * workers < jobs
        }),
{
    let workers = workers_for(allowed, jobs);
    let size = share(workers, jobs);
    let q = (jobs + workers - 1) / workers;
    assert(q * workers <= jobs + workers - 1 < (q + 1) * workers) by (nonlinear_arith)
        requires
            q == (jobs + workers - 1) / workers,
            workers >= 1,
    ;
    assert((q + 1) * workers == q * workers + workers) by (nonlinear_arith);
    assert((q - 1) * workers == q * workers - workers) by (nonlinear_arith);
    if q < 1 {
        assert(q * workers <= 0) by (nonlinear_arith)
            requires
                q <= 0,
                workers >= 1,
        ;
        assert(jobs <= 0);
    }
}

/// A tally counts the jobs that were cloned and those that were skipped, and
/// names the commits that were cloned from.
pub proof fn tallies_count_endings(endings: Seq<Ending>, commit: Seq<char>)
    ensures
        tally_of(endings).cloned == worktree::positions(
            endings.len() as int,
            |i: int| endings[i] is ClonedFrom,
        ).len(),
        tally_of(endings).raced == worktree::positions(
            endings.len() as int,
            |i: int| endings[i] is Skipped,
        ).len(),
        tally_of(endings).sources.contains(commit) <==> endings.contains(
            Ending::ClonedFrom(commit),
        ),
    decreases endings.len(),
{
    if endings.len() > 0 {
        let init = endings.drop_last();
        let n = init.len() as int;
        tallies_count_endings(init, commit);
        lemma_same_places(
            n,
            |i: int| endings[i] is ClonedFrom,
            |i: int| init[i] is ClonedFrom,
        );
        lemma_same_places(n, |i: int| endings[i] is Skipped, |i: int| init[i] is Skipped);
        assert(endings[n] == endings.last());
        if init.contains(Ending::ClonedFrom(commit)) {
            let k = choose|k: int| 0 <= k < n && init[k] == Ending::ClonedFrom(commit);
            assert(endings[k] == init[k]);
        }
        if endings.contains(Ending::ClonedFrom(commit)) {
            let k = choose|k: int| 0 <= k <= n && endings[k] == Ending::ClonedFrom(commit);
            if k < n {
                assert(init[k] == endings[k]);
            }
        }
    }
}

proof fn lemma_same_places(n: int, one: spec_fn(int) -> bool, other: spec_fn(int) -> bool)
    requires
        forall|k: int| 0 <= k < n ==> #[trigger] one(k) == other(k),
    ensures
        worktree::positions(n, one) == worktree::positions(n, other),
    decreases n,
{
    if n > 0 {
        lemma_same_places(n - 1, one, other);
        assert(one(n - 1) == other(n - 1));
    }
}

/// The first donor that has a regular file decides a job: its error is the
/// job's, its clone is made from the donor's commit, and a change leaves the file
/// out. Where none has one, the file is left out.
pub proof fn the_first_regular_donor_decides(
    donors: Seq<Registered>,
    job: Job,
    answers: Seq<Result<CloneOutcome, Error>>,
    from: int,
    d: int,
)
    requires
        0 <= from <= d <= job.donors.len(),
        forall|k: int|
            from <= k < d ==> answer_view(#[trigger] answers[k]) == Ok::<CloneOutcome, Failure>(
                CloneOutcome::NotRegular,
            ),
    ensures
        ({
            let end = job_end(donors, job, answers, from);
            &&& d == job.donors.len() ==> end == Ok::<Ending, Failure>(Ending::Skipped)
            &&& d < job.donors.len() && (answers[d] matches Err(error)) ==> end == Err::<
                Ending,
                Failure,
            >(answers[d]->Err_0@)
            &&& d < job.donors.len() && answers[d] == Ok::<CloneOutcome, Error>(
                CloneOutcome::Cloned,
            ) ==> end == Ok::<Ending, Failure>(Ending::ClonedFrom(donors[job.donors[d]].head))
            &&& d < job.donors.len() && answers[d] == Ok::<CloneOutcome, Error>(
                CloneOutcome::ChangedDuringClone,
            ) ==> end == Ok::<Ending, Failure>(Ending::Skipped)
        }),
    decreases d - from,
{
    if from < d {
        assert(answer_view(answers[from]) == Ok::<CloneOutcome, Failure>(CloneOutcome::NotRegular));
        the_first_regular_donor_decides(donors, job, answers, from + 1, d);
    }
}

/// A worker goes on until a job fails or the work is to end: before that every
/// job came to its end, in order.
pub proof fn jobs_end_in_order(
    donors: Seq<Registered>,
    jobs: Seq<Job>,
    start: int,
    trials: Seq<Trial>,
)
    ensures
        match chunk_end(donors, jobs, start, trials) {
            Progress::Going(endings) => {
                &&& endings.len() == trials.len()
                &&& forall|i: int|
                    0 <= i < trials.len() ==> !(#[trigger] trials[i]).stopped && job_end(
                        donors,
                        jobs[start + i],
                        trials[i].answers,
                        0,
                    ) == Ok::<Ending, Failure>(endings[i])
            },
            Progress::Stopped(endings) => {
                &&& endings.len() < trials.len()
                &&& trials[endings.len() as int].stopped
                &&& forall|i: int|
                    0 <= i < endings.len() ==> !(#[trigger] trials[i]).stopped && job_end(
                        donors,
                        jobs[start + i],
                        trials[i].answers,
                        0,
                    ) == Ok::<Ending, Failure>(endings[i])
            },
            Progress::Failed(failure) => exists|n: int|
                0 <= n < trials.len() && !(#[trigger] trials[n]).stopped && job_end(
                    donors,
                    jobs[start + n],
                    trials[n].answers,
                    0,
                ) == Err::<Ending, Failure>(failure) && forall|i: int|
                    0 <= i < n ==> !(#[trigger] trials[i]).stopped && job_end(
                        donors,
                        jobs[start + i],
                        trials[i].answers,
                        0,
                    ) is Ok,
        },
    decreases trials.len(),
{
    if trials.len() > 0 {
        let init = trials.drop_last();
        let last = trials.len() - 1;
        jobs_end_in_order(donors, jobs, start, init);
        assert(trials[last] == trials.last());
        assert(forall|i: int| 0 <= i < last ==> #[trigger] init[i] == trials[i]);
        match chunk_end(donors, jobs, start, init) {
            Progress::Going(endings) => {
                assert forall|i: int| 0 <= i < last implies !(#[trigger] trials[i]).stopped
                    && job_end(donors, jobs[start + i], trials[i].answers, 0) == Ok::<
                    Ending,
                    Failure,
                >(endings[i]) by {
                    assert(init[i] == trials[i]);
                }
                assert(jobs[start + trials.len() - 1] == jobs[start + last]);
            },
            Progress::Stopped(endings) => {
                assert(init[endings.len() as int] == trials[endings.len() as int]);
                assert forall|i: int| 0 <= i < endings.len() implies !(#[trigger] trials[i]).stopped
                    && job_end(donors, jobs[start + i], trials[i].answers, 0) == Ok::<
                    Ending,
                    Failure,
                >(endings[i]) by {
                    assert(init[i] == trials[i]);
                }
            },
            Progress::Failed(failure) => {
                let n = choose|n: int|
                    0 <= n < init.len() && !(#[trigger] init[n]).stopped && job_end(
                        donors,
                        jobs[start + n],
                        init[n].answers,
                        0,
                    ) == Err::<Ending, Failure>(failure) && forall|i: int|
                        0 <= i < n ==> !(#[trigger] init[i]).stopped && job_end(
                            donors,
                            jobs[start + i],
                            init[i].answers,
                            0,
                        ) is Ok;
                assert(trials[n] == init[n]);
                assert forall|i: int| 0 <= i < n implies !(#[trigger] trials[i]).stopped && job_end(
                    donors,
                    jobs[start + i],
                    trials[i].answers,
                    0,
                ) is Ok by {
                    assert(init[i] == trials[i]);
                }
            },
        }
    }
}

/// The workers' results are put together: the error of the first worker with one,
/// and otherwise what all of them cloned and skipped, and from where.
pub proof fn results_are_put_together(results: Seq<Result<Count, Failure>>, n: int, count: Count)
    ensures
        (0 <= n < results.len() && results[n] is Err && forall|i: int|
            0 <= i < n ==> (#[trigger] results[i]) is Ok) ==> merged(results) == Err::<
            Count,
            Failure,
        >(results[n]->Err_0),
        (forall|i: int| 0 <= i < results.len() ==> (#[trigger] results[i]) is Ok) ==> {
            let all = merged(results.push(Ok(count)));
            &&& merged(results) is Ok
            &&& all is Ok
            &&& all->Ok_0.cloned == merged(results)->Ok_0.cloned + count.cloned
            &&& all->Ok_0.raced == merged(results)->Ok_0.raced + count.raced
            &&& forall|commit: Seq<char>|
                all->Ok_0.sources.contains(commit) <==> merged(results)->Ok_0.sources.contains(
                    commit,
                ) || count.sources.contains(commit)
        },
        ({
            let none = merged(Seq::empty());
            none is Ok && none->Ok_0.cloned == 0 && none->Ok_0.raced == 0 && forall|c: Seq<char>|
                !none->Ok_0.sources.contains(c)
        }),
    decreases results.len(),
{
    lemma_first_failure(results, n);
    let more = results.push(Ok(count));
    assert(more.drop_last() =~= results);
    if forall|i: int| 0 <= i < results.len() ==> (#[trigger] results[i]) is Ok {
        assert forall|i: int| 0 <= i < more.len() implies (#[trigger] more[i]) is Ok by {
            if i < results.len() {
                assert(more[i] == results[i]);
            }
        }
        lemma_first_failure(more, n);
    }
}

proof fn lemma_first_failure(results: Seq<Result<Count, Failure>>, n: int)
    ensures
        (0 <= n < results.len() && results[n] is Err && forall|i: int|
            0 <= i < n ==> (#[trigger] results[i]) is Ok) ==> first_failure(results) == Some(
            results[n]->Err_0,
        ),
        (forall|i: int| 0 <= i < results.len() ==> (#[trigger] results[i]) is Ok) ==> first_failure(
            results,
        ) is None,
    decreases results.len(),
{
    if results.len() > 0 {
        let init = results.drop_last();
        assert(forall|i: int| 0 <= i < init.len() ==> #[trigger] init[i] == results[i]);
        assert(results[results.len() - 1] == results.last());
        lemma_first_failure(init, n);
    }
}

/// A clone counts for its commit and a change as skipped, and both settle the
/// file; without a regular file nothing is counted.
pub proof fn attempts_are_counted(count: Count, commit: Seq<char>)
    ensures
        ({
            let (after, settled) = attempted(count, commit, CloneOutcome::Cloned);
            &&& settled
            &&& after.cloned == count.cloned + 1
            &&& after.raced == count.raced
            &&& after.sources == count.sources.insert(commit)
        }),
        ({
            let (after, settled) = attempted(count, commit, CloneOutcome::ChangedDuringClone);
            &&& settled
            &&& after.cloned == count.cloned
            &&& after.raced == count.raced + 1
            &&& after.sources == count.sources
        }),
        attempted(count, commit, CloneOutcome::NotRegular) == (count, false),
{
}

/// Each donor of a job is tried in its turn with the target's path and the job's
/// path, object and number, as long as those before it had no regular file; the
/// first that had one is the last to be tried.
pub proof fn donors_are_tried_until_one_has_the_file<P: ClonePlatform>(
    platform: &P,
    donors: Seq<Registered>,
    target: Seq<u8>,
    job: Job,
    number: int,
    answers: Seq<Result<CloneOutcome, Error>>,
    d: int,
)
    requires
        were_tried(platform, donors, target, job, number, answers),
        0 <= d < job.donors.len(),
        forall|c: int|
            0 <= c < d ==> c < answers.len() && #[trigger] answers[c] == Ok::<CloneOutcome, Error>(
                CloneOutcome::NotRegular,
            ),
    ensures
        d < answers.len(),
        exists|s: &[u8], t: &[u8], r: &[u8], o: &str|
            s@ == donors[job.donors[d]].path && t@ == target && r@ == job.path && o@ == job.oid
                && #[trigger] call_ensures(
                P::clone_replacing,
                (platform, s, t, r, o, number as u64),
                answers[d],
            ),
        answers[d] != Ok::<CloneOutcome, Error>(CloneOutcome::NotRegular) ==> answers.len() == d
            + 1,
{
    if answers.len() <= d {
        if answers.len() > 0 {
            assert(answers[answers.len() - 1] == Ok::<CloneOutcome, Error>(
                CloneOutcome::NotRegular,
            ));
        }
    }
    assert(was_tried(
        platform,
        donors[job.donors[d]].path,
        target,
        job.path,
        job.oid,
        number as u64,
        answers[d],
    ));
    if d < answers.len() - 1 {
        assert(answers[d] == Ok::<CloneOutcome, Error>(CloneOutcome::NotRegular));
    }
}

proof fn lemma_no_failure(results: Seq<Result<Count, Failure>>, i: int)
    requires
        first_failure(results) is None,
        0 <= i < results.len(),
    ensures
        results[i] is Ok,
    decreases results.len(),
{
    if i < results.len() - 1 {
        lemma_no_failure(results.drop_last(), i);
        assert(results.drop_last()[i] == results[i]);
    }
}

/// Where the work comes to a tally, every job was tried and came to an end.
pub proof fn every_job_is_worked_on<P: ClonePlatform>(
    platform: &P,
    donors: Seq<Registered>,
    target: Seq<u8>,
    jobs: Seq<Job>,
    workers: int,
    runs: Seq<Seq<Trial>>,
    count: Count,
    j: int,
)
    requires
        come_to(platform, donors, target, jobs, workers, runs, Ok(count)),
        0 <= j < jobs.len(),
        0 <= workers,
    ensures
        exists|answers: Seq<Result<CloneOutcome, Error>>| #[trigger]
            were_tried(platform, donors, target, jobs[j], j, answers) && job_end(
                donors,
                jobs[j],
                answers,
                0,
            ) is Ok,
{
    let n = jobs.len() as int;
    let size = share(workers_for(workers, n), n);
    let k = j / size;
    assert(size >= 1);
    assert(0 <= k) by (nonlinear_arith)
        requires
            k == j / size,
            j >= 0,
            size >= 1,
    ;
    chunks_hold_every_job_once(workers, n, j, k);
    let start = chunk_start(size, n, k);
    let run = runs[k];
    let before = runs.take(k);
    let results = worker_results(donors, jobs, size, runs);
    let early = worker_results(donors, jobs, size, before);
    assert(is_worker_run(platform, donors, target, jobs, size, runs.take(k), runs[k]));
    assert(first_failure(results) is None);
    lemma_no_failure(results, k);
    assert forall|i: int| 0 <= i < early.len() implies (#[trigger] early[i]) is Ok by {
        lemma_no_failure(results, i);
        assert(before[i] == runs[i]);
        assert(early[i] == results[i]);
    }
    lemma_first_failure(early, 0);
    jobs_end_in_order(donors, jobs, start, run);
    let progress = chunk_end(donors, jobs, start, run);
    if let Progress::Stopped(endings) = progress {
        assert(run[endings.len() as int].stopped);
    }
    let i = j - start;
    assert(!run[i].stopped);
    assert(were_tried(platform, donors, target, jobs[start + i], start + i, run[i].answers));
}

/// What a worker's jobs come to: the tally of those that ended, unless one failed.
pub proof fn chunks_come_to_a_tally(endings: Seq<Ending>, failure: Failure)
    ensures
        chunk_result(Progress::Going(endings)) == Ok::<Count, Failure>(tally_of(endings)),
        chunk_result(Progress::Stopped(endings)) == Ok::<Count, Failure>(tally_of(endings)),
        chunk_result(Progress::Failed(failure)) == Err::<Count, Failure>(failure),
{
}

/// A tally is seen as its counts and the set of its commits.
pub proof fn tallies_are_seen_as_they_are(tally: Tally, commit: Seq<char>)
    ensures
        tally@.cloned == tally.cloned,
        tally@.raced == tally.raced,
        tally@.sources.contains(commit) <==> exists|i: int|
            0 <= i < tally.sources@.len() && (#[trigger] tally.sources@[i])@ == commit,
{
    let all = text::texts(tally.sources@);
    if all.contains(commit) {
        let i = choose|i: int| 0 <= i < all.len() && all[i] == commit;
        assert(tally.sources@[i]@ == commit);
    }
    if exists|i: int| 0 <= i < tally.sources@.len() && (#[trigger] tally.sources@[i])@ == commit {
        let i = choose|i: int|
            0 <= i < tally.sources@.len() && (#[trigger] tally.sources@[i])@ == commit;
        assert(all[i] == commit);
    }
}

} // verus!
