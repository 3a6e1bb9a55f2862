//! What a worker does with a job: which one it takes, with which agent, and what comes of it.

use vstd::prelude::*;

use crate::agent::pool;
use crate::agent::pool::{AgentPool, AgentState, PoolStep};
use crate::agent::protocol::StatInfo;
use crate::error;
use crate::error::{ErrorView, StrawsError};
use crate::job::scheduler;
use crate::job::scheduler::JobScheduler;
use crate::job::types;
use crate::job::types::{Direction, FileMeta, Job, JobResult};
use crate::progress::tracker::{CompletedView, FailedView, ProgressTracker, ProgressView};
use crate::text;

verus! {

/// How often a job is tried.
pub const MAX_RETRIES: u32 = 3;

/// How many milliseconds a worker waits for a job.
pub const POLL_INTERVAL_MS: u64 = 100;

/// How many milliseconds a worker waits for an agent.
pub const AGENT_INTERVAL_MS: u64 = 50;

// ---------------------------------------------------------------------------
// Which job, and which agent
// ---------------------------------------------------------------------------

/// What a worker does next.
#[derive(Debug, Clone, Copy, PartialEq, Eq, Structural)]
pub enum WorkerStep {
    /// Its work is over.
    Stop,
    /// Nothing right now.
    Wait,
    /// This job.
    Run(u64),
}

/// What a worker does next. It takes the first job that is there. Where there is none it waits a
/// moment for one, and stops if none came and none will come. It also stops when the user wants
/// that, but a job that came while it waited is still taken. `waited` says that it has just waited.
pub fn next_step(scheduler: &mut JobScheduler, aborted: bool, done: bool, waited: bool) -> (r:
    WorkerStep)
    requires
        old(scheduler).wf(),
    ensures
        final(scheduler).wf(),
        final(scheduler).same_work(*old(scheduler)),
        r == if aborted && !waited {
            WorkerStep::Stop
        } else if old(scheduler).pending().len() > 0 {
            WorkerStep::Run(old(scheduler).pending().first())
        } else if waited && (done || aborted) {
            WorkerStep::Stop
        } else {
            WorkerStep::Wait
        },
        final(scheduler).pending() == match r {
            WorkerStep::Run(_) => old(scheduler).pending().drop_first(),
            _ => old(scheduler).pending(),
        },
        r matches WorkerStep::Run(id) ==> id < old(scheduler).jobs@.len(),
{
    if aborted && !waited {
        return WorkerStep::Stop;
    }
    match scheduler.take_job() {
        Some(id) => WorkerStep::Run(id),
        None => if waited && (done || aborted) {
            WorkerStep::Stop
        } else {
            WorkerStep::Wait
        },
    }
}

/// What a worker that needs an agent does next.
#[derive(Debug, Clone, Copy, PartialEq, Eq, Structural)]
pub enum AgentStep {
    /// It has this agent.
    Got(usize),
    /// All agents are at work: it waits.
    Wait,
    /// It cannot have one any more.
    GiveUp,
}

/// Looks for an agent. A worker gives up when the user wants to stop, or when no agent can be used
/// any more.
pub fn agent_step(pool: &mut AgentPool, aborted: bool) -> (r: AgentStep)
    requires
        old(pool).wf(),
    ensures
        final(pool).wf(),
        final(pool).same_agents(*old(pool)),
        r == if aborted {
            AgentStep::GiveUp
        } else {
            match pool::first_ready(old(pool).states()) {
                Some(id) => AgentStep::Got(id as usize),
                None => if pool::healthy(old(pool).states()) == 0 {
                    AgentStep::GiveUp
                } else {
                    AgentStep::Wait
                },
            }
        },
        r matches AgentStep::Got(id) ==> id < old(pool).agents@.len(),
        final(pool).states() == if aborted {
            old(pool).states()
        } else {
            pool::stepped(old(pool).states(), PoolStep::Acquire)
        },
{
    if aborted {
        return AgentStep::GiveUp;
    }
    match pool.acquire() {
        Some(id) => AgentStep::Got(id),
        None => if pool.healthy_count() == 0 {
            AgentStep::GiveUp
        } else {
            AgentStep::Wait
        },
    }
}

// ---------------------------------------------------------------------------
// A job that cannot be tried, or failed
// ---------------------------------------------------------------------------

/// What is kept of a file that failed.
pub open spec fn failure_of(meta: FileMeta, e: ErrorView, retries: u32) -> FailedView {
    FailedView {
        remote_path: meta.remote_path@,
        local_path: meta.local_path@,
        error: error::error_text(e),
        retries,
    }
}

fn record_failure(tracker: &mut ProgressTracker, meta: &FileMeta, e: &StrawsError, retries: u32)
    requires
        old(tracker).wf(),
    ensures
        final(tracker).wf(),
        final(tracker)@ == old(tracker)@.failed(failure_of(*meta, e@, retries)),
{
    tracker.file_failed(
        meta.remote_path.as_str(),
        meta.local_path.as_str(),
        e.message().as_str(),
        retries,
    );
}

/// No agent could be had for a job: its file fails.
pub fn no_agent(
    scheduler: &JobScheduler,
    tracker: &mut ProgressTracker,
    id: u64,
    aborted: bool,
)
    requires
        scheduler.wf(),
        id < scheduler.jobs@.len(),
        old(tracker).wf(),
    ensures
        final(tracker).wf(),
        final(tracker)@ == old(tracker)@.failed(
            failure_of(
                scheduler.files@[scheduler.jobs@[id as int].file as int],
                if aborted {
                    ErrorView::Aborted
                } else {
                    ErrorView::AllAgentsUnhealthy
                },
                scheduler.jobs@[id as int].retry_count,
            ),
        ),
{
    let job = &scheduler.jobs[scheduler.place(id)];
    let meta = &scheduler.files[job.file];
    let e: StrawsError = if aborted {
        StrawsError::Aborted
    } else {
        StrawsError::AllAgentsUnhealthy
    };
    record_failure(tracker, meta, &e, job.retries());
}

/// A worker begins a job with an agent: the display shows what the agent is doing.
pub fn begin_job(scheduler: &JobScheduler, tracker: &mut ProgressTracker, id: u64, agent: usize)
    requires
        scheduler.wf(),
        id < scheduler.jobs@.len(),
        old(tracker).wf(),
    ensures
        final(tracker).wf(),
        ({
            let job = scheduler.jobs@[id as int];
            let meta = scheduler.files@[job.file as int];
            final(tracker)@ == old(tracker)@.busy_with(
                agent,
                Some(
                    types::description_text(meta.local_path@, job.chunk_index, meta.total_chunks),
                ),
            )
        }),
{
    let job = &scheduler.jobs[scheduler.place(id)];
    let description = job.description(&scheduler.files[job.file]);
    tracker.set_agent_job(agent, Some(description));
}

/// What a job that failed comes to.
#[derive(Debug, Clone, Copy, PartialEq, Eq, Structural)]
pub enum FailStep {
    /// It is tried again.
    Requeued,
    /// It should be tried again, but the queue is full.
    QueueFull,
    /// It was tried often enough.
    Exhausted,
    /// Trying it again is of no use.
    Hopeless,
}

/// What a job that failed comes to: it is tried again after failures that may pass, up to a limit.
pub open spec fn fail_step(e: ErrorView, retries_before: u32, room: bool) -> FailStep {
    if !error::retryable(e) {
        FailStep::Hopeless
    } else if retries_before + 1 >= MAX_RETRIES {
        FailStep::Exhausted
    } else if room {
        FailStep::Requeued
    } else {
        FailStep::QueueFull
    }
}

/// What the user is told of a job that failed, and what is kept of its file.
pub open spec fn told_of_failure(
    t: ProgressView,
    meta: FileMeta,
    e: ErrorView,
    retries_before: u32,
    step: FailStep,
) -> ProgressView {
    let name = types::display_name(meta.local_path@, "unknown"@);
    let why = error::error_text(e);
    let t1 = if error::agent_failure(e) {
        t.logged("Agent error: "@ + why, true)
    } else {
        t
    };
    let retrying = t1.logged("Retrying "@ + name + ": "@ + why, false);
    match step {
        FailStep::Requeued => retrying,
        FailStep::QueueFull => retrying.logged("Failed "@ + name + ": queue full"@, true).failed(
            failure_of(meta, e, (retries_before + 1) as u32),
        ),
        FailStep::Exhausted => t1.logged("Failed "@ + name + ": max retries"@, true).failed(
            failure_of(meta, e, (retries_before + 1) as u32),
        ),
        FailStep::Hopeless => t1.logged("Failed "@ + name + ": "@ + why, true).failed(
            failure_of(meta, e, retries_before),
        ),
    }
}

/// Every job that is still to be done was tried less often than the limit.
pub open spec fn tries_bounded(s: JobScheduler) -> bool {
    forall|k: int|
        0 <= k < s.pending().len() ==> s.jobs@[(#[trigger] s.pending()[k]) as int].retry_count
            < MAX_RETRIES
}

/// A job failed: its agent is given back or given up and has nothing to do any more, the user is
/// told, and the job goes back into the queue where it is worth another try.
pub fn fail_job(
    scheduler: &mut JobScheduler,
    pool: &mut AgentPool,
    tracker: &mut ProgressTracker,
    id: u64,
    agent: usize,
    e: &StrawsError,
) -> (r: FailStep)
    requires
        old(scheduler).wf(),
        old(pool).wf(),
        old(tracker).wf(),
        id < old(scheduler).jobs@.len(),
        old(scheduler).jobs@[id as int].retry_count < u32::MAX,
        agent < old(pool).agents@.len(),
    ensures
        final(scheduler).wf(),
        final(pool).wf(),
        final(tracker).wf(),
        ({
            let job = old(scheduler).jobs@[id as int];
            let room = old(scheduler).queue@.len() < old(scheduler).queue.capacity();
            &&& r == fail_step(e@, job.retry_count, room)
            &&& final(tracker)@ == told_of_failure(
                old(tracker)@.busy_with(agent, None),
                old(scheduler).files@[job.file as int],
                e@,
                job.retry_count,
                r,
            )
            &&& final(scheduler).jobs@ == if error::retryable(e@) {
                old(scheduler).jobs@.update(
                    id as int,
                    Job { retry_count: (job.retry_count + 1) as u32, ..job },
                )
            } else {
                old(scheduler).jobs@
            }
        }),
        final(scheduler).queue@ == if r == FailStep::Requeued {
            old(scheduler).queue@.push(id)
        } else {
            old(scheduler).queue@
        },
        final(scheduler).next == old(scheduler).next,
        final(scheduler).files == old(scheduler).files,
        final(scheduler).config == old(scheduler).config,
        final(scheduler).queue.capacity() == old(scheduler).queue.capacity(),
        final(scheduler).total_bytes == old(scheduler).total_bytes,
        final(scheduler).total_files == old(scheduler).total_files,
        final(scheduler).files_skipped == old(scheduler).files_skipped,
        final(scheduler).files_found == old(scheduler).files_found,
        final(pool).same_agents(*old(pool)),
        final(pool).states() == pool::stepped(
            old(pool).states(),
            if error::agent_failure(e@) {
                PoolStep::GiveUp(agent as int)
            } else {
                PoolStep::Release(agent as int)
            },
        ),
{
    tracker.set_agent_job(agent, None);
    let i: usize = scheduler.place(id);
    let file: usize = scheduler.jobs[i].file;
    let before: u32 = scheduler.jobs[i].retries();
    let name = types::name_or(scheduler.files[file].local_path.as_str(), "unknown");
    let why = e.message();
    if e.is_agent_failure() {
        pool.mark_unhealthy(agent);
        tracker.log_event(text::cat("Agent error: ", why.as_str()).as_str(), true);
    } else {
        pool.release(agent);
    }
    if !e.is_retryable() {
        let line = text::cat4("Failed ", name.as_str(), ": ", why.as_str());
        tracker.log_event(line.as_str(), true);
        record_failure(tracker, &scheduler.files[file], e, before);
        return FailStep::Hopeless;
    }
    let retries: u32 = scheduler.count_failure(id);
    if retries >= MAX_RETRIES {
        let line = text::cat3("Failed ", name.as_str(), ": max retries");
        tracker.log_event(line.as_str(), true);
        record_failure(tracker, &scheduler.files[file], e, retries);
        return FailStep::Exhausted;
    }
    let line = text::cat4("Retrying ", name.as_str(), ": ", why.as_str());
    tracker.log_event(line.as_str(), false);
    if scheduler.requeue(id) {
        FailStep::Requeued
    } else {
        let line = text::cat3("Failed ", name.as_str(), ": queue full");
        tracker.log_event(line.as_str(), true);
        record_failure(tracker, &scheduler.files[file], e, retries);
        FailStep::QueueFull
    }
}

// ---------------------------------------------------------------------------
// A job that is done
// ---------------------------------------------------------------------------

/// What is left to be done after a job.
#[derive(Debug, Clone, Copy, PartialEq, Eq, Structural)]
pub enum DoneStep {
    /// Other jobs of the file are still to be done, or another worker sees to it.
    Nothing,
    /// The file is put in its place.
    Finalize,
    /// The file is finished.
    Finished,
}

/// What is left to be done after a job: the last job of a file finishes it, once.
pub open spec fn done_step(meta: FileMeta, direction: Direction) -> DoneStep {
    if !meta.complete() || meta.finalize_result is Some {
        DoneStep::Nothing
    } else if direction == Direction::Download {
        DoneStep::Finalize
    } else {
        DoneStep::Finished
    }
}

/// What is remembered of a file that went over: where digests were compared, both sides have the
/// same.
pub open spec fn completion_of(meta: FileMeta, md5: Option<Seq<char>>) -> CompletedView {
    CompletedView {
        name: types::display_name(meta.local_path@, ""@),
        local_md5: md5,
        remote_md5: md5,
        mode: meta.mode,
        mtime: meta.mtime,
    }
}

fn record_completion(tracker: &mut ProgressTracker, meta: &FileMeta, md5: &Option<String>)
    requires
        old(tracker).wf(),
    ensures
        final(tracker).wf(),
        final(tracker)@ == old(tracker)@.completed(completion_of(*meta, md5.deep_view())),
{
    let name = types::name_or(meta.local_path.as_str(), "");
    tracker.file_completed(
        name.as_str(),
        text::copy_option(md5),
        text::copy_option(md5),
        meta.mode,
        meta.mtime,
    );
}

/// A job is done: its agent is given back and has nothing to do any more, and an upload that is
/// complete is finished.
pub fn complete_job(
    meta: &mut FileMeta,
    direction: Direction,
    pool: &mut AgentPool,
    tracker: &mut ProgressTracker,
    agent: usize,
    result: &JobResult,
) -> (r: DoneStep)
    requires
        old(pool).wf(),
        old(tracker).wf(),
        agent < old(pool).agents@.len(),
    ensures
        final(pool).wf(),
        final(tracker).wf(),
        r == done_step(*old(meta), direction),
        final(tracker)@ == if r == DoneStep::Finished {
            old(tracker)@.busy_with(agent, None).completed(
                completion_of(*old(meta), result.md5.deep_view()),
            )
        } else {
            old(tracker)@.busy_with(agent, None)
        },
        types::once(final(meta).finalize_result) == if r == DoneStep::Finished {
            Some(Ok::<(), Seq<char>>(()))
        } else {
            types::once(old(meta).finalize_result)
        },
        final(meta).same_file(*old(meta)),
        final(meta).same_progress(*old(meta)),
        types::once(final(meta).prealloc_result) == types::once(old(meta).prealloc_result),
        types::once(final(meta).truncate_result) == types::once(old(meta).truncate_result),
        old(meta).wf() ==> final(meta).wf(),
        final(pool).same_agents(*old(pool)),
        final(pool).states() == pool::stepped(
            old(pool).states(),
            PoolStep::Release(agent as int),
        ),
{
    tracker.set_agent_job(agent, None);
    pool.release(agent);
    if !meta.is_complete() || meta.finalize_attempted() {
        return DoneStep::Nothing;
    }
    match direction {
        Direction::Download => DoneStep::Finalize,
        Direction::Upload => {
            let _first = meta.store_finalize_result(Ok(()));
            record_completion(tracker, meta, &result.md5);
            DoneStep::Finished
        },
    }
}

/// A downloaded file was put in its place, or could not be.
pub fn finalized(
    meta: &FileMeta,
    tracker: &mut ProgressTracker,
    retries: u32,
    result: &JobResult,
    attempt: &Result<(), StrawsError>,
)
    requires
        old(tracker).wf(),
    ensures
        final(tracker).wf(),
        final(tracker)@ == match *attempt {
            Ok(_) => old(tracker)@.completed(completion_of(*meta, result.md5.deep_view())),
            Err(e) => old(tracker)@.failed(failure_of(*meta, e@, retries)),
        },
{
    match attempt {
        Ok(_) => record_completion(tracker, meta, &result.md5),
        Err(e) => record_failure(tracker, meta, e, retries),
    }
}

// ---------------------------------------------------------------------------
// Files under way
// ---------------------------------------------------------------------------

/// The files of which jobs were begun, and that are not finished.
#[derive(Debug)]
pub struct ActiveFiles {
    pub files: Vec<usize>,
}

impl ActiveFiles {
    /// No file is there twice.
    pub open spec fn wf(self) -> bool {
        self.files@.no_duplicates()
    }

    /// No file is under way.
    pub fn new() -> (r: Self)
        ensures
            r.wf(),
            r.files@ == Seq::<usize>::empty(),
    {
        ActiveFiles { files: Vec::new() }
    }

    /// A job of a file was begun.
    pub fn begin(&mut self, file: usize)
        requires
            old(self).wf(),
        ensures
            final(self).wf(),
            final(self).files@ == if old(self).files@.contains(file) {
                old(self).files@
            } else {
                old(self).files@.push(file)
            },
    {
        let mut i: usize = 0;
        while i < self.files.len()
            invariant
                *self == *old(self),
                self.wf(),
                i <= self.files@.len(),
                forall|j: int| 0 <= j < i ==> self.files@[j] != file,
            decreases self.files@.len() - i,
        {
            if self.files[i] == file {
                proof {
                    assert(self.files@[i as int] == file);
                }
                return;
            }
            i = i + 1;
        }
        self.files.push(file);
    }

    /// A file is finished.
    pub fn finish(&mut self, file: usize)
        requires
            old(self).wf(),
        ensures
            final(self).wf(),
            !final(self).files@.contains(file),
            forall|f: usize|
                f != file ==> (#[trigger] final(self).files@.contains(f) <==> old(self).files@.contains(f)),
    {
        let ghost before = self.files@;
        let mut i: usize = 0;
        while i < self.files.len()
            invariant
                *self == *old(self),
                before == self.files@,
                before.no_duplicates(),
                i <= self.files@.len(),
                forall|j: int| 0 <= j < i ==> self.files@[j] != file,
            decreases self.files@.len() - i,
        {
            if self.files[i] == file {
                let _gone = self.files.remove(i);
                proof {
                    lemma_removed(before, i as int);
                }
                return;
            }
            i = i + 1;
        }
    }

    /// The files that the user's stop left half done: their temporary files are removed.
    pub fn to_clean(&self, scheduler: &JobScheduler) -> (r: Vec<usize>)
        requires
            forall|k: int|
                0 <= k < self.files@.len() ==> (#[trigger] self.files@[k])
                    < scheduler.files@.len(),
        ensures
            r@ == self.files@.filter(|f: usize| !scheduler.files@[f as int].complete()),
    {
        let ghost open = |f: usize| !scheduler.files@[f as int].complete();
        let mut r: Vec<usize> = Vec::new();
        let mut i: usize = 0;
        proof {
            assert(self.files@.take(0).filter(open) =~= Seq::<usize>::empty()) by {
                reveal(Seq::filter);
            }
        }
        while i < self.files.len()
            invariant
                i <= self.files@.len(),
                open == (|f: usize| !scheduler.files@[f as int].complete()),
                forall|k: int|
                    0 <= k < self.files@.len() ==> (#[trigger] self.files@[k])
                        < scheduler.files@.len(),
                r@ == self.files@.take(i as int).filter(open),
            decreases self.files@.len() - i,
        {
            let f: usize = self.files[i];
            proof {
                let t = self.files@.take(i + 1);
                assert(t.drop_last() =~= self.files@.take(i as int));
                assert(t.last() == f);
                reveal(Seq::filter);
            }
            if !scheduler.files[f].is_complete() {
                r.push(f);
            }
            i = i + 1;
        }
        proof {
            assert(self.files@.take(i as int) =~= self.files@);
        }
        r
    }
}

proof fn lemma_removed(s: Seq<usize>, i: int)
    requires
        s.no_duplicates(),
        0 <= i < s.len(),
    ensures
        s.remove(i).no_duplicates(),
        !s.remove(i).contains(s[i]),
        forall|f: usize| f != s[i] ==> (#[trigger] s.remove(i).contains(f) <==> s.contains(f)),
{
    let t = s.remove(i);
    assert forall|f: usize| f != s[i] implies (#[trigger] t.contains(f) <==> s.contains(f)) by {
        if s.contains(f) {
            let k = choose|k: int| 0 <= k < s.len() && s[k] == f;
            if k < i {
                assert(t[k] == f);
            } else {
                assert(t[k - 1] == f);
            }
        }
        if t.contains(f) {
            let k = choose|k: int| 0 <= k < t.len() && t[k] == f;
            if k < i {
                assert(s[k] == f);
            } else {
                assert(s[k + 1] == f);
            }
        }
    }
}

// ---------------------------------------------------------------------------
// Laws
// ---------------------------------------------------------------------------

/// A job that fails is tried again only as long as it was tried less often than the limit.
pub proof fn lemma_tries_are_limited(e: ErrorView, retries_before: u32, room: bool)
    requires
        fail_step(e, retries_before, room) == FailStep::Requeued,
    ensures
        retries_before + 1 < MAX_RETRIES,
        error::retryable(e),
{
}

/// Whatever job fails, the jobs that are still to be done were tried less often than the limit: no
/// job that waits, other than the one that failed, is touched.
pub proof fn lemma_tries_stay_bounded(
    before: JobScheduler,
    after: JobScheduler,
    id: u64,
    e: ErrorView,
    step: FailStep,
)
    requires
        before.wf(),
        tries_bounded(before),
        id < before.jobs@.len(),
        !before.pending().contains(id),
        step == fail_step(
            e,
            before.jobs@[id as int].retry_count,
            before.queue@.len() < before.queue.capacity(),
        ),
        after.jobs@ == if error::retryable(e) {
            before.jobs@.update(
                id as int,
                Job {
                    retry_count: (before.jobs@[id as int].retry_count + 1) as u32,
                    ..before.jobs@[id as int]
                },
            )
        } else {
            before.jobs@
        },
        after.queue@ == if step == FailStep::Requeued {
            before.queue@.push(id)
        } else {
            before.queue@
        },
        after.next == before.next,
    ensures
        tries_bounded(after),
{
    let p = before.pending();
    let q = after.pending();
    let n = before.queue@.len() as int;
    assert forall|k: int| 0 <= k < q.len() implies after.jobs@[(
    #[trigger] q[k]) as int].retry_count < MAX_RETRIES by {
        if step == FailStep::Requeued {
            if k < n {
                assert(q[k] == p[k]);
            } else if k == n {
                assert(q[k] == id);
            } else {
                assert(q[k] == p[k - 1]);
            }
        } else {
            assert(q[k] == p[k]);
        }
        if q[k] != id {
            assert(p.contains(q[k]));
        }
    }
}

/// Jobs of a new file were never tried, and taking a job changes no other: the jobs that are still
/// to be done stay tried less often than the limit.
pub proof fn lemma_new_and_taken_jobs_stay_bounded(
    before: JobScheduler,
    added: JobScheduler,
    taken: JobScheduler,
    remote_path: Seq<char>,
    local_path: Seq<char>,
    stat: StatInfo,
    direction: Direction,
    tunnels: usize,
)
    requires
        before.wf(),
        added.wf(),
        tries_bounded(before),
        before.adds(added, remote_path, local_path, stat, direction, tunnels),
        added.pending().len() > 0,
        taken.jobs == added.jobs,
        taken.pending() == added.pending().drop_first(),
    ensures
        tries_bounded(added),
        added.jobs@[added.pending().first() as int].retry_count < MAX_RETRIES,
        tries_bounded(taken),
{
    scheduler::lemma_new_jobs_wait_behind(
        before,
        added,
        remote_path,
        local_path,
        stat,
        direction,
        tunnels,
    );
    let p = before.pending();
    let q = added.pending();
    let n = before.jobs@.len() as int;
    assert(added.jobs@.len() == added.jobs.len());
    assert forall|k: int| 0 <= k < q.len() implies added.jobs@[(
    #[trigger] q[k]) as int].retry_count < MAX_RETRIES by {
        if k < p.len() {
            assert(q[k] == p[k]);
            if k < before.queue@.len() {
                assert(p[k] == before.queue@[k]);
            }
            assert(p[k] < n);
        } else {
            assert(q[k] == n + (k - p.len()));
        }
    }
    assert(tries_bounded(added));
    assert(q[0] == q.first());
    assert forall|k: int| 0 <= k < taken.pending().len() implies taken.jobs@[(
    #[trigger] taken.pending()[k]) as int].retry_count < MAX_RETRIES by {
        assert(taken.pending()[k] == q[k + 1]);
    }
}

/// A file is not put in its place, nor counted as finished, as long as one of its chunks is not
/// marked.
pub proof fn lemma_unmarked_chunk_holds_the_file_back(meta: FileMeta, direction: Direction, i: int)
    requires
        0 <= i < meta.completed_chunks@.len(),
        !meta.completed_chunks@[i],
    ensures
        done_step(meta, direction) == DoneStep::Nothing,
{
}

/// A file is finished once: after the outcome of its last step is kept, nothing is left to be done.
pub proof fn lemma_finished_once(meta: FileMeta, direction: Direction)
    requires
        meta.finalize_result is Some,
    ensures
        done_step(meta, direction) == DoneStep::Nothing,
{
}

/// A failure that may pass is tried again every time, as long as the job was tried less than three
/// times and the queue has room, and no other failure is: a stall, a broken protocol, a complaint of
/// the agent, a lost connection and digests that differ may pass.
pub proof fn lemma_what_may_pass_is_tried_again(e: ErrorView, retries_before: u32, room: bool)
    ensures
        fail_step(e, retries_before, room) == FailStep::Requeued <==> (e is Stall || e is Protocol
            || e is Remote || e is Connection || e is Md5Mismatch) && retries_before < 2 && room,
        fail_step(e, retries_before, room) == FailStep::Hopeless <==> !(e is Stall || e is Protocol
            || e is Remote || e is Connection || e is Md5Mismatch),
        fail_step(e, retries_before, true) != FailStep::QueueFull,
        fail_step(e, retries_before, room) == FailStep::Exhausted ==> retries_before >= 2,
{
}

/// What a failure does. A job that is tried again is among those that are still to be done; any
/// other failure is counted and kept for the user, with the file that it is about. The agent is
/// given up if it is to blame, and else it is free again; no other job or agent is touched.
pub proof fn lemma_failure_is_tried_again_or_kept(
    s: &mut JobScheduler,
    p: &mut AgentPool,
    t: &mut ProgressTracker,
    id: u64,
    agent: usize,
    e: &StrawsError,
    r: FailStep,
)
    requires
        old(s).wf(),
        old(p).wf(),
        old(t).wf(),
        id < old(s).jobs@.len(),
        old(s).jobs@[id as int].retry_count < u32::MAX,
        agent < old(p).agents@.len(),
        call_ensures(fail_job, (s, p, t, id, agent, e), r),
    ensures
        ({
            let job = old(s).jobs@[id as int];
            let meta = old(s).files@[job.file as int];
            let may_pass = e is Stall || e is Protocol || e is Remote || e is Connection
                || e is Md5Mismatch;
            let blamed = e is Stall || e is Protocol || e is Connection;
            let room = old(s).queue@.len() < old(s).queue.capacity();
            let again = may_pass && job.retry_count < 2 && room;
            &&& r == FailStep::Requeued <==> again
            &&& again ==> final(s).pending().contains(id) && final(s).pending().len() == old(s).pending().len() + 1 && final(t).files_failed == old(t).files_failed && final(t)@.failed_files == old(t)@.failed_files
            &&& !again ==> final(s).pending() == old(s).pending() && (old(t).files_failed
                < u64::MAX ==> final(t).files_failed == old(t).files_failed + 1)
            &&& !again ==> final(t)@.failed_files.len() == old(t)@.failed_files.len() + 1
                && final(t)@.failed_files.drop_last() == old(t)@.failed_files
            &&& !again ==> final(t)@.failed_files.last().remote_path == meta.remote_path@
                && final(t)@.failed_files.last().local_path == meta.local_path@ && final(t)@.failed_files.last().error == error::error_text(e@)
            &&& !again ==> final(t)@.failed_files.last().retries == final(s).jobs@[id as int].retry_count
            &&& final(s).jobs@[id as int].retry_count == job.retry_count + (if may_pass {
                1int
            } else {
                0int
            })
            &&& forall|j: int|
                0 <= j < old(s).jobs@.len() && j != id ==> (#[trigger] final(s).jobs@[j]) == old(s).jobs@[j]
            &&& final(s).files@ == old(s).files@
            &&& blamed ==> final(p).states()[agent as int] == AgentState::Unhealthy
            &&& !blamed ==> final(p).states()[agent as int] == if old(p).states()[agent as int]
                == AgentState::Unhealthy {
                AgentState::Unhealthy
            } else {
                AgentState::Ready
            }
            &&& forall|i: int|
                0 <= i < old(p).agents@.len() && i != agent ==> #[trigger] final(p).states()[i]
                    == old(p).states()[i]
            &&& agent < old(t)@.agent_jobs.len() ==> final(t)@.agent_jobs == old(t)@.agent_jobs.update(agent as int, None)
            &&& final(t).files_completed == old(t).files_completed
            &&& final(t)@.log_events.len() >= 1 && final(t)@.log_events.last().is_error == !again
        }),
{
    let job = old(s).jobs@[id as int];
    let q = final(s).pending();
    if r == FailStep::Requeued {
        assert(q[old(s).queue@.len() as int] == id);
    } else {
        assert(q =~= old(s).pending());
        let kept = final(t)@.failed_files;
        assert(kept.drop_last() =~= old(t)@.failed_files);
    }
}

/// A file whose chunks are all marked is finished, however many there are, unless its last step was
/// taken already: a download is put in its place, and an upload is there. As long as a chunk is not
/// marked, nothing is done.
pub proof fn lemma_complete_file_is_finished(meta: FileMeta, direction: Direction)
    ensures
        (forall|i: int| 0 <= i < meta.completed_chunks@.len() ==> #[trigger] meta.completed_chunks@[i])
            && meta.finalize_result is None ==> done_step(meta, Direction::Download)
            == DoneStep::Finalize && done_step(meta, Direction::Upload) == DoneStep::Finished,
        (exists|i: int|
            0 <= i < meta.completed_chunks@.len() && !(#[trigger] meta.completed_chunks@[i]))
            || meta.finalize_result is Some ==> done_step(meta, direction) == DoneStep::Nothing,
{
}

/// What is done when a job is done: the agent is free again, and a file that is complete is put in
/// its place if it was downloaded, and is counted and remembered, once, if it was uploaded.
pub proof fn lemma_done_job_finishes_its_file(
    m: &mut FileMeta,
    direction: Direction,
    p: &mut AgentPool,
    t: &mut ProgressTracker,
    agent: usize,
    result: &JobResult,
    r: DoneStep,
)
    requires
        old(p).wf(),
        old(t).wf(),
        agent < old(p).agents@.len(),
        call_ensures(complete_job, (m, direction, p, t, agent, result), r),
    ensures
        ({
            let ready = (forall|i: int|
                0 <= i < old(m).completed_chunks@.len() ==> #[trigger] old(m).completed_chunks@[i])
                && old(m).finalize_result is None;
            &&& r == DoneStep::Finalize <==> ready && direction == Direction::Download
            &&& r == DoneStep::Finished <==> ready && direction == Direction::Upload
            &&& r == DoneStep::Finished ==> final(m).finalize_result is Some && (old(t).files_completed < u64::MAX ==> final(t).files_completed == old(t).files_completed + 1)
                && final(t)@.recent_files.len() >= 1 && final(t)@.recent_files.last().mode == old(m).mode && final(t)@.recent_files.last().mtime == old(m).mtime && final(t)@.recent_files.last().local_md5 == result.md5.deep_view() && final(t)@.recent_files.last().remote_md5 == result.md5.deep_view()
            &&& r != DoneStep::Finished ==> final(t).files_completed == old(t).files_completed
                && final(t)@.recent_files == old(t)@.recent_files && types::once(
                final(m).finalize_result,
            ) == types::once(old(m).finalize_result)
            &&& final(t).files_failed == old(t).files_failed
            &&& final(m).completed_chunks@ == old(m).completed_chunks@
            &&& final(p).states()[agent as int] == if old(p).states()[agent as int]
                == AgentState::Unhealthy {
                AgentState::Unhealthy
            } else {
                AgentState::Ready
            }
            &&& forall|i: int|
                0 <= i < old(p).agents@.len() && i != agent ==> #[trigger] final(p).states()[i]
                    == old(p).states()[i]
            &&& agent < old(t)@.agent_jobs.len() ==> final(t)@.agent_jobs == old(t)@.agent_jobs.update(agent as int, None)
        }),
{
    if r == DoneStep::Finished {
        let before = old(t)@.recent_files;
        assert(before.push(completion_of(*old(m), result.md5.deep_view())).last() == completion_of(
            *old(m),
            result.md5.deep_view(),
        ));
    }
}

/// A downloaded file that was put in its place is counted as completed; one that could not be is
/// counted as failed, with the reason. Never both.
pub proof fn lemma_finalized_file_is_counted_once(
    m: &FileMeta,
    t: &mut ProgressTracker,
    retries: u32,
    result: &JobResult,
    attempt: &Result<(), StrawsError>,
)
    requires
        old(t).wf(),
        old(t).files_completed < u64::MAX,
        old(t).files_failed < u64::MAX,
        call_ensures(finalized, (m, t, retries, result, attempt), ()),
    ensures
        final(t).files_completed + final(t).files_failed == old(t).files_completed + old(t).files_failed + 1,
        final(t).files_completed > old(t).files_completed <==> *attempt is Ok,
        match *attempt {
            Ok(_) => final(t)@.failed_files == old(t)@.failed_files && final(t)@.recent_files.last().local_md5 == result.md5.deep_view(),
            Err(e) => final(t)@.recent_files == old(t)@.recent_files && final(t)@.failed_files.last() == (FailedView {
                remote_path: m.remote_path@,
                local_path: m.local_path@,
                error: error::error_text(e@),
                retries,
            }),
        },
{
}

/// A job for which no agent can be had fails, with the file that it is about, and nothing else
/// changes.
pub proof fn lemma_job_without_an_agent_fails(
    s: &JobScheduler,
    t: &mut ProgressTracker,
    id: u64,
    aborted: bool,
)
    requires
        s.wf(),
        id < s.jobs@.len(),
        old(t).wf(),
        old(t).files_failed < u64::MAX,
        call_ensures(no_agent, (s, t, id, aborted), ()),
    ensures
        final(t).files_failed == old(t).files_failed + 1,
        final(t).files_completed == old(t).files_completed,
        final(t)@.failed_files.drop_last() == old(t)@.failed_files,
        final(t)@.failed_files.last().remote_path == s.files@[s.jobs@[id as int].file as int].remote_path@,
        final(t)@.failed_files.last().error == error::error_text(
            if aborted {
                ErrorView::Aborted
            } else {
                ErrorView::AllAgentsUnhealthy
            },
        ),
{
    assert(final(t)@.failed_files.drop_last() =~= old(t)@.failed_files);
}

/// A worker works as long as there is work: it stops only when the user wants that, or when it has
/// waited for a job, none came, and none will come; it waits only where there is no job; and the job
/// that it takes is the first one.
pub proof fn lemma_worker_works_while_there_is_work(
    s: &mut JobScheduler,
    aborted: bool,
    done: bool,
    waited: bool,
    r: WorkerStep,
)
    requires
        old(s).wf(),
        call_ensures(next_step, (s, aborted, done, waited), r),
    ensures
        r == WorkerStep::Stop ==> aborted || (done && waited && old(s).pending().len() == 0),
        r == WorkerStep::Wait ==> old(s).pending().len() == 0 && !aborted && !(done && waited),
        r matches WorkerStep::Run(id) ==> old(s).pending() == seq![id] + final(s).pending() && (
        !aborted || waited),
        !aborted && old(s).pending().len() > 0 ==> r is Run,
        waited && old(s).pending().len() > 0 ==> r is Run,
        aborted && !waited ==> r == WorkerStep::Stop,
        !(r is Run) ==> final(s).pending() == old(s).pending(),
        final(s).jobs@ == old(s).jobs@,
{
    if r is Run {
        assert(old(s).pending() =~= seq![r->Run_0] + final(s).pending());
    }
}

/// A worker that needs an agent gets the first that is free, waits while agents are at work, and
/// gives up only when the user wants to stop or no agent can be used any more.
pub proof fn lemma_worker_gets_a_free_agent(p: &mut AgentPool, aborted: bool, r: AgentStep)
    requires
        old(p).wf(),
        call_ensures(agent_step, (p, aborted), r),
    ensures
        ({
            let before = old(p).states();
            let after = final(p).states();
            &&& r matches AgentStep::Got(id) ==> !aborted && id < before.len() && before[id as int]
                == AgentState::Ready && after == before.update(id as int, AgentState::Busy) && (
            forall|i: int| 0 <= i < id ==> (#[trigger] before[i]) != AgentState::Ready)
            &&& !(r is Got) ==> after == before
            &&& !aborted && (exists|i: int|
                0 <= i < before.len() && (#[trigger] before[i]) == AgentState::Ready) ==> r is Got
            &&& r == AgentStep::GiveUp <==> aborted || (forall|i: int|
                0 <= i < before.len() ==> (#[trigger] before[i]) == AgentState::Unhealthy)
        }),
{
    let before = old(p).states();
    before.index_of_first_ensures(AgentState::Ready);
    pool::lemma_healthy_counts(before);
    if exists|i: int| 0 <= i < before.len() && (#[trigger] before[i]) == AgentState::Ready {
        let i = choose|i: int| 0 <= i < before.len() && (#[trigger] before[i]) == AgentState::Ready;
        assert(before.contains(before[i]));
    }
    if r is Got && !aborted {
        assert(before[r->Got_0 as int] == AgentState::Ready);
    }
}

/// What an agent is doing is shown while it does it, for this agent alone.
pub proof fn lemma_begun_job_is_shown(
    s: &JobScheduler,
    t: &mut ProgressTracker,
    id: u64,
    agent: usize,
)
    requires
        s.wf(),
        id < s.jobs@.len(),
        old(t).wf(),
        agent < old(t)@.agent_jobs.len(),
        call_ensures(begin_job, (s, t, id, agent), ()),
    ensures
        final(t)@.agent_jobs[agent as int] is Some,
        forall|i: int|
            0 <= i < old(t)@.agent_jobs.len() && i != agent ==> (#[trigger] final(t)@.agent_jobs[i])
                == old(t)@.agent_jobs[i],
        final(t).files_completed == old(t).files_completed,
        final(t).files_failed == old(t).files_failed,
{
}

/// The files under way are those that were begun and not finished, each once.
pub proof fn lemma_files_under_way(
    a: &mut ActiveFiles,
    b: &mut ActiveFiles,
    file: usize,
    other: usize,
)
    requires
        old(a).wf(),
        old(b).wf(),
        other != file,
        call_ensures(ActiveFiles::begin, (a, file), ()),
        call_ensures(ActiveFiles::finish, (b, file), ()),
    ensures
        final(a).files@.contains(file),
        final(a).files@.contains(other) <==> old(a).files@.contains(other),
        !final(b).files@.contains(file),
        final(b).files@.contains(other) <==> old(b).files@.contains(other),
        final(a).files@.no_duplicates() && final(b).files@.no_duplicates(),
{
    let s = old(a).files@;
    let u = s.push(file);
    assert(u[s.len() as int] == file);
    assert forall|f: usize| s.contains(f) implies u.contains(f) by {
        let k = choose|k: int| 0 <= k < s.len() && s[k] == f;
        assert(u[k] == f);
    }
    if u.contains(other) {
        let k = choose|k: int| 0 <= k < u.len() && u[k] == other;
        assert(s[k] == other);
    }
}

/// What is cleaned up after a stop are the files under way that are not complete, all of them and no
/// others.
pub proof fn lemma_half_done_files_are_cleaned(
    a: &ActiveFiles,
    s: &JobScheduler,
    r: Vec<usize>,
    file: usize,
)
    requires
        call_ensures(ActiveFiles::to_clean, (a, s), r),
    ensures
        r@.contains(file) <==> a.files@.contains(file) && !s.files@[file as int].complete(),
{
    let open = |f: usize| !s.files@[f as int].complete();
    lemma_filtered(a.files@, open, file);
}

proof fn lemma_filtered(v: Seq<usize>, keep: spec_fn(usize) -> bool, x: usize)
    ensures
        v.filter(keep).contains(x) <==> v.contains(x) && keep(x),
    decreases v.len(),
{
    reveal(Seq::filter);
    if v.len() > 0 {
        let front = v.drop_last();
        lemma_filtered(front, keep, x);
        let f = front.filter(keep);
        if v.contains(x) {
            let k = choose|k: int| 0 <= k < v.len() && v[k] == x;
            if k < front.len() {
                assert(front[k] == x);
            }
        }
        if front.contains(x) {
            let k = choose|k: int| 0 <= k < front.len() && front[k] == x;
            assert(v[k] == x);
        }
        assert(v[v.len() - 1] == v.last());
        if keep(v.last()) {
            let g = f.push(v.last());
            assert(g[f.len() as int] == v.last());
            if f.contains(x) {
                let k = choose|k: int| 0 <= k < f.len() && f[k] == x;
                assert(g[k] == x);
            }
            if g.contains(x) {
                let k = choose|k: int| 0 <= k < g.len() && g[k] == x;
                if k < f.len() {
                    assert(f[k] == x);
                }
            }
        }
    }
}

} // verus!
