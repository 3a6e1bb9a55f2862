//! Uploads: write requests in a pipeline, and what stands around them.

use std::collections::VecDeque;
use vstd::prelude::*;

use crate::agent::pool;
use crate::agent::pool::{AgentPool, PoolStep};
use crate::agent::protocol;
use crate::agent::protocol::{OpCode, Request, RequestView, Response};
use crate::agent::wire;
use crate::error;
use crate::error::{ErrorView, StrawsError};
use crate::job::chunks;
use crate::job::types;
use crate::job::types::{FileMeta, Job, JobResult};
use crate::progress::tracker::ProgressTracker;
use crate::transfer::io;
use crate::transfer::io::IO_BUFFER_SIZE;

verus! {

/// How many write requests are under way at most.
pub const PIPELINE_DEPTH: usize = 16;

/// How many write requests stay under way while the next ones are prepared.
pub const PIPELINE_FLOOR: usize = 8;

// ---------------------------------------------------------------------------
// The pipeline
// ---------------------------------------------------------------------------

/// What the pipeline is about.
#[derive(Debug, Clone, Copy, PartialEq, Eq, Structural)]
pub enum Phase {
    /// Reading the file and sending write requests.
    Filling,
    /// Waiting for responses.
    Draining,
}

/// What the pipeline needs next.
#[derive(Debug, Clone, Copy, PartialEq, Eq, Structural)]
pub enum UploadAction {
    /// Read so many bytes of the file, at most.
    Read(usize),
    /// See that everything sent so far is on its way.
    Flush,
    /// Wait for the next response.
    Await,
    /// Nothing: the range is done.
    Finished,
}

/// A range of a file on its way to an agent.
pub struct UploadPipeline {
    start: u64,
    length: u64,
    offset: u64,
    remaining: u64,
    pending: VecDeque<u64>,
    done_reading: bool,
    total_written: u64,
    phase: Phase,
}

/// The state of a pipeline.
pub struct PipelineView {
    /// Where the range begins.
    pub start: nat,
    /// How long the range is.
    pub length: nat,
    /// How much of the range was not sent yet.
    pub remaining: nat,
    /// The lengths of the writes under way, the oldest first.
    pub pending: Seq<u64>,
    /// Whether the range, or the file, has come to its end.
    pub done_reading: bool,
    /// How many bytes the agent has written.
    pub written: nat,
    pub phase: Phase,
}

/// The sum of lengths.
pub open spec fn sum(lengths: Seq<u64>) -> nat
    decreases lengths.len(),
{
    if lengths.len() == 0 {
        0
    } else {
        lengths.first() as nat + sum(lengths.drop_first())
    }
}

proof fn lemma_sum_push(lengths: Seq<u64>, n: u64)
    ensures
        sum(lengths.push(n)) == sum(lengths) + n,
    decreases lengths.len(),
{
    let p = lengths.push(n);
    if lengths.len() == 0 {
        assert(p.drop_first() =~= Seq::<u64>::empty());
        assert(sum(p.drop_first()) == 0);
    } else {
        assert(p.drop_first() =~= lengths.drop_first().push(n));
        lemma_sum_push(lengths.drop_first(), n);
    }
}

impl PipelineView {
    /// What is left, what is under way and what is written make up the range, and no more writes
    /// are under way than the pipeline holds.
    pub open spec fn wf(self) -> bool {
        &&& self.written + sum(self.pending) + self.remaining == self.length
        &&& self.start + self.length <= u64::MAX
        &&& self.pending.len() <= PIPELINE_DEPTH
    }

    /// Where the next piece of the range is written.
    pub open spec fn offset(self) -> nat {
        (self.start + self.length - self.remaining) as nat
    }

    /// How many writes stay under way while responses are awaited: half of what the pipeline holds
    /// as long as there is more to read, and then none.
    pub open spec fn floor(self) -> nat {
        if self.done_reading {
            0
        } else {
            PIPELINE_FLOOR as nat
        }
    }

    /// Responses are awaited.
    pub open spec fn awaits(self) -> bool {
        self.phase == Phase::Draining && self.pending.len() > self.floor()
    }

    /// There is room for another write, and more may be read.
    pub open spec fn has_room(self) -> bool {
        !self.awaits() && !self.done_reading && self.pending.len() < PIPELINE_DEPTH
    }

    /// The next piece of the file is read.
    pub open spec fn reads(self) -> bool {
        self.has_room() && self.remaining > 0
    }

    /// How many bytes are read next, at most.
    pub open spec fn wants(self) -> nat {
        if self.remaining < IO_BUFFER_SIZE {
            self.remaining
        } else {
            IO_BUFFER_SIZE as nat
        }
    }

    /// What is needed next. The pipeline is filled, then flushed, then drained to its floor, again
    /// and again, until everything is read and answered.
    pub open spec fn action(self) -> UploadAction {
        if self.awaits() {
            UploadAction::Await
        } else if self.reads() {
            UploadAction::Read(self.wants() as usize)
        } else if self.pending.len() > 0 {
            UploadAction::Flush
        } else {
            UploadAction::Finished
        }
    }

    /// The state in which the next action is taken.
    pub open spec fn turned(self) -> PipelineView {
        PipelineView {
            phase: if self.awaits() || !self.reads() {
                Phase::Draining
            } else {
                Phase::Filling
            },
            done_reading: self.done_reading || (self.has_room() && self.remaining == 0),
            ..self
        }
    }

    /// The state after a piece of so many bytes was read and sent; nothing read is the end of the
    /// file.
    pub open spec fn fed(self, n: nat) -> PipelineView {
        if n == 0 {
            PipelineView { done_reading: true, ..self }
        } else {
            PipelineView {
                remaining: (self.remaining - n) as nat,
                pending: self.pending.push(n as u64),
                ..self
            }
        }
    }

    /// The state after the oldest write was answered.
    pub open spec fn answered(self, success: bool) -> PipelineView {
        PipelineView {
            pending: self.pending.drop_first(),
            written: if success {
                self.written + self.pending.first() as nat
            } else {
                self.written
            },
            ..self
        }
    }
}

impl View for UploadPipeline {
    type V = PipelineView;

    closed spec fn view(&self) -> PipelineView {
        PipelineView {
            start: self.start as nat,
            length: self.length as nat,
            remaining: self.remaining as nat,
            pending: self.pending@,
            done_reading: self.done_reading,
            written: self.total_written as nat,
            phase: self.phase,
        }
    }
}

/// What is made of a response that reports a failure.
pub open spec fn refusal(message: Seq<char>) -> ErrorView {
    ErrorView::Remote(message)
}

impl UploadPipeline {
    /// The fields agree with each other.
    pub closed spec fn wf(self) -> bool {
        &&& self@.wf()
        &&& self.offset == self@.offset()
    }

    /// The pipeline for a range of which nothing was sent yet.
    pub fn new(start: u64, length: u64) -> (r: Self)
        requires
            start + length <= u64::MAX,
        ensures
            r.wf(),
            r@ == (PipelineView {
                start: start as nat,
                length: length as nat,
                remaining: length as nat,
                pending: Seq::empty(),
                done_reading: false,
                written: 0,
                phase: Phase::Filling,
            }),
    {
        UploadPipeline {
            start,
            length,
            offset: start,
            remaining: length,
            pending: VecDeque::new(),
            done_reading: false,
            total_written: 0,
            phase: Phase::Filling,
        }
    }

    /// What is needed next.
    pub fn next_action(&mut self) -> (r: UploadAction)
        requires
            old(self).wf(),
        ensures
            final(self).wf(),
            r == old(self)@.action(),
            final(self)@ == old(self)@.turned(),
    {
        let under_way: usize = self.pending.len();
        let floor: usize = if self.done_reading {
            0
        } else {
            PIPELINE_FLOOR
        };
        let draining: bool = match self.phase {
            Phase::Draining => true,
            Phase::Filling => false,
        };
        if draining && under_way > floor {
            return UploadAction::Await;
        }
        if !self.done_reading && under_way < PIPELINE_DEPTH {
            if self.remaining > 0 {
                self.phase = Phase::Filling;
                let wanted: usize = if self.remaining < IO_BUFFER_SIZE as u64 {
                    self.remaining as usize
                } else {
                    IO_BUFFER_SIZE
                };
                return UploadAction::Read(wanted);
            }
            self.done_reading = true;
        }
        self.phase = Phase::Draining;
        if under_way > 0 {
            UploadAction::Flush
        } else {
            UploadAction::Finished
        }
    }

    /// Takes the bytes that were read, and gives back the write request to be sent for them: none
    /// at the end of the file.
    pub fn take_data(&mut self, remote_path: &str, data: Vec<u8>) -> (r: Option<Request>)
        requires
            old(self).wf(),
            old(self)@.reads(),
            data@.len() <= old(self)@.wants(),
        ensures
            final(self).wf(),
            final(self)@ == old(self)@.fed(data@.len()),
            match r {
                None => data@.len() == 0,
                Some(request) => data@.len() > 0 && request@ == write_request(
                    remote_path@,
                    old(self)@.offset(),
                    data@,
                ),
            },
    {
        let n: u64 = data.len() as u64;
        if n == 0 {
            self.done_reading = true;
            return None;
        }
        let ghost before = self@;
        let request = Request::write(remote_path, self.offset, data);
        self.pending.push_back(n);
        self.remaining = self.remaining - n;
        self.offset = self.offset + n;
        proof {
            lemma_sum_push(before.pending, n);
        }
        Some(request)
    }

    /// Takes the response to the oldest write under way, and gives back how many bytes it wrote.
    pub fn take_response(&mut self, response: &Response) -> (r: Result<u64, StrawsError>)
        requires
            old(self).wf(),
            old(self)@.awaits(),
        ensures
            final(self)@ == old(self)@.answered(
                response@.status == protocol::ResponseStatus::Success,
            ),
            match r {
                Ok(n) => response@.status == protocol::ResponseStatus::Success && n == old(self)@.pending.first() && final(self).wf(),
                Err(e) => response@.status == protocol::ResponseStatus::Error && e@ == refusal(
                    wire::lossy_text(response@.data),
                ),
            },
    {
        let ghost before = self@;
        let sent: u64 = match self.pending.pop_front() {
            Some(n) => n,
            None => 0,
        };
        proof {
            assert(self.pending@ =~= before.pending.drop_first());
        }
        match response.error_message() {
            Some(message) => Err(StrawsError::Remote(message)),
            None => {
                self.total_written = self.total_written + sent;
                Ok(sent)
            },
        }
    }

    /// How many bytes the oldest write under way has, if there is one.
    pub fn oldest_write(&self) -> (r: Option<u64>)
        ensures
            r == if self@.pending.len() > 0 {
                Some(self@.pending.first())
            } else {
                None
            },
    {
        if self.pending.len() > 0 {
            Some(self.pending[0])
        } else {
            None
        }
    }

    /// How many bytes the agent has written.
    pub fn total_written(&self) -> (r: u64)
        ensures
            r == self@.written,
    {
        self.total_written
    }
}

// ---------------------------------------------------------------------------
// What stands around the pipeline
// ---------------------------------------------------------------------------

/// What is kept of the attempt to lay out the remote file.
pub open spec fn truncate_outcome(reply: Result<Response, StrawsError>) -> Result<(), Seq<char>> {
    match reply {
        Err(e) => Err(error::error_text(e@)),
        Ok(response) => match protocol::complaint(response@) {
            Some(message) => Err(error::error_text(ErrorView::Remote(message))),
            None => Ok(()),
        },
    }
}

/// The request that lays out the remote file, unless another job has seen to it already.
pub fn truncate_request(meta: &FileMeta) -> (r: Option<Request>)
    ensures
        match r {
            Some(request) => meta.truncate_result is None && request@ == protocol::plain_request(
                OpCode::Truncate,
                meta.remote_path@,
                0,
                meta.size,
            ),
            None => meta.truncate_result is Some,
        },
{
    if meta.truncate_attempted() {
        None
    } else {
        Some(Request::truncate(meta.remote_path.as_str(), meta.size))
    }
}

/// Keeps the outcome of laying out the remote file. The first outcome counts for every job of the
/// file; without a reply, the one that is there.
pub fn truncated(meta: &mut FileMeta, reply: Option<Result<Response, StrawsError>>) -> (r: Result<
    (),
    StrawsError,
>)
    requires
        reply is None ==> old(meta).truncate_result is Some,
    ensures
        types::once(final(meta).truncate_result) == match types::once(old(meta).truncate_result) {
            Some(o) => Some(o),
            None => Some(truncate_outcome(reply.unwrap())),
        },
        match types::once(final(meta).truncate_result).unwrap() {
            Ok(_) => r is Ok,
            Err(m) => r matches Err(e) && e@ == ErrorView::Remote(m),
        },
        final(meta).same_file(*old(meta)),
        final(meta).same_progress(*old(meta)),
        types::once(final(meta).prealloc_result) == types::once(old(meta).prealloc_result),
        types::once(final(meta).finalize_result) == types::once(old(meta).finalize_result),
        old(meta).wf() ==> final(meta).wf(),
{
    let attempt: Result<(), String> = match reply {
        None => Ok(()),
        Some(Err(e)) => Err(e.message()),
        Some(Ok(response)) => match response.error_message() {
            Some(message) => Err(StrawsError::Remote(message).message()),
            None => Ok(()),
        },
    };
    match meta.store_truncate_result(attempt) {
        Ok(_) => Ok(()),
        Err(m) => Err(StrawsError::Remote(m)),
    }
}

/// The chunk of the file that a job moves; a file that is not cut has chunk zero alone.
pub open spec fn chunk_moved(job: Job) -> u32 {
    match job.chunk_index {
        Some(i) => i,
        None => 0,
    }
}

/// The marks of a file when the range of a job went over: its chunk is marked, unless digests are
/// still to be compared.
pub open spec fn marks_when_moved(marks: Seq<bool>, job: Job) -> Seq<bool> {
    if job.verify_md5 {
        marks
    } else {
        types::mark(marks, chunk_moved(job))
    }
}

/// The marks of a file when the digests of a job were compared: its chunk is marked if they agree.
pub open spec fn marks_when_checked(
    marks: Seq<bool>,
    job: Job,
    check: Result<(), ErrorView>,
) -> Seq<bool> {
    match check {
        Ok(_) => types::mark(marks, chunk_moved(job)),
        Err(_) => marks,
    }
}

/// Marks the chunk that a job moved.
pub fn mark_moved(meta: &mut FileMeta, job: &Job)
    ensures
        final(meta).completed_chunks@ == types::mark(
            old(meta).completed_chunks@,
            chunk_moved(*job),
        ),
        final(meta).bytes_transferred == old(meta).bytes_transferred,
        final(meta).same_file(*old(meta)),
        final(meta).same_steps(*old(meta)),
        old(meta).wf() ==> final(meta).wf(),
{
    let i: u32 = match job.chunk_index {
        Some(i) => i,
        None => 0,
    };
    meta.mark_chunk_complete(i);
}

/// The request for the digest of the range that a job moved.
pub fn digest_request(meta: &FileMeta, job: &Job) -> (r: Request)
    ensures
        r@ == protocol::plain_request(
            OpCode::Md5,
            meta.remote_path@,
            job.offset,
            job.length,
        ),
{
    Request::md5(meta.remote_path.as_str(), job.offset, job.length)
}

/// What the digests of the two sides make of an upload: the digest that both have, or a failure.
pub open spec fn upload_check(
    path: Seq<char>,
    local_md5: Seq<char>,
    reply: protocol::ResponseView,
) -> Result<(), ErrorView> {
    match protocol::complaint(reply) {
        Some(message) => Err(refusal(message)),
        None => io::digest_outcome(path, local_md5, wire::lossy_text(reply.data)),
    }
}

/// Compares the digest of the local range with the one that the agent reports.
pub fn verify_upload(meta: &FileMeta, local_md5: &str, reply: &Response) -> (r: Result<
    (),
    StrawsError,
>)
    ensures
        match r {
            Ok(_) => upload_check(meta.remote_path@, local_md5@, reply@) == Ok::<(), ErrorView>(()),
            Err(e) => upload_check(meta.remote_path@, local_md5@, reply@) == Err::<(), ErrorView>(
                e@,
            ),
        },
{
    match reply.error_message() {
        Some(message) => Err(StrawsError::Remote(message)),
        None => {
            let remote_md5 = wire::lossy(reply.data.as_slice());
            io::compare_digests(meta.remote_path.as_str(), local_md5, remote_md5.as_str())
        },
    }
}

// ---------------------------------------------------------------------------
// The whole job
// ---------------------------------------------------------------------------

/// What is due next in an upload.
#[derive(Debug, Clone, Copy, PartialEq, Eq, Structural)]
pub enum UploadStep {
    /// The remote file is laid out.
    Truncate,
    /// The range goes through the pipeline.
    Pipeline,
    /// The digest of the local range is computed.
    LocalDigest,
    /// The digest of the remote range is asked for.
    RemoteDigest,
    /// Nothing: the job is done.
    Done,
}

/// An upload: the remote file is laid out, the range is sent, and, if that was asked for, the
/// digests of both sides are compared.
pub struct UploadJob {
    pub step: UploadStep,
    pub pipeline: UploadPipeline,
    /// The digest of the local range, where it was computed.
    pub md5: Option<String>,
}

impl UploadJob {
    /// The upload of the range of a job.
    pub fn new(job: &Job) -> (r: Self)
        requires
            job.offset + job.length <= u64::MAX,
        ensures
            r.step == UploadStep::Truncate,
            r.pipeline.wf(),
            r.pipeline@ == (PipelineView {
                start: job.offset as nat,
                length: job.length as nat,
                remaining: job.length as nat,
                pending: Seq::empty(),
                done_reading: false,
                written: 0,
                phase: Phase::Filling,
            }),
            r.md5 is None,
    {
        UploadJob {
            step: UploadStep::Truncate,
            pipeline: UploadPipeline::new(job.offset, job.length),
            md5: None,
        }
    }

    /// The remote file was laid out, by this job or by another one.
    pub fn laid_out(
        &mut self,
        meta: &mut FileMeta,
        reply: Option<Result<Response, StrawsError>>,
    ) -> (r: Result<(), StrawsError>)
        requires
            old(self).step == UploadStep::Truncate,
            reply is None ==> old(meta).truncate_result is Some,
        ensures
            types::once(final(meta).truncate_result) == match types::once(
                old(meta).truncate_result,
            ) {
                Some(o) => Some(o),
                None => Some(truncate_outcome(reply.unwrap())),
            },
            match types::once(final(meta).truncate_result).unwrap() {
                Ok(_) => r is Ok && final(self).step == UploadStep::Pipeline,
                Err(m) => r matches Err(e) && e@ == ErrorView::Remote(m) && final(self).step
                    == UploadStep::Truncate,
            },
            final(self).pipeline == old(self).pipeline,
            final(self).md5 == old(self).md5,
            final(meta).same_file(*old(meta)),
            final(meta).same_progress(*old(meta)),
            types::once(final(meta).prealloc_result) == types::once(old(meta).prealloc_result),
            types::once(final(meta).finalize_result) == types::once(old(meta).finalize_result),
            old(meta).wf() ==> final(meta).wf(),
    {
        match truncated(meta, reply) {
            Ok(_) => {
                self.step = UploadStep::Pipeline;
                Ok(())
            },
            Err(e) => Err(e),
        }
    }

    /// Takes the response to the oldest write under way: what was written is counted for the file
    /// and for the display. An agent that refuses a write is given up, since other writes are still
    /// under way.
    pub fn answered(
        &mut self,
        response: &Response,
        meta: &mut FileMeta,
        tracker: &mut ProgressTracker,
        pool: &mut AgentPool,
        agent: usize,
        now: u64,
    ) -> (r: Result<u64, StrawsError>)
        requires
            old(self).step == UploadStep::Pipeline,
            old(self).pipeline.wf(),
            old(self).pipeline@.awaits(),
            old(tracker).wf(),
            old(tracker).speed_tracker.total_bytes + old(self).pipeline@.pending.first()
                <= u64::MAX,
            old(pool).wf(),
            agent < old(pool).agents@.len(),
        ensures
            final(self).step == old(self).step,
            final(self).md5 == old(self).md5,
            final(self).pipeline@ == old(self).pipeline@.answered(
                response@.status == protocol::ResponseStatus::Success,
            ),
            final(tracker).wf(),
            final(pool).wf(),
            match r {
                Ok(n) => {
                    &&& response@.status == protocol::ResponseStatus::Success
                    &&& n == old(self).pipeline@.pending.first()
                    &&& final(self).pipeline.wf()
                    &&& final(meta).bytes_transferred == old(meta).bytes_transferred.wrapping_add(n)
                    &&& final(tracker)@ == old(tracker)@.received(n, now)
                    &&& *final(pool) == *old(pool)
                },
                Err(e) => {
                    &&& response@.status == protocol::ResponseStatus::Error
                    &&& e@ == refusal(wire::lossy_text(response@.data))
                    &&& final(meta).bytes_transferred == old(meta).bytes_transferred
                    &&& final(tracker)@ == old(tracker)@
                    &&& final(pool).same_agents(*old(pool))
                    &&& final(pool).states() == pool::stepped(
                        old(pool).states(),
                        PoolStep::GiveUp(agent as int),
                    )
                },
            },
            final(meta).completed_chunks@ == old(meta).completed_chunks@,
            final(meta).same_file(*old(meta)),
            final(meta).same_steps(*old(meta)),
            old(meta).wf() ==> final(meta).wf(),
    {
        match self.pipeline.take_response(response) {
            Ok(n) => {
                meta.add_bytes(n);
                tracker.add_bytes(n, now);
                Ok(n)
            },
            Err(e) => {
                pool.mark_unhealthy(agent);
                Err(e)
            },
        }
    }

    /// The range was sent and answered: its chunk is marked, unless the job asks for digests, which
    /// come next.
    pub fn sent(&mut self, meta: &mut FileMeta, job: &Job)
        requires
            old(self).step == UploadStep::Pipeline,
            old(self).pipeline@.action() == UploadAction::Finished,
        ensures
            final(self).step == if job.verify_md5 {
                UploadStep::LocalDigest
            } else {
                UploadStep::Done
            },
            final(self).pipeline == old(self).pipeline,
            final(self).md5 == old(self).md5,
            final(meta).completed_chunks@ == marks_when_moved(old(meta).completed_chunks@, *job),
            final(meta).bytes_transferred == old(meta).bytes_transferred,
            final(meta).same_file(*old(meta)),
            final(meta).same_steps(*old(meta)),
            old(meta).wf() ==> final(meta).wf(),
    {
        if job.verify_md5 {
            self.step = UploadStep::LocalDigest;
        } else {
            mark_moved(meta, job);
            self.step = UploadStep::Done;
        }
    }

    /// The digest of the local range was computed.
    pub fn digested(&mut self, local_md5: String)
        requires
            old(self).step == UploadStep::LocalDigest,
        ensures
            final(self).step == UploadStep::RemoteDigest,
            final(self).pipeline == old(self).pipeline,
            final(self).md5 == Some(local_md5),
    {
        self.md5 = Some(local_md5);
        self.step = UploadStep::RemoteDigest;
    }

    /// The agent reported the digest of the remote range: the chunk is marked if the digests agree.
    pub fn compared(&mut self, meta: &mut FileMeta, job: &Job, reply: &Response) -> (r: Result<
        (),
        StrawsError,
    >)
        requires
            old(self).step == UploadStep::RemoteDigest,
            old(self).md5 is Some,
        ensures
            ({
                let check = upload_check(
                    old(meta).remote_path@,
                    old(self).md5.unwrap()@,
                    reply@,
                );
                &&& match r {
                    Ok(_) => check == Ok::<(), ErrorView>(()) && final(self).step
                        == UploadStep::Done,
                    Err(e) => check == Err::<(), ErrorView>(e@) && final(self).step
                        == UploadStep::RemoteDigest,
                }
                &&& final(meta).completed_chunks@ == marks_when_checked(
                    old(meta).completed_chunks@,
                    *job,
                    check,
                )
            }),
            final(self).pipeline == old(self).pipeline,
            final(self).md5 == old(self).md5,
            final(meta).bytes_transferred == old(meta).bytes_transferred,
            final(meta).same_file(*old(meta)),
            final(meta).same_steps(*old(meta)),
            old(meta).wf() ==> final(meta).wf(),
    {
        let checked: Result<(), StrawsError> = match &self.md5 {
            Some(local_md5) => verify_upload(meta, local_md5.as_str(), reply),
            None => Ok(()),
        };
        match checked {
            Ok(_) => {
                mark_moved(meta, job);
                self.step = UploadStep::Done;
                Ok(())
            },
            Err(e) => Err(e),
        }
    }

    /// What the job reports: what the agent has written, and the digest that both sides have.
    pub fn result(self, job: &Job) -> (r: JobResult)
        requires
            self.step == UploadStep::Done,
        ensures
            r.job_id == job.id,
            r.success,
            r.bytes_transferred == self.pipeline@.written,
            r.md5 == self.md5,
            r.error is None,
    {
        JobResult::success(job.id, self.pipeline.total_written(), self.md5)
    }
}

// ---------------------------------------------------------------------------
// Laws
// ---------------------------------------------------------------------------

/// What holds of the state of a pipeline whose fields agree with each other.
pub proof fn lemma_wf(p: UploadPipeline)
    requires
        p.wf(),
    ensures
        p@.wf(),
{
}

/// Where digests are asked for, the chunk of an upload is marked exactly if the agent reports the
/// digest that the local range has, and no other chunk is marked.
pub proof fn lemma_marked_if_digests_agree(
    marks: Seq<bool>,
    job: Job,
    path: Seq<char>,
    local_md5: Seq<char>,
    reply: protocol::ResponseView,
    i: int,
)
    requires
        job.verify_md5,
        0 <= i < marks.len(),
        !marks[i],
    ensures
        ({
            let check = upload_check(path, local_md5, reply);
            marks_when_checked(marks_when_moved(marks, job), job, check)[i] <==> i == chunk_moved(
                job,
            ) && reply.status == protocol::ResponseStatus::Success && wire::lossy_text(reply.data)
                == local_md5
        }),
{
}

/// A pipeline that is finished has nothing under way: what was sent is written, and if the file did
/// not end early, that is the whole range.
pub proof fn lemma_finished_is_written(p: PipelineView)
    requires
        p.wf(),
        p.action() == UploadAction::Finished,
    ensures
        p.pending.len() == 0,
        p.turned().done_reading,
        p.start + p.written == p.offset(),
        p.remaining == 0 ==> p.written == p.length,
{
    assert(sum(p.pending) == 0);
}

/// Never are more writes under way than the pipeline holds, whatever is read or answered next.
pub proof fn lemma_pipeline_stays_bounded(p: PipelineView, n: nat)
    requires
        p.wf(),
        n <= p.wants(),
    ensures
        p.turned().wf(),
        p.reads() ==> p.fed(n).wf(),
        p.awaits() ==> p.answered(true).wf(),
{
    if p.reads() && n > 0 {
        lemma_sum_push(p.pending, n as u64);
    }
}

/// What is left to be done in a pipeline: it shrinks with every piece that is read, with the end of
/// the file, and with every response.
pub open spec fn work_left(p: PipelineView) -> nat {
    2 * p.remaining + p.pending.len() + (if p.done_reading {
        0nat
    } else {
        1nat
    })
}

/// A pipeline comes to its end: every piece that is read, the end of the file and every response
/// leave less to be done, and a flush is followed by a response.
pub proof fn lemma_pipeline_comes_to_its_end(p: PipelineView, n: nat, success: bool)
    requires
        p.wf(),
        n <= p.wants(),
    ensures
        work_left(p.turned()) <= work_left(p),
        p.reads() ==> work_left(p.fed(n)) < work_left(p),
        p.awaits() ==> work_left(p.answered(success)) < work_left(p),
        p.action() == UploadAction::Flush ==> p.turned().action() == UploadAction::Await,
{
}

/// The write request for a piece.
pub open spec fn write_request(path: Seq<char>, offset: nat, data: Seq<u8>) -> RequestView {
    RequestView {
        op: OpCode::Write,
        path,
        offset: offset as u64,
        length: data.len() as u64,
        data: Some(data),
    }
}

/// The write requests for the pieces of a range that begins at `start`.
pub open spec fn write_requests(path: Seq<char>, start: nat, pieces: Seq<Seq<u8>>) -> Seq<
    RequestView,
>
    decreases pieces.len(),
{
    if pieces.len() == 0 {
        Seq::empty()
    } else {
        write_requests(path, start, pieces.drop_last()).push(
            write_request(
                path,
                start + chunks::run(pieces.drop_last()).len(),
                pieces.last(),
            ),
        )
    }
}

/// A file after write requests were carried out on it.
pub open spec fn carried_out(file: Seq<u8>, requests: Seq<RequestView>) -> Seq<u8>
    decreases requests.len(),
{
    if requests.len() == 0 {
        file
    } else {
        chunks::placed(
            carried_out(file, requests.drop_last()),
            requests.last().offset as nat,
            protocol::payload(requests.last()),
        )
    }
}

/// The write requests of an upload put the range into the remote file at its place, whatever pieces
/// it was read in.
pub proof fn lemma_upload_writes_the_range(
    file: Seq<u8>,
    path: Seq<char>,
    start: nat,
    pieces: Seq<Seq<u8>>,
)
    requires
        start + chunks::run(pieces).len() <= u64::MAX,
    ensures
        carried_out(file, write_requests(path, start, pieces)) == chunks::placed(
            file,
            start,
            chunks::run(pieces),
        ),
{
    lemma_carried_out(file, path, start, pieces);
    chunks::lemma_pieces_make_the_range(file, start, pieces);
}

proof fn lemma_carried_out(file: Seq<u8>, path: Seq<char>, start: nat, pieces: Seq<Seq<u8>>)
    requires
        start + chunks::run(pieces).len() <= u64::MAX,
    ensures
        carried_out(file, write_requests(path, start, pieces)) == chunks::placed_run(
            file,
            start,
            pieces,
        ),
    decreases pieces.len(),
{
    if pieces.len() > 0 {
        let front = pieces.drop_last();
        lemma_carried_out(file, path, start, front);
        let requests = write_requests(path, start, pieces);
        assert(requests.drop_last() =~= write_requests(path, start, front));
    }
}

/// A pipeline that was fed pieces, one after the other, and that sent each of them, has sent the
/// requests for the range, and the next piece goes right behind them.
pub proof fn lemma_pipeline_sends_the_range(
    path: Seq<char>,
    p: PipelineView,
    pieces: Seq<Seq<u8>>,
    next: Seq<u8>,
)
    requires
        p.wf(),
        p.reads(),
        0 < next.len() <= p.wants(),
        p.offset() == p.start + chunks::run(pieces).len(),
    ensures
        write_requests(path, p.start, pieces.push(next)) == write_requests(
            path,
            p.start,
            pieces,
        ).push(write_request(path, p.offset(), next)),
        p.fed(next.len()).offset() == p.start + chunks::run(pieces.push(next)).len(),
{
    assert(pieces.push(next).drop_last() =~= pieces);
}

// ---------------------------------------------------------------------------
// Laws: the course of an upload
// ---------------------------------------------------------------------------

/// When the pipeline does what. It reads as much as it can at a time, 512 KiB at most; it goes on
/// reading until sixteen writes are under way or nothing is left to read; then it waits for answers
/// until half of them are in, or all where nothing is left to read; and it is finished exactly when
/// everything was read and answered.
pub proof fn lemma_pipeline_keeps_writes_under_way(p: PipelineView)
    requires
        p.wf(),
    ensures
        p.wants() <= p.remaining && p.wants() <= 524_288,
        p.wants() == p.remaining || p.wants() == 524_288,
        p.action() == UploadAction::Finished <==> p.pending.len() == 0 && (p.done_reading
            || p.remaining == 0),
        p.action() is Read ==> p.action() == UploadAction::Read(p.wants() as usize) && p.wants() > 0
            && !p.done_reading && p.pending.len() < 16,
        p.action() == UploadAction::Await ==> p.pending.len() > 0,
        p.phase == Phase::Filling && !p.done_reading && p.remaining > 0 && p.pending.len() < 16
            ==> p.action() is Read,
        p.phase == Phase::Filling && p.action() == UploadAction::Flush ==> p.done_reading
            || p.remaining == 0 || p.pending.len() >= 16,
        p.phase == Phase::Draining && !p.done_reading ==> (p.action() == UploadAction::Await
            <==> p.pending.len() > 8),
        p.phase == Phase::Draining && p.done_reading ==> (p.action() == UploadAction::Await
            <==> p.pending.len() > 0),
{
}

/// What a piece or an answer does to a pipeline. A piece is sent right behind the one before it;
/// nothing read is the end of the file; an answer takes the oldest write off, and counts it if it
/// succeeded.
pub proof fn lemma_pieces_and_answers(
    a: &mut UploadPipeline,
    path: &str,
    data: Vec<u8>,
    r: Option<Request>,
    b: &mut UploadPipeline,
    response: &Response,
    q: Result<u64, StrawsError>,
    done: &UploadPipeline,
    total: u64,
    oldest: Option<u64>,
)
    requires
        old(a).wf(),
        old(a)@.reads(),
        data@.len() <= old(a)@.wants(),
        old(b).wf(),
        old(b)@.awaits(),
        call_ensures(UploadPipeline::take_data, (a, path, data), r),
        call_ensures(UploadPipeline::take_response, (b, response), q),
        call_ensures(UploadPipeline::total_written, (done,), total),
        call_ensures(UploadPipeline::oldest_write, (done,), oldest),
    ensures
        r is None <==> data@.len() == 0,
        r matches Some(w) ==> {
            &&& w@.op == OpCode::Write && w@.path == path@ && w@.data == Some(data@)
            &&& w@.offset == old(a)@.start + (old(a)@.length - old(a)@.remaining)
            &&& w@.length == data@.len()
            &&& final(a)@.remaining == old(a)@.remaining - data@.len()
            &&& final(a)@.pending == old(a)@.pending + seq![data@.len() as u64]
            &&& final(a)@.written == old(a)@.written && final(a)@.done_reading == old(a)@.done_reading
        },
        r is None ==> final(a)@.done_reading && final(a)@.pending == old(a)@.pending && final(a)@.remaining == old(a)@.remaining,
        q is Ok <==> response.status == protocol::ResponseStatus::Success,
        old(b)@.pending == seq![old(b)@.pending[0]] + final(b)@.pending,
        q matches Ok(n) ==> n == old(b)@.pending[0] && final(b)@.written == old(b)@.written + n,
        q matches Err(e) ==> e@ == ErrorView::Remote(wire::lossy_text(response.data@)) && final(b)@.written == old(b)@.written,
        total == done@.written,
        oldest is None <==> done@.pending.len() == 0,
        oldest matches Some(n) ==> n == done@.pending[0],
{
    lemma_wf(*old(a));
    lemma_wf(*old(b));
    if r is Some {
        assert(old(a)@.pending.push(data@.len() as u64) =~= old(a)@.pending + seq![
            data@.len() as u64,
        ]);
    }
    assert(old(b)@.pending =~= seq![old(b)@.pending[0]] + old(b)@.pending.drop_first());
}

/// The remote file is laid out once, as long as the file is, before the first job writes to it, and
/// what came of that counts for all jobs.
pub proof fn lemma_remote_file_is_laid_out_once(
    m: &FileMeta,
    r: Option<Request>,
    n: &mut FileMeta,
    reply: Option<Result<Response, StrawsError>>,
    q: Result<(), StrawsError>,
)
    requires
        reply is None ==> old(n).truncate_result is Some,
        call_ensures(truncate_request, (m,), r),
        call_ensures(truncated, (n, reply), q),
    ensures
        r is Some <==> m.truncate_result is None,
        r matches Some(t) ==> t@.op == OpCode::Truncate && t@.path == m.remote_path@ && t@.length
            == m.size,
        final(n).truncate_result is Some,
        old(n).truncate_result matches Some(o) ==> (q is Ok <==> o is Ok),
        old(n).truncate_result is None ==> (q is Ok <==> (reply matches Some(Ok(a)) && a.status
            == protocol::ResponseStatus::Success)),
        final(n).completed_chunks@ == old(n).completed_chunks@,
{
    assert(types::once(final(n).truncate_result) is Some);
}

/// The digest that is asked for is of the range that the job moved.
pub proof fn lemma_digest_is_of_the_range(m: &FileMeta, job: &Job, r: Request)
    requires
        call_ensures(digest_request, (m, job), r),
    ensures
        r@.op == OpCode::Md5 && r@.path == m.remote_path@,
        r@.offset == job.offset && r@.length == job.length,
{
}

/// Digests that differ are a failure that names the file and both digests; digests that are the same
/// are none; and a complaint of the agent is handed on.
pub proof fn lemma_upload_digests_are_compared(
    m: &FileMeta,
    local: &str,
    reply: &Response,
    r: Result<(), StrawsError>,
)
    requires
        call_ensures(verify_upload, (m, local, reply), r),
    ensures
        reply.status == protocol::ResponseStatus::Success ==> (r is Ok <==> local@
            == wire::lossy_text(reply.data@)),
        reply.status == protocol::ResponseStatus::Success && r is Err ==> r->Err_0@
            == (ErrorView::Md5Mismatch {
            path: m.remote_path@,
            expected: local@,
            actual: wire::lossy_text(reply.data@),
        }),
        reply.status == protocol::ResponseStatus::Error ==> r is Err && r->Err_0@
            == ErrorView::Remote(wire::lossy_text(reply.data@)),
{
}

/// The steps of an upload: it ends right after the range was sent where no digests are asked for,
/// and then its chunk is marked; else digests come, and the chunk is marked if they agree. What it
/// reports is what the agent wrote.
pub proof fn lemma_upload_takes_its_steps(
    a: &mut UploadJob,
    m: &mut FileMeta,
    job: &Job,
    b: &mut UploadJob,
    n: &mut FileMeta,
    reply: &Response,
    r: Result<(), StrawsError>,
    done: UploadJob,
    result: JobResult,
    new: UploadJob,
)
    requires
        job.offset + job.length <= u64::MAX,
        old(a).step == UploadStep::Pipeline,
        old(a).pipeline@.action() == UploadAction::Finished,
        old(b).step == UploadStep::RemoteDigest,
        old(b).md5 is Some,
        done.step == UploadStep::Done,
        call_ensures(UploadJob::new, (job,), new),
        call_ensures(UploadJob::sent, (a, m, job), ()),
        call_ensures(UploadJob::compared, (b, n, job, reply), r),
        call_ensures(UploadJob::result, (done, job), result),
    ensures
        new.step == UploadStep::Truncate && new.pipeline@.start == job.offset && new.pipeline@.length
            == job.length && new.pipeline@.remaining == job.length && new.pipeline@.written == 0,
        final(a).step == UploadStep::Done <==> !job.verify_md5,
        final(a).step == UploadStep::LocalDigest <==> job.verify_md5,
        forall|i: int|
            0 <= i < old(m).completed_chunks@.len() ==> (#[trigger] final(m).completed_chunks@[i]
                <==> old(m).completed_chunks@[i] || (!job.verify_md5 && i == (
            match job.chunk_index {
                Some(k) => k as int,
                None => 0int,
            }))),
        r is Ok <==> final(b).step == UploadStep::Done,
        r is Err ==> final(n).completed_chunks@ == old(n).completed_chunks@,
        forall|i: int|
            0 <= i < old(n).completed_chunks@.len() ==> (#[trigger] final(n).completed_chunks@[i]
                <==> old(n).completed_chunks@[i] || (r is Ok && i == (match job.chunk_index {
                Some(k) => k as int,
                None => 0int,
            }))),
        result.success && result.job_id == job.id && result.bytes_transferred
            == done.pipeline@.written && result.md5 == done.md5,
{
}

/// A chunk that was moved is marked, and no other; a file that was not cut is its own first chunk.
pub proof fn lemma_moved_chunk_is_marked(meta: &mut FileMeta, job: &Job, i: int)
    requires
        old(meta).wf(),
        0 <= i < old(meta).total_chunks,
        call_ensures(mark_moved, (meta, job), ()),
    ensures
        final(meta).completed_chunks@.len() == old(meta).completed_chunks@.len(),
        final(meta).completed_chunks@[i] <==> old(meta).completed_chunks@[i] || (
        match job.chunk_index {
            Some(c) => c == i,
            None => i == 0,
        }),
        final(meta).bytes_transferred == old(meta).bytes_transferred,
{
}

/// An answer to a write: bytes that were written are counted for the file and for the transfer; a
/// refusal is handed on, counts nothing, and costs the agent.
pub proof fn lemma_answers_are_counted(
    u: &mut UploadJob,
    response: &Response,
    meta: &mut FileMeta,
    tracker: &mut ProgressTracker,
    pool: &mut AgentPool,
    agent: usize,
    now: u64,
    r: Result<u64, StrawsError>,
)
    requires
        old(u).step == UploadStep::Pipeline,
        old(u).pipeline.wf(),
        old(u).pipeline@.awaits(),
        old(tracker).wf(),
        old(tracker).speed_tracker.total_bytes + old(u).pipeline@.pending.first() <= u64::MAX,
        old(tracker).bytes_transferred + old(u).pipeline@.pending.first() <= u64::MAX,
        old(meta).bytes_transferred + old(u).pipeline@.pending.first() <= u64::MAX,
        old(pool).wf(),
        agent < old(pool).agents@.len(),
        call_ensures(UploadJob::answered, (u, response, meta, tracker, pool, agent, now), r),
    ensures
        r is Ok <==> response.status is Success,
        r matches Ok(n) ==> {
            &&& n == old(u).pipeline@.pending[0]
            &&& final(meta).bytes_transferred == old(meta).bytes_transferred + n
            &&& final(tracker).bytes_transferred == old(tracker).bytes_transferred + n
            &&& final(pool).states() == old(pool).states()
        },
        r matches Err(e) ==> {
            &&& e@ == ErrorView::Remote(wire::lossy_text(response.data@))
            &&& final(meta).bytes_transferred == old(meta).bytes_transferred
            &&& final(tracker).bytes_transferred == old(tracker).bytes_transferred
            &&& final(pool).states()[agent as int] is Unhealthy
        },
        final(u).pipeline@.pending == old(u).pipeline@.pending.skip(1),
        final(meta).completed_chunks@ == old(meta).completed_chunks@,
{
    assert(old(u).pipeline@.pending.drop_first() =~= old(u).pipeline@.pending.skip(1));
    assert(final(tracker)@.bytes_transferred == final(tracker).bytes_transferred);
    assert(old(pool).states().len() == old(pool).agents@.len());
}

/// Once the local digest is known, it is kept, and the remote one is asked for.
pub proof fn lemma_upload_digest_is_kept(u: &mut UploadJob, md5: String)
    requires
        old(u).step == UploadStep::LocalDigest,
        call_ensures(UploadJob::digested, (u, md5), ()),
    ensures
        final(u).step == UploadStep::RemoteDigest,
        final(u).md5 == Some(md5),
        final(u).pipeline == old(u).pipeline,
{
}

} // verus!
