//! Downloads: the steps of a job, in order.

use vstd::prelude::*;

use crate::agent::exchange;
use crate::agent::protocol;
use crate::agent::protocol::{OpCode, Request, Response};
use crate::agent::wire;
use crate::error::{ErrorView, StrawsError};
use crate::job::chunks;
use crate::job::types;
use crate::job::types::{FileMeta, Job, JobResult, Prealloc};
use crate::transfer::io;
use crate::transfer::upload;
use crate::worker;

verus! {

/// What is made of the outcome of laying out the temporary file.
pub open spec fn laid_out(o: Result<(), Seq<char>>) -> Result<(), ErrorView> {
    match o {
        Ok(_) => Ok(()),
        Err(m) => Err(ErrorView::Io(m)),
    }
}

/// Keeps the outcome of laying out the temporary file. The first outcome counts for every job of
/// the file.
pub fn preallocated(meta: &mut FileMeta, attempt: Prealloc) -> (r: Result<(), StrawsError>)
    ensures
        types::once(final(meta).prealloc_result) == match types::once(old(meta).prealloc_result) {
            Some(o) => Some(o),
            None => Some(types::prealloc_outcome(attempt)),
        },
        match r {
            Ok(_) => laid_out(types::once(final(meta).prealloc_result).unwrap()) == Ok::<
                (),
                ErrorView,
            >(()),
            Err(e) => laid_out(types::once(final(meta).prealloc_result).unwrap()) == Err::<
                (),
                ErrorView,
            >(e@),
        },
        final(meta).same_file(*old(meta)),
        final(meta).same_progress(*old(meta)),
        types::once(final(meta).truncate_result) == types::once(old(meta).truncate_result),
        types::once(final(meta).finalize_result) == types::once(old(meta).finalize_result),
        old(meta).wf() ==> final(meta).wf(),
{
    match meta.ensure_preallocated(attempt) {
        Ok(_) => Ok(()),
        Err(m) => Err(StrawsError::Io(m)),
    }
}

/// The request for the range that a job moves.
pub fn read_request(meta: &FileMeta, job: &Job) -> (r: Request)
    ensures
        r@ == protocol::plain_request(
            OpCode::Read,
            meta.remote_path@,
            job.offset,
            job.length,
        ),
{
    Request::read(meta.remote_path.as_str(), job.offset, job.length)
}

/// What the digests of the two sides make of a download.
pub open spec fn download_check(
    path: Seq<char>,
    local_md5: Seq<char>,
    reply: protocol::ResponseView,
) -> Result<(), ErrorView> {
    match protocol::complaint(reply) {
        Some(message) => Err(upload::refusal(message)),
        None => io::digest_outcome(path, wire::lossy_text(reply.data), local_md5),
    }
}

/// Compares the digest of the local range with the one that the agent reports.
pub fn verify_download(meta: &FileMeta, local_md5: &str, reply: &Response) -> (r: Result<
    (),
    StrawsError,
>)
    ensures
        match r {
            Ok(_) => download_check(meta.remote_path@, local_md5@, reply@) == Ok::<(), ErrorView>(
                (),
            ),
            Err(e) => download_check(meta.remote_path@, local_md5@, reply@) == Err::<(), ErrorView>(
                e@,
            ),
        },
{
    match reply.error_message() {
        Some(message) => Err(StrawsError::Remote(message)),
        None => {
            let remote_md5 = wire::lossy(reply.data.as_slice());
            io::compare_digests(meta.remote_path.as_str(), remote_md5.as_str(), local_md5)
        },
    }
}

// ---------------------------------------------------------------------------
// The whole job
// ---------------------------------------------------------------------------

/// What is due next in a download.
#[derive(Debug, Clone, Copy, PartialEq, Eq, Structural)]
pub enum DownloadStep {
    /// The temporary file is laid out.
    Preallocate,
    /// The range is read from the agent and written to the temporary file.
    Stream,
    /// The digest of the local range is computed.
    LocalDigest,
    /// The digest of the remote range is asked for.
    RemoteDigest,
    /// Nothing: the job is done.
    Done,
}

/// A download: the temporary file is laid out, the range is received, and, if that was asked for,
/// the digests of both sides are compared.
pub struct DownloadJob {
    pub step: DownloadStep,
    /// How many bytes were received.
    pub bytes_written: u64,
    /// The digest of the local range, where it was computed.
    pub md5: Option<String>,
}

impl DownloadJob {
    /// A download of which nothing was done yet.
    pub fn new() -> (r: Self)
        ensures
            r == (DownloadJob { step: DownloadStep::Preallocate, bytes_written: 0, md5: None }),
    {
        DownloadJob { step: DownloadStep::Preallocate, bytes_written: 0, md5: None }
    }

    /// The temporary file was laid out, by this job or by another one.
    pub fn laid_out(&mut self, meta: &mut FileMeta, attempt: Prealloc) -> (r: Result<
        (),
        StrawsError,
    >)
        requires
            old(self).step == DownloadStep::Preallocate,
        ensures
            types::once(final(meta).prealloc_result) == match types::once(
                old(meta).prealloc_result,
            ) {
                Some(o) => Some(o),
                None => Some(types::prealloc_outcome(attempt)),
            },
            match laid_out(types::once(final(meta).prealloc_result).unwrap()) {
                Ok(_) => r is Ok && *final(self) == (DownloadJob {
                    step: DownloadStep::Stream,
                    ..*old(self)
                }),
                Err(e) => r matches Err(x) && x@ == e && *final(self) == *old(self),
            },
            final(meta).same_file(*old(meta)),
            final(meta).same_progress(*old(meta)),
            types::once(final(meta).truncate_result) == types::once(old(meta).truncate_result),
            types::once(final(meta).finalize_result) == types::once(old(meta).finalize_result),
            old(meta).wf() ==> final(meta).wf(),
    {
        match preallocated(meta, attempt) {
            Ok(_) => {
                self.step = DownloadStep::Stream;
                Ok(())
            },
            Err(e) => Err(e),
        }
    }

    /// The range was received and is safe on disk: its bytes are counted, and its chunk is marked,
    /// unless the job asks for digests, which come next.
    pub fn received(&mut self, meta: &mut FileMeta, job: &Job, bytes_written: u64)
        requires
            old(self).step == DownloadStep::Stream,
        ensures
            *final(self) == (DownloadJob {
                step: if job.verify_md5 {
                    DownloadStep::LocalDigest
                } else {
                    DownloadStep::Done
                },
                bytes_written,
                md5: old(self).md5,
            }),
            final(meta).bytes_transferred == old(meta).bytes_transferred.wrapping_add(
                bytes_written,
            ),
            final(meta).completed_chunks@ == upload::marks_when_moved(
                old(meta).completed_chunks@,
                *job,
            ),
            final(meta).same_file(*old(meta)),
            final(meta).same_steps(*old(meta)),
            old(meta).wf() ==> final(meta).wf(),
    {
        meta.add_bytes(bytes_written);
        self.bytes_written = bytes_written;
        if job.verify_md5 {
            self.step = DownloadStep::LocalDigest;
        } else {
            upload::mark_moved(meta, job);
            self.step = DownloadStep::Done;
        }
    }

    /// The digest of the local range was computed.
    pub fn digested(&mut self, local_md5: String)
        requires
            old(self).step == DownloadStep::LocalDigest,
        ensures
            *final(self) == (DownloadJob {
                step: DownloadStep::RemoteDigest,
                md5: Some(local_md5),
                ..*old(self)
            }),
    {
        self.md5 = Some(local_md5);
        self.step = DownloadStep::RemoteDigest;
    }

    /// The agent reported the digest of the remote range: the chunk is marked if the digests agree.
    pub fn compared(&mut self, meta: &mut FileMeta, job: &Job, reply: &Response) -> (r: Result<
        (),
        StrawsError,
    >)
        requires
            old(self).step == DownloadStep::RemoteDigest,
            old(self).md5 is Some,
        ensures
            ({
                let check = download_check(
                    old(meta).remote_path@,
                    old(self).md5.unwrap()@,
                    reply@,
                );
                &&& match check {
                    Ok(_) => r is Ok && *final(self) == (DownloadJob {
                        step: DownloadStep::Done,
                        ..*old(self)
                    }),
                    Err(e) => r matches Err(x) && x@ == e && *final(self) == *old(self),
                }
                &&& final(meta).completed_chunks@ == upload::marks_when_checked(
                    old(meta).completed_chunks@,
                    *job,
                    check,
                )
            }),
            final(meta).bytes_transferred == old(meta).bytes_transferred,
            final(meta).same_file(*old(meta)),
            final(meta).same_steps(*old(meta)),
            old(meta).wf() ==> final(meta).wf(),
    {
        let checked: Result<(), StrawsError> = match &self.md5 {
            Some(local_md5) => verify_download(meta, local_md5.as_str(), reply),
            None => Ok(()),
        };
        match checked {
            Ok(_) => {
                upload::mark_moved(meta, job);
                self.step = DownloadStep::Done;
                Ok(())
            },
            Err(e) => Err(e),
        }
    }

    /// What the job reports: what was received, and the digest that both sides have.
    pub fn result(self, job: &Job) -> (r: JobResult)
        requires
            self.step == DownloadStep::Done,
        ensures
            r == (JobResult {
                job_id: job.id,
                success: true,
                bytes_transferred: self.bytes_written,
                md5: self.md5,
                error: None,
            }),
    {
        JobResult::success(job.id, self.bytes_written, self.md5)
    }
}

// ---------------------------------------------------------------------------
// Laws
// ---------------------------------------------------------------------------

/// Where digests are asked for, the chunk of a download is marked exactly if the agent reports the
/// digest that the local range has, and no other chunk is marked.
pub proof fn lemma_marked_if_digests_agree(
    marks: Seq<bool>,
    job: Job,
    path: Seq<char>,
    local_md5: Seq<char>,
    reply: protocol::ResponseView,
    i: int,
)
    requires
        job.verify_md5,
        0 <= i < marks.len(),
        !marks[i],
    ensures
        ({
            let check = download_check(path, local_md5, reply);
            upload::marks_when_checked(upload::marks_when_moved(marks, job), job, check)[i] <==> i
                == upload::chunk_moved(job) && reply.status == protocol::ResponseStatus::Success
                && wire::lossy_text(reply.data) == local_md5
        }),
{
}

/// A file of which a chunk went over with other digests is held back: that chunk stays unmarked, so
/// that the file is neither put in its place nor counted as finished, whatever becomes of the other
/// chunks.
pub proof fn lemma_bad_chunk_holds_the_file_back(
    before: FileMeta,
    after: FileMeta,
    job: Job,
    local_md5: Seq<char>,
    reply: protocol::ResponseView,
    done: Seq<u32>,
    direction: types::Direction,
)
    requires
        before.wf(),
        job.verify_md5,
        upload::chunk_moved(job) < before.total_chunks,
        !before.completed_chunks@[upload::chunk_moved(job) as int],
        reply.status == protocol::ResponseStatus::Success,
        wire::lossy_text(reply.data) != local_md5,
        !done.contains(upload::chunk_moved(job)),
        after.completed_chunks@ == types::marked(
            upload::marks_when_checked(
                upload::marks_when_moved(before.completed_chunks@, job),
                job,
                match direction {
                    types::Direction::Download => download_check(
                        before.remote_path@,
                        local_md5,
                        reply,
                    ),
                    types::Direction::Upload => upload::upload_check(
                        before.remote_path@,
                        local_md5,
                        reply,
                    ),
                },
            ),
            done,
        ),
    ensures
        !after.complete(),
        worker::done_step(after, direction) == worker::DoneStep::Nothing,
{
    let i = upload::chunk_moved(job) as int;
    types::lemma_marking_leaves_others(before.completed_chunks@, done, i as u32);
    assert(!after.completed_chunks@[i]);
}

/// The pieces that are taken from an agent and written one behind the other put the range into the
/// temporary file at its place.
pub proof fn lemma_download_writes_the_range(
    file: Seq<u8>,
    offset: nat,
    data: Seq<u8>,
    rest: Seq<u8>,
)
    ensures
        chunks::placed_run(file, offset, exchange::file_pieces(data.len(), data + rest))
            == chunks::placed(file, offset, data),
{
    exchange::lemma_stream_is_received(data, rest);
    chunks::lemma_pieces_make_the_range(
        file,
        offset,
        exchange::file_pieces(data.len(), data + rest),
    );
}

// ---------------------------------------------------------------------------
// Laws: the course of a download
// ---------------------------------------------------------------------------

/// What is asked for is the range of the job.
pub proof fn lemma_range_is_asked_for(m: &FileMeta, job: &Job, r: Request)
    requires
        call_ensures(read_request, (m, job), r),
    ensures
        r@.op == OpCode::Read && r@.path == m.remote_path@,
        r@.offset == job.offset && r@.length == job.length,
{
}

/// Digests that differ are a failure that names the file and both digests; digests that are the same
/// are none; and a complaint of the agent is handed on.
pub proof fn lemma_download_digests_are_compared(
    m: &FileMeta,
    local: &str,
    reply: &Response,
    r: Result<(), StrawsError>,
)
    requires
        call_ensures(verify_download, (m, local, reply), r),
    ensures
        reply.status == protocol::ResponseStatus::Success ==> (r is Ok <==> local@
            == wire::lossy_text(reply.data@)),
        reply.status == protocol::ResponseStatus::Success && r is Err ==> r->Err_0@
            == (ErrorView::Md5Mismatch {
            path: m.remote_path@,
            expected: wire::lossy_text(reply.data@),
            actual: local@,
        }),
        reply.status == protocol::ResponseStatus::Error ==> r is Err && r->Err_0@
            == ErrorView::Remote(wire::lossy_text(reply.data@)),
{
}

/// The temporary file is laid out once, and what came of that counts for all jobs: without it there
/// is no download.
pub proof fn lemma_temporary_file_is_laid_out_once(
    d: &mut DownloadJob,
    m: &mut FileMeta,
    attempt: Prealloc,
    r: Result<(), StrawsError>,
)
    requires
        old(d).step == DownloadStep::Preallocate,
        call_ensures(DownloadJob::laid_out, (d, m, attempt), r),
    ensures
        final(m).prealloc_result is Some,
        old(m).prealloc_result is None ==> (r is Ok <==> attempt is Done),
        old(m).prealloc_result matches Some(o) ==> (r is Ok <==> o is Ok),
        r is Ok <==> final(d).step == DownloadStep::Stream,
        r is Err ==> final(d).step == DownloadStep::Preallocate && r->Err_0@ is Io,
        final(m).completed_chunks@ == old(m).completed_chunks@,
{
    assert(types::once(final(m).prealloc_result) is Some);
}

/// The steps of a download: it ends right after the range was received where no digests are asked
/// for, and then its chunk is marked; else digests come, and the chunk is marked if they agree. What
/// it reports is what was received.
pub proof fn lemma_download_takes_its_steps(
    a: &mut DownloadJob,
    m: &mut FileMeta,
    job: &Job,
    bytes: u64,
    b: &mut DownloadJob,
    n: &mut FileMeta,
    reply: &Response,
    r: Result<(), StrawsError>,
    done: DownloadJob,
    result: JobResult,
)
    requires
        old(a).step == DownloadStep::Stream,
        old(b).step == DownloadStep::RemoteDigest,
        old(b).md5 is Some,
        done.step == DownloadStep::Done,
        call_ensures(DownloadJob::received, (a, m, job, bytes), ()),
        call_ensures(DownloadJob::compared, (b, n, job, reply), r),
        call_ensures(DownloadJob::result, (done, job), result),
    ensures
        final(a).bytes_written == bytes,
        old(m).bytes_transferred + bytes <= u64::MAX ==> final(m).bytes_transferred == old(m).bytes_transferred + bytes,
        final(a).step == DownloadStep::Done <==> !job.verify_md5,
        final(a).step == DownloadStep::LocalDigest <==> job.verify_md5,
        forall|i: int|
            0 <= i < old(m).completed_chunks@.len() ==> (#[trigger] final(m).completed_chunks@[i]
                <==> old(m).completed_chunks@[i] || (!job.verify_md5 && i == (
            match job.chunk_index {
                Some(k) => k as int,
                None => 0int,
            }))),
        r is Ok <==> final(b).step == DownloadStep::Done,
        r is Err ==> final(n).completed_chunks@ == old(n).completed_chunks@,
        forall|i: int|
            0 <= i < old(n).completed_chunks@.len() ==> (#[trigger] final(n).completed_chunks@[i]
                <==> old(n).completed_chunks@[i] || (r is Ok && i == (match job.chunk_index {
                Some(k) => k as int,
                None => 0int,
            }))),
        result.success && result.job_id == job.id && result.bytes_transferred == done.bytes_written
            && result.md5 == done.md5,
{
}

/// The first attempt to lay a file out is the one that counts, for all jobs of the file.
pub proof fn lemma_first_layout_counts(
    meta: &mut FileMeta,
    attempt: Prealloc,
    r: Result<(), StrawsError>,
)
    requires
        call_ensures(preallocated, (meta, attempt), r),
    ensures
        match old(meta).prealloc_result {
            Some(Ok(_)) => r is Ok,
            Some(Err(m)) => r is Err && r->Err_0@ == ErrorView::Io(m@),
            None => r is Ok <==> attempt is Done,
        },
        final(meta).prealloc_result is Some,
        final(meta).prealloc_result.unwrap() is Ok <==> r is Ok,
        final(meta).bytes_transferred == old(meta).bytes_transferred,
        final(meta).completed_chunks@ == old(meta).completed_chunks@,
{
    assert(types::once(final(meta).prealloc_result) is Some);
}

/// Once the local digest is known, it is kept, and the remote one is asked for.
pub proof fn lemma_download_digest_is_kept(d: &mut DownloadJob, md5: String)
    requires
        old(d).step == DownloadStep::LocalDigest,
        call_ensures(DownloadJob::digested, (d, md5), ()),
    ensures
        final(d).step == DownloadStep::RemoteDigest,
        final(d).md5 == Some(md5),
        final(d).bytes_written == old(d).bytes_written,
{
}

} // verus!
