//! Files in transfer, and the jobs that they are cut into.

use vstd::prelude::*;

use crate::path;
use crate::text;

verus! {

/// The way that a job moves its bytes.
#[derive(Debug, Clone, Copy, PartialEq, Eq, Structural)]
pub enum Direction {
    Download,
    Upload,
}

// ---------------------------------------------------------------------------
// Steps that are taken once for a file
// ---------------------------------------------------------------------------

/// The outcome of a step, with its text as a sequence of characters.
pub open spec fn outcome(r: Result<(), String>) -> Result<(), Seq<char>> {
    match r {
        Ok(_) => Ok(()),
        Err(m) => Err(m@),
    }
}

/// The outcome of a step that is taken once: nothing before it was taken.
pub open spec fn once(r: Option<Result<(), String>>) -> Option<Result<(), Seq<char>>> {
    match r {
        Some(o) => Some(outcome(o)),
        None => None,
    }
}

fn copy_outcome(r: &Result<(), String>) -> (c: Result<(), String>)
    ensures
        outcome(c) == outcome(*r),
{
    match r {
        Ok(_) => Ok(()),
        Err(m) => Err(m.clone()),
    }
}

/// What became of the attempt to lay out the temporary file.
#[derive(Debug)]
pub enum Prealloc {
    /// The file is there, as long as it will be.
    Done,
    /// Its directory could not be made.
    NoDirectory(String),
    /// It could not be opened.
    NoFile(String),
    /// It could not be made as long as it will be.
    NoSpace(String),
}

/// What is kept of the attempt to lay out the temporary file.
pub open spec fn prealloc_outcome(p: Prealloc) -> Result<(), Seq<char>> {
    match p {
        Prealloc::Done => Ok(()),
        Prealloc::NoDirectory(m) => Err("Failed to create directory: "@ + m@),
        Prealloc::NoFile(m) => Err("Failed to create temp file: "@ + m@),
        Prealloc::NoSpace(m) => Err("Failed to preallocate: "@ + m@),
    }
}

// ---------------------------------------------------------------------------
// Files
// ---------------------------------------------------------------------------

/// A file in transfer.
#[derive(Debug)]
pub struct FileMeta {
    pub remote_path: String,
    pub local_path: String,
    pub size: u64,
    pub mode: u32,
    pub mtime: u64,
    /// How many chunks the file is cut into; one for a small file.
    pub total_chunks: u32,
    /// Which chunks are done.
    pub completed_chunks: Vec<bool>,
    /// How many bytes went over.
    pub bytes_transferred: u64,
    /// Outcome of laying out the temporary file, for downloads.
    pub prealloc_result: Option<Result<(), String>>,
    /// Outcome of laying out the remote file, for uploads.
    pub truncate_result: Option<Result<(), String>>,
    /// Outcome of putting the finished file in its place.
    pub finalize_result: Option<Result<(), String>>,
}

/// What the temporary file of a path is called.
pub open spec fn temp_name(local_path: Seq<char>) -> Seq<char> {
    match path::name_of(local_path) {
        Some(n) => n + ".straws.tmp"@,
        None => ".straws.tmp"@,
    }
}

/// The temporary file that a download goes to: beside the file, with a longer name.
pub open spec fn temp_of(local_path: Seq<char>) -> Seq<char> {
    path::renamed(local_path, temp_name(local_path))
}

/// The marks after a chunk is done; a chunk that is not there changes nothing.
pub open spec fn mark(marks: Seq<bool>, chunk_index: u32) -> Seq<bool> {
    if chunk_index < marks.len() {
        marks.update(chunk_index as int, true)
    } else {
        marks
    }
}

impl FileMeta {
    /// Every chunk has its mark.
    pub open spec fn wf(self) -> bool {
        self.completed_chunks@.len() == self.total_chunks
    }

    /// All chunks are done.
    pub open spec fn complete(self) -> bool {
        forall|i: int| 0 <= i < self.completed_chunks@.len() ==> self.completed_chunks@[i]
    }

    /// What identifies the file, and what it is made of: nothing of it changes.
    pub open spec fn same_file(self, other: FileMeta) -> bool {
        &&& self.remote_path@ == other.remote_path@
        &&& self.local_path@ == other.local_path@
        &&& self.size == other.size
        &&& self.mode == other.mode
        &&& self.mtime == other.mtime
        &&& self.total_chunks == other.total_chunks
    }

    /// The outcomes of the steps that are taken once are the same.
    pub open spec fn same_steps(self, other: FileMeta) -> bool {
        &&& once(self.prealloc_result) == once(other.prealloc_result)
        &&& once(self.truncate_result) == once(other.truncate_result)
        &&& once(self.finalize_result) == once(other.finalize_result)
    }

    /// The chunks done and the bytes counted are the same.
    pub open spec fn same_progress(self, other: FileMeta) -> bool {
        &&& self.completed_chunks@ == other.completed_chunks@
        &&& self.bytes_transferred == other.bytes_transferred
    }

    /// A file of which nothing went over yet.
    pub fn new(
        remote_path: String,
        local_path: String,
        size: u64,
        mode: u32,
        mtime: u64,
        total_chunks: u32,
    ) -> (r: Self)
        ensures
            r.wf(),
            r.remote_path == remote_path,
            r.local_path == local_path,
            r.size == size,
            r.mode == mode,
            r.mtime == mtime,
            r.total_chunks == total_chunks,
            r.completed_chunks@ == Seq::new(total_chunks as nat, |i: int| false),
            r.bytes_transferred == 0,
            r.prealloc_result is None,
            r.truncate_result is None,
            r.finalize_result is None,
    {
        let mut marks: Vec<bool> = Vec::new();
        let mut i: u32 = 0;
        while i < total_chunks
            invariant
                i <= total_chunks,
                marks@ == Seq::new(i as nat, |j: int| false),
            decreases total_chunks - i,
        {
            marks.push(false);
            i = i + 1;
            proof {
                assert(marks@ =~= Seq::new(i as nat, |j: int| false));
            }
        }
        FileMeta {
            remote_path,
            local_path,
            size,
            mode,
            mtime,
            total_chunks,
            completed_chunks: marks,
            bytes_transferred: 0,
            prealloc_result: None,
            truncate_result: None,
            finalize_result: None,
        }
    }

    /// Whether the temporary file was laid out already, or the attempt failed.
    pub fn prealloc_attempted(&self) -> (r: bool)
        ensures
            r == (self.prealloc_result is Some),
    {
        self.prealloc_result.is_some()
    }

    /// How long the temporary file has to be made before the first byte is written, if at all.
    pub fn prealloc_len(&self) -> (r: Option<u64>)
        ensures
            r == if self.size > 0 {
                Some(self.size)
            } else {
                None
            },
    {
        if self.size > 0 {
            Some(self.size)
        } else {
            None
        }
    }

    /// Keeps the first outcome of laying out the temporary file, and gives back the one kept.
    pub fn ensure_preallocated(&mut self, attempt: Prealloc) -> (r: Result<(), String>)
        ensures
            once(final(self).prealloc_result) == match once(old(self).prealloc_result) {
                Some(o) => Some(o),
                None => Some(prealloc_outcome(attempt)),
            },
            Some(outcome(r)) == once(final(self).prealloc_result),
            final(self).same_file(*old(self)),
            final(self).same_progress(*old(self)),
            once(final(self).truncate_result) == once(old(self).truncate_result),
            once(final(self).finalize_result) == once(old(self).finalize_result),
            old(self).wf() ==> final(self).wf(),
    {
        match &self.prealloc_result {
            Some(o) => copy_outcome(o),
            None => {
                let o: Result<(), String> = match attempt {
                    Prealloc::Done => Ok(()),
                    Prealloc::NoDirectory(m) => Err(
                        text::cat("Failed to create directory: ", m.as_str()),
                    ),
                    Prealloc::NoFile(m) => Err(
                        text::cat("Failed to create temp file: ", m.as_str()),
                    ),
                    Prealloc::NoSpace(m) => Err(text::cat("Failed to preallocate: ", m.as_str())),
                };
                let r = copy_outcome(&o);
                self.prealloc_result = Some(o);
                r
            },
        }
    }

    /// Keeps the first outcome of laying out the remote file, and gives back the one kept.
    pub fn store_truncate_result(&mut self, result: Result<(), String>) -> (r: Result<(), String>)
        ensures
            once(final(self).truncate_result) == match once(old(self).truncate_result) {
                Some(o) => Some(o),
                None => Some(outcome(result)),
            },
            Some(outcome(r)) == once(final(self).truncate_result),
            final(self).same_file(*old(self)),
            final(self).same_progress(*old(self)),
            once(final(self).prealloc_result) == once(old(self).prealloc_result),
            once(final(self).finalize_result) == once(old(self).finalize_result),
            old(self).wf() ==> final(self).wf(),
    {
        match &self.truncate_result {
            Some(o) => copy_outcome(o),
            None => {
                let r = copy_outcome(&result);
                self.truncate_result = Some(result);
                r
            },
        }
    }

    /// Whether the remote file was laid out already, or the attempt failed.
    pub fn truncate_attempted(&self) -> (r: bool)
        ensures
            r == (self.truncate_result is Some),
    {
        self.truncate_result.is_some()
    }

    /// Puts the finished file in its place by `f`, which runs only the first time, and gives back
    /// what came of that.
    pub fn ensure_finalized<F: FnOnce() -> Result<(), String>>(&mut self, f: F) -> (r: Result<
        (),
        String,
    >)
        requires
            old(self).finalize_result is None ==> call_requires(f, ()),
        ensures
            match old(self).finalize_result {
                Some(o) => final(self).finalize_result == Some(o) && outcome(r) == outcome(o),
                None => exists|o: Result<(), String>|
                    #![trigger outcome(o)]
                    call_ensures(f, (), o) && final(self).finalize_result == Some(o) && outcome(r)
                        == outcome(o),
            },
            final(self).same_file(*old(self)),
            final(self).same_progress(*old(self)),
            once(final(self).prealloc_result) == once(old(self).prealloc_result),
            once(final(self).truncate_result) == once(old(self).truncate_result),
            old(self).wf() ==> final(self).wf(),
    {
        match &self.finalize_result {
            Some(o) => copy_outcome(o),
            None => {
                let o = f();
                let r = copy_outcome(&o);
                self.finalize_result = Some(o);
                r
            },
        }
    }

    /// Keeps the first outcome of putting the finished file in its place, and gives back the one
    /// kept.
    pub fn store_finalize_result(&mut self, result: Result<(), String>) -> (r: Result<(), String>)
        ensures
            once(final(self).finalize_result) == match once(old(self).finalize_result) {
                Some(o) => Some(o),
                None => Some(outcome(result)),
            },
            Some(outcome(r)) == once(final(self).finalize_result),
            final(self).same_file(*old(self)),
            final(self).same_progress(*old(self)),
            once(final(self).prealloc_result) == once(old(self).prealloc_result),
            once(final(self).truncate_result) == once(old(self).truncate_result),
            old(self).wf() ==> final(self).wf(),
    {
        match &self.finalize_result {
            Some(o) => copy_outcome(o),
            None => {
                let r = copy_outcome(&result);
                self.finalize_result = Some(result);
                r
            },
        }
    }

    /// Whether the finished file was put in its place already, or the attempt failed.
    pub fn finalize_attempted(&self) -> (r: bool)
        ensures
            r == (self.finalize_result is Some),
    {
        self.finalize_result.is_some()
    }

    /// Marks a chunk as done.
    pub fn mark_chunk_complete(&mut self, chunk_index: u32)
        ensures
            final(self).completed_chunks@ == mark(old(self).completed_chunks@, chunk_index),
            final(self).bytes_transferred == old(self).bytes_transferred,
            final(self).same_file(*old(self)),
            final(self).same_steps(*old(self)),
            old(self).wf() ==> final(self).wf(),
    {
        let i: usize = chunk_index as usize;
        if i < self.completed_chunks.len() {
            self.completed_chunks.set(i, true);
        }
    }

    /// Whether all chunks are done.
    pub fn is_complete(&self) -> (r: bool)
        ensures
            r == self.complete(),
    {
        let mut i: usize = 0;
        while i < self.completed_chunks.len()
            invariant
                i <= self.completed_chunks@.len(),
                forall|j: int| 0 <= j < i ==> self.completed_chunks@[j],
            decreases self.completed_chunks@.len() - i,
        {
            if !self.completed_chunks[i] {
                return false;
            }
            i = i + 1;
        }
        true
    }

    /// Counts bytes that went over; the count wraps around.
    pub fn add_bytes(&mut self, bytes: u64)
        ensures
            final(self).bytes_transferred == old(self).bytes_transferred.wrapping_add(bytes),
            final(self).completed_chunks@ == old(self).completed_chunks@,
            final(self).same_file(*old(self)),
            final(self).same_steps(*old(self)),
            old(self).wf() ==> final(self).wf(),
    {
        self.bytes_transferred = self.bytes_transferred.wrapping_add(bytes);
    }

    /// The temporary file that a download goes to.
    pub fn temp_path(&self) -> (r: String)
        ensures
            r@ == temp_of(self.local_path@),
    {
        let name: String = match path::file_name(self.local_path.as_str()) {
            Some(n) => text::cat(n.as_str(), ".straws.tmp"),
            None => ".straws.tmp".to_owned(),
        };
        path::with_file_name(self.local_path.as_str(), name.as_str())
    }
}

/// The temporary file is called like the file, with `.straws.tmp` behind it, so that it is never
/// the file itself.
pub proof fn lemma_temp_file_is_another(local_path: Seq<char>)
    ensures
        path::name_of(temp_of(local_path)) == Some(temp_name(local_path)),
        temp_of(local_path) != local_path,
{
    reveal_strlit(".straws.tmp");
    let n = temp_name(local_path);
    assert(n.len() >= 11);
    assert(n != seq!['.']) by {
        assert(seq!['.'].len() == 1);
    }
    assert(n != seq!['.', '.']) by {
        assert(seq!['.', '.'].len() == 2);
    }
    assert forall|i: int| 0 <= i < n.len() implies n[i] != '/' by {
        if path::name_of(local_path) is Some {
            path::lemma_name_is_plain(local_path);
            let m = path::name_of(local_path).unwrap();
            if i < m.len() {
                assert(n[i] == m[i]);
            } else {
                assert(n[i] == ".straws.tmp"@[i - m.len()]);
            }
        }
    }
    path::lemma_name_of_renamed(local_path, n);
    if temp_of(local_path) == local_path {
        let m = path::name_of(local_path).unwrap();
        assert(n.len() == m.len() + 11);
    }
}

/// Two files that are called differently in one directory keep their temporary files apart.
pub proof fn lemma_temp_names_keep_apart(a: Seq<char>, b: Seq<char>)
    requires
        path::name_of(a) is Some,
        path::name_of(b) is Some,
        path::name_of(a) != path::name_of(b),
    ensures
        temp_name(a) != temp_name(b),
{
    let x = path::name_of(a).unwrap();
    let y = path::name_of(b).unwrap();
    if temp_name(a) == temp_name(b) {
        assert(x =~= temp_name(a).take(temp_name(a).len() - ".straws.tmp"@.len()));
        assert(y =~= temp_name(b).take(temp_name(b).len() - ".straws.tmp"@.len()));
    }
}

/// A file is complete exactly when each of its chunks was marked.
pub proof fn lemma_complete_when_all_marked(marks: Seq<bool>, done: Seq<u32>)
    requires
        forall|i: int| 0 <= i < marks.len() ==> !marks[i],
        marks.len() <= u32::MAX,
    ensures
        (forall|i: int|
            0 <= i < marks.len() ==> #[trigger] marked(marks, done)[i]) <==> (forall|i: int|
            0 <= i < marks.len() ==> #[trigger] done.contains(i as u32)),
    decreases done.len(),
{
    lemma_marked(marks, done);
    let m = marked(marks, done);
    if forall|i: int| 0 <= i < marks.len() ==> #[trigger] m[i] {
        assert forall|i: int| 0 <= i < marks.len() implies #[trigger] done.contains(i as u32) by {
            assert(m[i]);
        }
    }
    if forall|i: int| 0 <= i < marks.len() ==> #[trigger] done.contains(i as u32) {
        assert forall|i: int| 0 <= i < marks.len() implies #[trigger] m[i] by {
            assert(done.contains(i as u32));
        }
    }
}

/// The marks after the chunks `done` were marked, one after the other.
pub open spec fn marked(marks: Seq<bool>, done: Seq<u32>) -> Seq<bool>
    decreases done.len(),
{
    if done.len() == 0 {
        marks
    } else {
        mark(marked(marks, done.drop_last()), done.last())
    }
}

/// Marking other chunks leaves a chunk as it is.
pub proof fn lemma_marking_leaves_others(marks: Seq<bool>, done: Seq<u32>, chunk_index: u32)
    requires
        chunk_index < marks.len(),
        !done.contains(chunk_index),
    ensures
        marked(marks, done).len() == marks.len(),
        marked(marks, done)[chunk_index as int] == marks[chunk_index as int],
    decreases done.len(),
{
    if done.len() > 0 {
        let d = done.drop_last();
        assert forall|k: int| 0 <= k < d.len() implies d[k] != chunk_index by {
            assert(d[k] == done[k]);
            assert(done.contains(done[k]));
        }
        lemma_marking_leaves_others(marks, d, chunk_index);
        assert(done.contains(done[done.len() - 1]));
    }
}

/// Marking chunks makes no chunk more or less.
pub proof fn lemma_marked_keeps_length(marks: Seq<bool>, done: Seq<u32>)
    ensures
        marked(marks, done).len() == marks.len(),
    decreases done.len(),
{
    if done.len() > 0 {
        lemma_marked_keeps_length(marks, done.drop_last());
    }
}

proof fn lemma_marked(marks: Seq<bool>, done: Seq<u32>)
    requires
        forall|i: int| 0 <= i < marks.len() ==> !marks[i],
        marks.len() <= u32::MAX,
    ensures
        marked(marks, done).len() == marks.len(),
        forall|i: int|
            0 <= i < marks.len() ==> (#[trigger] marked(marks, done)[i] <==> done.contains(i as u32)),
    decreases done.len(),
{
    if done.len() > 0 {
        let d = done.drop_last();
        lemma_marked(marks, d);
        assert forall|i: int| 0 <= i < marks.len() implies (#[trigger] marked(marks, done)[i]
            <==> done.contains(i as u32)) by {
            let before = marked(marks, d)[i];
            if done.contains(i as u32) {
                let k = choose|k: int| 0 <= k < done.len() && done[k] == i as u32;
                if k < d.len() {
                    assert(d[k] == i as u32);
                }
            }
            if d.contains(i as u32) {
                let k = choose|k: int| 0 <= k < d.len() && d[k] == i as u32;
                assert(done[k] == i as u32);
            }
            if done.last() == i {
                assert(done[done.len() - 1] == i as u32);
            }
        }
    }
}

// ---------------------------------------------------------------------------
// Jobs
// ---------------------------------------------------------------------------

/// A file, or a chunk of one, that an agent moves at one go.
#[derive(Debug, Clone, Copy)]
pub struct Job {
    pub id: u64,
    /// Place of the file in the table of files.
    pub file: usize,
    pub direction: Direction,
    pub offset: u64,
    pub length: u64,
    /// Which chunk of the file this is, if the file was cut.
    pub chunk_index: Option<u32>,
    pub verify_md5: bool,
    /// How often the job failed.
    pub retry_count: u32,
}

/// What a file is called on the display.
pub open spec fn display_name(local_path: Seq<char>, otherwise: Seq<char>) -> Seq<char> {
    match path::name_of(local_path) {
        Some(n) => n,
        None => otherwise,
    }
}

/// What a file is called on the display; `otherwise` where its path has no name.
pub fn name_or(local_path: &str, otherwise: &str) -> (r: String)
    ensures
        r@ == display_name(local_path@, otherwise@),
{
    match path::file_name(local_path) {
        Some(n) => n,
        None => otherwise.to_owned(),
    }
}

/// What a job is called on the display: the name of the file, with the number of the chunk in
/// front of it, as wide as the number of chunks.
pub open spec fn description_text(
    local_path: Seq<char>,
    chunk_index: Option<u32>,
    total: u32,
) -> Seq<char> {
    let name = display_name(local_path, "unknown"@);
    match chunk_index {
        Some(i) => "["@ + text::padded(
            text::decimal_text((i + 1) as nat),
            text::decimal_text(total as nat).len(),
            '0',
        ) + "/"@ + text::decimal_text(total as nat) + "] "@ + name,
        None => name,
    }
}

impl Job {
    /// A job that was not tried yet.
    pub fn new(
        id: u64,
        file: usize,
        direction: Direction,
        offset: u64,
        length: u64,
        chunk_index: Option<u32>,
        verify_md5: bool,
    ) -> (r: Self)
        ensures
            r == (Job {
                id,
                file,
                direction,
                offset,
                length,
                chunk_index,
                verify_md5,
                retry_count: 0,
            }),
    {
        Job { id, file, direction, offset, length, chunk_index, verify_md5, retry_count: 0 }
    }

    /// The job for a file that is not cut.
    pub fn whole_file(
        id: u64,
        file: usize,
        file_meta: &FileMeta,
        direction: Direction,
        verify_md5: bool,
    ) -> (r: Self)
        ensures
            r == (Job {
                id,
                file,
                direction,
                offset: 0,
                length: file_meta.size,
                chunk_index: None,
                verify_md5,
                retry_count: 0,
            }),
    {
        Job::new(id, file, direction, 0, file_meta.size, None, verify_md5)
    }

    /// The job for one chunk of a file.
    pub fn chunk(
        id: u64,
        file: usize,
        direction: Direction,
        chunk_index: u32,
        offset: u64,
        length: u64,
        verify_md5: bool,
    ) -> (r: Self)
        ensures
            r == (Job {
                id,
                file,
                direction,
                offset,
                length,
                chunk_index: Some(chunk_index),
                verify_md5,
                retry_count: 0,
            }),
    {
        Job::new(id, file, direction, offset, length, Some(chunk_index), verify_md5)
    }

    /// Counts a failure, and says how many there were.
    pub fn increment_retry(&mut self) -> (r: u32)
        requires
            old(self).retry_count < u32::MAX,
        ensures
            r == old(self).retry_count + 1,
            *final(self) == (Job { retry_count: r, ..*old(self) }),
    {
        self.retry_count = self.retry_count + 1;
        self.retry_count
    }

    /// How often the job failed.
    pub fn retries(&self) -> (r: u32)
        ensures
            r == self.retry_count,
    {
        self.retry_count
    }

    /// What the job is called on the display.
    pub fn description(&self, file_meta: &FileMeta) -> (r: String)
        requires
            self.chunk_index matches Some(i) ==> i < u32::MAX,
        ensures
            r@ == description_text(
                file_meta.local_path@,
                self.chunk_index,
                file_meta.total_chunks,
            ),
    {
        let name = name_or(file_meta.local_path.as_str(), "unknown");
        match self.chunk_index {
            Some(i) => {
                let total = text::decimal(file_meta.total_chunks as u64);
                let number = text::pad(
                    text::decimal(i as u64 + 1).as_str(),
                    total.as_str().unicode_len(),
                    '0',
                );
                let front = text::cat5("[", number.as_str(), "/", total.as_str(), "] ");
                text::cat(front.as_str(), name.as_str())
            },
            None => name,
        }
    }
}

/// What came of a job.
#[derive(Debug)]
pub struct JobResult {
    pub job_id: u64,
    pub success: bool,
    pub bytes_transferred: u64,
    pub md5: Option<String>,
    pub error: Option<String>,
}

impl JobResult {
    /// The job is done.
    pub fn success(job_id: u64, bytes_transferred: u64, md5: Option<String>) -> (r: Self)
        ensures
            r == (JobResult { job_id, success: true, bytes_transferred, md5, error: None }),
    {
        JobResult { job_id, success: true, bytes_transferred, md5, error: None }
    }

    /// The job failed.
    pub fn failure(job_id: u64, error: String) -> (r: Self)
        ensures
            r == (JobResult {
                job_id,
                success: false,
                bytes_transferred: 0,
                md5: None,
                error: Some(error),
            }),
    {
        JobResult { job_id, success: false, bytes_transferred: 0, md5: None, error: Some(error) }
    }
}

// ---------------------------------------------------------------------------
// Laws: files and jobs
// ---------------------------------------------------------------------------

/// A step that is taken once for a file keeps its first outcome: whatever is tried later, the first
/// one counts.
pub proof fn lemma_first_outcome_counts(
    a: &mut FileMeta,
    b: &mut FileMeta,
    c: &mut FileMeta,
    attempt: Prealloc,
    result: Result<(), String>,
    x: Result<(), String>,
    y: Result<(), String>,
    z: Result<(), String>,
)
    requires
        call_ensures(FileMeta::ensure_preallocated, (a, attempt), x),
        call_ensures(FileMeta::store_truncate_result, (b, result), y),
        call_ensures(FileMeta::store_finalize_result, (c, result), z),
    ensures
        final(a).prealloc_result is Some && final(b).truncate_result is Some && final(c).finalize_result is Some,
        old(a).prealloc_result matches Some(o) ==> (x is Ok <==> o is Ok) && (final(a).prealloc_result.unwrap() is Ok <==> o is Ok),
        old(a).prealloc_result is None ==> (x is Ok <==> attempt is Done),
        old(b).truncate_result matches Some(o) ==> (y is Ok <==> o is Ok) && (final(b).truncate_result.unwrap() is Ok <==> o is Ok),
        old(b).truncate_result is None ==> (y is Ok <==> result is Ok),
        old(c).finalize_result matches Some(o) ==> (z is Ok <==> o is Ok) && (final(c).finalize_result.unwrap() is Ok <==> o is Ok),
        old(c).finalize_result is None ==> (z is Ok <==> result is Ok),
        final(a).completed_chunks@ == old(a).completed_chunks@ && final(b).completed_chunks@ == old(b).completed_chunks@ && final(c).completed_chunks@ == old(c).completed_chunks@,
{
    assert(once(final(a).prealloc_result) is Some);
    assert(once(final(b).truncate_result) is Some);
    assert(once(final(c).finalize_result) is Some);
}

/// Whether a step was taken is known, and how much room a file needs.
pub proof fn lemma_steps_taken_are_known(
    m: &FileMeta,
    prealloc: bool,
    truncate: bool,
    finalize: bool,
    room: Option<u64>,
)
    requires
        call_ensures(FileMeta::prealloc_attempted, (m,), prealloc),
        call_ensures(FileMeta::truncate_attempted, (m,), truncate),
        call_ensures(FileMeta::finalize_attempted, (m,), finalize),
        call_ensures(FileMeta::prealloc_len, (m,), room),
    ensures
        prealloc <==> m.prealloc_result is Some,
        truncate <==> m.truncate_result is Some,
        finalize <==> m.finalize_result is Some,
        room is None <==> m.size == 0,
        room matches Some(n) ==> n == m.size,
{
}

/// A mark is set for one chunk and for no other, and counting bytes sets none; a file is complete
/// exactly if all chunks are marked.
pub proof fn lemma_marks_and_bytes(
    a: &mut FileMeta,
    b: &mut FileMeta,
    chunk: u32,
    bytes: u64,
    i: int,
    m: &FileMeta,
    complete: bool,
)
    requires
        0 <= i,
        call_ensures(FileMeta::mark_chunk_complete, (a, chunk), ()),
        call_ensures(FileMeta::add_bytes, (b, bytes), ()),
        call_ensures(FileMeta::is_complete, (m,), complete),
    ensures
        final(a).completed_chunks@.len() == old(a).completed_chunks@.len(),
        i < old(a).completed_chunks@.len() ==> (final(a).completed_chunks@[i] <==> old(a).completed_chunks@[i] || i == chunk),
        final(a).bytes_transferred == old(a).bytes_transferred,
        old(b).bytes_transferred + bytes <= u64::MAX ==> final(b).bytes_transferred == old(b).bytes_transferred + bytes,
        final(b).completed_chunks@ == old(b).completed_chunks@,
        complete ==> i < m.completed_chunks@.len() ==> m.completed_chunks@[i],
        !complete ==> exists|k: int|
            0 <= k < m.completed_chunks@.len() && !(#[trigger] m.completed_chunks@[k]),
{
}

/// A file is new: none of its chunks is marked, and there are as many as it is cut into.
pub proof fn lemma_new_file_has_no_marks(
    remote_path: String,
    local_path: String,
    size: u64,
    mode: u32,
    mtime: u64,
    chunks: u32,
    r: FileMeta,
    i: int,
)
    requires
        call_ensures(FileMeta::new, (remote_path, local_path, size, mode, mtime, chunks), r),
    ensures
        r.completed_chunks@.len() == chunks,
        0 <= i < chunks ==> !r.completed_chunks@[i],
        r.remote_path@ == remote_path@ && r.local_path@ == local_path@,
        r.size == size && r.mode == mode && r.mtime == mtime,
        r.bytes_transferred == 0,
        r.prealloc_result is None && r.truncate_result is None && r.finalize_result is None,
{
}

/// What a job is called: the name of its file, and for a chunk its number, from one on, of how many.
pub proof fn lemma_job_is_called_by_its_chunk(job: &Job, m: &FileMeta, r: String, name: Seq<char>)
    requires
        job.chunk_index matches Some(i) ==> i < u32::MAX,
        path::name_of(m.local_path@) == Some(name),
        call_ensures(Job::description, (job, m), r),
    ensures
        job.chunk_index is None ==> r@ == name,
        job.chunk_index matches Some(i) ==> exists|a: Seq<char>, b: Seq<char>|
            r@ == "["@ + #[trigger] (a + "/"@ + b) + "] "@ + name && text::digits_number(b, 10)
                == m.total_chunks && a.len() >= b.len() && text::digits_number(a, 10) == i + 1,
{
    if job.chunk_index is Some {
        let i = job.chunk_index.unwrap();
        let d = text::decimal_text((i + 1) as nat);
        let b = text::decimal_text(m.total_chunks as nat);
        let a = text::padded(d, b.len(), '0');
        text::lemma_number_is_written((i + 1) as nat, 10);
        text::lemma_number_is_written(m.total_chunks as nat, 10);
        text::lemma_zeros_in_front(d, (a.len() - d.len()) as nat, 10);
        assert(a =~= Seq::new((a.len() - d.len()) as nat, |k: int| '0') + d);
        assert(r@ =~= "["@ + (a + "/"@ + b) + "] "@ + name);
    }
}

/// A job moves the range that it was made for, and was not tried yet.
pub proof fn lemma_job_moves_its_range(
    id: u64,
    file: usize,
    m: &FileMeta,
    direction: Direction,
    chunk_index: u32,
    offset: u64,
    length: u64,
    verify: bool,
    whole: Job,
    part: Job,
    j: &mut Job,
    n: u32,
)
    requires
        old(j).retry_count < u32::MAX,
        call_ensures(Job::whole_file, (id, file, m, direction, verify), whole),
        call_ensures(Job::chunk, (id, file, direction, chunk_index, offset, length, verify), part),
        call_ensures(Job::increment_retry, (j,), n),
    ensures
        whole.offset == 0 && whole.length == m.size && whole.chunk_index is None,
        part.offset == offset && part.length == length && part.chunk_index == Some(chunk_index),
        whole.id == id && part.id == id && whole.file == file && part.file == file,
        whole.direction == direction && part.direction == direction,
        whole.verify_md5 == verify && part.verify_md5 == verify,
        whole.retry_count == 0 && part.retry_count == 0,
        n == old(j).retry_count + 1 && final(j).retry_count == n,
        final(j).offset == old(j).offset && final(j).length == old(j).length && final(j).chunk_index
            == old(j).chunk_index && final(j).file == old(j).file,
{
}

/// A job that is done tells what it moved, one that failed tells why and moved nothing.
pub proof fn lemma_result_tells_what_happened(
    id: u64,
    bytes: u64,
    md5: Option<String>,
    why: String,
    a: JobResult,
    b: JobResult,
)
    requires
        call_ensures(JobResult::success, (id, bytes, md5), a),
        call_ensures(JobResult::failure, (id, why), b),
    ensures
        a.success && a.error is None && a.job_id == id && a.bytes_transferred == bytes,
        a.md5 == md5,
        !b.success && b.error == Some(why) && b.job_id == id && b.bytes_transferred == 0,
        b.md5 is None,
{
}

} // verus!
