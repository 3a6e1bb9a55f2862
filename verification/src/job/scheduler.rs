//! From the paths of a transfer to its jobs: what goes where, what can be skipped, and how files
//! are cut.

use vstd::prelude::*;
use vstd::string::*;

use crate::agent::protocol;
use crate::agent::protocol::{Response, StatInfo};
use crate::agent::wire;
use crate::config::Config;
use crate::error::{ErrorView, StrawsError};
use crate::job::chunks;
use crate::job::queue::JobQueue;
use crate::job::types;
use crate::job::types::{Direction, FileMeta, Job};
use crate::path;
use crate::text;
use crate::transfer::upload;

verus! {

// ---------------------------------------------------------------------------
// What goes where
// ---------------------------------------------------------------------------

/// Whether the mode of a file is that of a directory.
pub open spec fn directory_mode(mode: u32) -> bool {
    mode & 0o170000u32 == 0o040000u32
}

/// Where a remote file or directory is kept below a local destination: inside it, under its own
/// name, where the destination is a directory or is written like one; else it takes the place of
/// the destination.
pub open spec fn local_place(
    remote_path: Seq<char>,
    local_dest: Seq<char>,
    dest_is_dir: bool,
) -> Seq<char> {
    if text::ends_with(local_dest, '/') || dest_is_dir {
        path::joined(local_dest, types::display_name(remote_path, "download"@))
    } else {
        local_dest
    }
}

fn place_locally(remote_path: &str, local_dest: &str, dest_is_dir: bool) -> (r: String)
    ensures
        r@ == local_place(remote_path@, local_dest@, dest_is_dir),
{
    if text::ends_with_char(local_dest, '/') || dest_is_dir {
        path::join(local_dest, types::name_or(remote_path, "download").as_str())
    } else {
        local_dest.to_owned()
    }
}

/// What a remote path turned out to be, and where it is kept.
#[derive(Debug)]
pub enum Target {
    /// A directory, whose contents go below a local one.
    Directory { local_base: String },
    /// A file.
    File { local_path: String, stat: StatInfo },
}

/// What a remote path turned out to be, with its texts as sequences of characters.
pub enum TargetView {
    Directory { local_base: Seq<char> },
    File { local_path: Seq<char>, stat: StatInfo },
}

impl View for Target {
    type V = TargetView;

    open spec fn view(&self) -> TargetView {
        match *self {
            Target::Directory { local_base } => TargetView::Directory { local_base: local_base@ },
            Target::File { local_path, stat } => TargetView::File { local_path: local_path@, stat },
        }
    }
}

/// Where the file or directory with these numbers is kept. The contents of a directory whose path
/// ends in `/` go right into the destination.
pub open spec fn target_of(
    remote_path: Seq<char>,
    local_dest: Seq<char>,
    dest_is_dir: bool,
    stat: StatInfo,
) -> TargetView {
    if directory_mode(stat.mode) {
        TargetView::Directory {
            local_base: if text::ends_with(remote_path, '/') {
                local_dest
            } else {
                local_place(remote_path, local_dest, dest_is_dir)
            },
        }
    } else {
        TargetView::File { local_path: local_place(remote_path, local_dest, dest_is_dir), stat }
    }
}

/// What the complaint of an agent about a path means.
pub open spec fn refusal_of(remote_path: Seq<char>, message: Seq<char>) -> ErrorView {
    if text::has_text(message, "not found"@) {
        ErrorView::NotFound(remote_path)
    } else {
        ErrorView::Remote(message)
    }
}

/// What the complaint of an agent about a path means.
pub fn refusal(remote_path: &str, message: &str) -> (r: StrawsError)
    ensures
        r@ == refusal_of(remote_path@, message@),
{
    if text::contains_text(message, "not found") {
        StrawsError::NotFound(remote_path.to_owned())
    } else {
        StrawsError::Remote(message.to_owned())
    }
}

/// What an agent's answer about a remote path makes of it: a target, or a failure.
pub open spec fn path_outcome(
    remote_path: Seq<char>,
    local_dest: Seq<char>,
    dest_is_dir: bool,
    reply: Result<Response, StrawsError>,
) -> Result<TargetView, ErrorView> {
    match reply {
        Err(e) => Err(e@),
        Ok(response) => match protocol::complaint(response@) {
            Some(message) => Err(refusal_of(remote_path, message)),
            None => if response@.data.len() < 20 {
                Err(
                    ErrorView::Protocol(
                        "Stat response too short: "@ + text::decimal_text(response@.data.len())
                            + " bytes"@,
                    ),
                )
            } else {
                Ok(
                    target_of(
                        remote_path,
                        local_dest,
                        dest_is_dir,
                        protocol::stat_of(response@.data),
                    ),
                )
            },
        },
    }
}

/// Where the file or directory with these numbers is kept.
pub fn target(remote_path: &str, local_dest: &str, dest_is_dir: bool, stat: StatInfo) -> (r: Target)
    ensures
        r@ == target_of(remote_path@, local_dest@, dest_is_dir, stat),
{
    let is_dir: bool = (stat.mode & 0o170000u32) == 0o040000u32;
    if is_dir {
        let local_base: String = if text::ends_with_char(remote_path, '/') {
            local_dest.to_owned()
        } else {
            place_locally(remote_path, local_dest, dest_is_dir)
        };
        Target::Directory { local_base }
    } else {
        Target::File { local_path: place_locally(remote_path, local_dest, dest_is_dir), stat }
    }
}

/// What an agent's answer about a remote path makes of it: a target, or a failure.
pub fn schedule_download_path(
    remote_path: &str,
    local_dest: &str,
    dest_is_dir: bool,
    reply: Result<Response, StrawsError>,
) -> (r: Result<Target, StrawsError>)
    ensures
        match r {
            Ok(t) => path_outcome(remote_path@, local_dest@, dest_is_dir, reply) == Ok::<
                TargetView,
                ErrorView,
            >(t@),
            Err(e) => path_outcome(remote_path@, local_dest@, dest_is_dir, reply) == Err::<
                TargetView,
                ErrorView,
            >(e@),
        },
{
    match reply {
        Err(e) => Err(e),
        Ok(response) => match response.error_message() {
            Some(message) => Err(refusal(remote_path, message.as_str())),
            None => match response.parse_stat() {
                Err(e) => Err(e),
                Ok(stat) => Ok(target(remote_path, local_dest, dest_is_dir, stat)),
            },
        },
    }
}

/// The part of a path that lies below a directory; the whole path where it lies elsewhere.
pub open spec fn below(p: Seq<char>, dir: Seq<char>) -> Seq<char> {
    match path::relative_to(p, dir) {
        Some(rest) => rest,
        None => p,
    }
}

/// Where a file that was found below a remote directory is kept.
pub fn local_path_for(entry_path: &str, remote_dir: &str, local_base: &str) -> (r: String)
    ensures
        r@ == path::joined(local_base@, below(entry_path@, remote_dir@)),
{
    match path::relative(entry_path, remote_dir) {
        Some(rest) => path::join(local_base, rest.as_str()),
        None => path::join(local_base, entry_path),
    }
}

/// Where a local file or directory goes at a remote destination: below it, under its own name,
/// where the destination is written like a directory; else it takes the place of the destination.
pub open spec fn remote_place(local_path: Seq<char>, remote_dest: Seq<char>) -> Seq<char> {
    if text::ends_with(remote_dest, '/') {
        remote_dest + types::display_name(local_path, "upload"@)
    } else {
        remote_dest
    }
}

/// Where a local file goes.
pub fn upload_path(local_path: &str, remote_dest: &str) -> (r: String)
    ensures
        r@ == remote_place(local_path@, remote_dest@),
{
    if text::ends_with_char(remote_dest, '/') {
        text::cat(remote_dest, types::name_or(local_path, "upload").as_str())
    } else {
        remote_dest.to_owned()
    }
}

/// Where the contents of a local directory go. Those of a directory whose path ends in `/` go right
/// into the destination.
pub fn upload_base(local_path: &str, remote_dest: &str) -> (r: String)
    ensures
        r@ == if text::ends_with(local_path@, '/') {
            remote_dest@
        } else {
            remote_place(local_path@, remote_dest@)
        },
{
    if text::ends_with_char(local_path, '/') {
        remote_dest.to_owned()
    } else {
        upload_path(local_path, remote_dest)
    }
}

/// Where a file or directory that was found in a local directory goes, below where that one goes.
pub open spec fn remote_entry(
    entry_path: Seq<char>,
    local_dir: Seq<char>,
    remote_base: Seq<char>,
) -> Seq<char> {
    let rest = match path::relative_to(entry_path, local_dir) {
        Some(rest) => rest,
        None => types::display_name(entry_path, ""@),
    };
    text::stripped_end(remote_base, set!['/']) + "/"@ + rest
}

/// Where a file or directory that was found in a local directory goes.
pub fn upload_entry_path(entry_path: &str, local_dir: &str, remote_base: &str) -> (r: String)
    ensures
        r@ == remote_entry(entry_path@, local_dir@, remote_base@),
{
    let rest: String = match path::relative(entry_path, local_dir) {
        Some(rest) => rest,
        None => types::name_or(entry_path, ""),
    };
    let base = text::strip_end(remote_base, '/', '/');
    proof {
        assert(set!['/', '/'] =~= set!['/']);
    }
    text::cat3(base.as_str(), "/", rest.as_str())
}

// ---------------------------------------------------------------------------
// What can be skipped
// ---------------------------------------------------------------------------

/// What the sizes of the two sides say about a file.
#[derive(Debug, Clone, Copy, PartialEq, Eq, Structural)]
pub enum Presence {
    /// It has to go over.
    Transfer,
    /// It is there already.
    Skip,
    /// It is there if the digests agree.
    Compare,
}

/// What the sizes say: `there` is the size on the receiving side, if the file exists there.
pub open spec fn presence(
    force: bool,
    digests_count: bool,
    there: Option<u64>,
    size: u64,
) -> Presence {
    if force || there != Some(size) {
        Presence::Transfer
    } else if digests_count {
        Presence::Compare
    } else {
        Presence::Skip
    }
}

/// Whether two digests are known and the same.
pub open spec fn digests_agree(a: Option<Seq<char>>, b: Option<Seq<char>>) -> bool {
    a is Some && b is Some && a.unwrap().len() > 0 && a == b
}

/// Whether a file is skipped.
pub open spec fn skipped(p: Presence, a: Option<Seq<char>>, b: Option<Seq<char>>) -> bool {
    p == Presence::Skip || (p == Presence::Compare && digests_agree(a, b))
}

fn find_presence(force: bool, digests_count: bool, there: Option<u64>, size: u64) -> (r: Presence)
    ensures
        r == presence(force, digests_count, there, size),
{
    let same: bool = match there {
        Some(n) => n == size,
        None => false,
    };
    if force || !same {
        Presence::Transfer
    } else if digests_count {
        Presence::Compare
    } else {
        Presence::Skip
    }
}

fn is_skipped(p: Presence, a: &Option<String>, b: &Option<String>) -> (r: bool)
    ensures
        r == skipped(p, a.deep_view(), b.deep_view()),
{
    match p {
        Presence::Skip => true,
        Presence::Transfer => false,
        Presence::Compare => match (a, b) {
            (Some(x), Some(y)) => x.as_str().unicode_len() > 0 && text::same_text(
                x.as_str(),
                y.as_str(),
            ),
            _ => false,
        },
    }
}

/// Whether the digest of the receiving side is worth asking for: the one of this side is known.
pub fn wants_other_digest(md5: &Option<String>) -> (r: bool)
    ensures
        r == (md5.deep_view() matches Some(m) && m.len() > 0),
        !r ==> forall|other: Option<Seq<char>>| !#[trigger] digests_agree(md5.deep_view(), other),
{
    match md5 {
        Some(m) => m.as_str().unicode_len() > 0,
        None => false,
    }
}

/// The size of a remote file, from the answer to a stat request; nothing where the answer is of no
/// use.
pub open spec fn size_in_reply(reply: Option<Response>) -> Option<u64> {
    match reply {
        Some(r) => if r@.status == protocol::ResponseStatus::Success && r@.data.len() >= 20 {
            Some(protocol::stat_of(r@.data).size)
        } else {
            None
        },
        None => None,
    }
}

/// The size of a remote file, from the answer to a stat request.
pub fn remote_size(reply: &Option<Response>) -> (r: Option<u64>)
    ensures
        r == size_in_reply(*reply),
{
    match reply {
        Some(response) => if response.is_success() {
            match response.parse_stat() {
                Ok(stat) => Some(stat.size),
                Err(_) => None,
            }
        } else {
            None
        },
        None => None,
    }
}

/// The digest of a remote file, from the answer to a digest request; nothing where the answer is of
/// no use.
pub open spec fn digest_in_reply(reply: Option<Response>) -> Option<Seq<char>> {
    match reply {
        Some(r) => if r@.status == protocol::ResponseStatus::Success {
            Some(wire::lossy_text(r@.data))
        } else {
            None
        },
        None => None,
    }
}

/// The digest of a remote file, from the answer to a digest request.
pub fn remote_digest(reply: &Option<Response>) -> (r: Option<String>)
    ensures
        r.deep_view() == digest_in_reply(*reply),
{
    match reply {
        Some(response) => if response.is_success() {
            Some(wire::lossy(response.data.as_slice()))
        } else {
            None
        },
        None => None,
    }
}

// ---------------------------------------------------------------------------
// The scheduler
// ---------------------------------------------------------------------------

/// The files and jobs of a transfer. The number of a job is its place among the jobs. Jobs go into
/// the queue in order, as far as it has room; the others wait.
pub struct JobScheduler {
    pub config: Config,
    pub queue: JobQueue,
    pub files: Vec<FileMeta>,
    pub jobs: Vec<Job>,
    /// The first job that was not put into the queue yet.
    pub next: usize,
    pub total_bytes: u64,
    pub total_files: u64,
    pub files_skipped: u64,
    /// Files that were found while directories were searched.
    pub files_found: u64,
}

/// A file of which nothing went over yet.
pub open spec fn fresh_file(
    f: FileMeta,
    remote_path: Seq<char>,
    local_path: Seq<char>,
    stat: StatInfo,
    chunks: nat,
) -> bool {
    &&& f.wf()
    &&& f.remote_path@ == remote_path
    &&& f.local_path@ == local_path
    &&& f.size == stat.size
    &&& f.mode == stat.mode
    &&& f.mtime == stat.mtime
    &&& f.total_chunks == chunks
    &&& f.completed_chunks@ == Seq::new(chunks, |i: int| false)
    &&& f.bytes_transferred == 0
    &&& f.prealloc_result is None
    &&& f.truncate_result is None
    &&& f.finalize_result is None
}

/// How many jobs a file makes.
pub open spec fn job_number(size: u64, chunk_size: u64, tunnels: usize) -> nat {
    if chunks::cut(size, chunk_size, tunnels) {
        chunks::chunk_number(size as nat, chunk_size as nat)
    } else {
        1
    }
}

/// The jobs of a file: one for each chunk, or one for the whole file.
pub open spec fn file_jobs(
    first_id: nat,
    file: usize,
    direction: Direction,
    size: u64,
    chunk_size: u64,
    tunnels: usize,
    verify_md5: bool,
) -> Seq<Job> {
    Seq::new(
        job_number(size, chunk_size, tunnels),
        |i: int|
            Job {
                id: (first_id + i) as u64,
                file,
                direction,
                offset: if chunks::cut(size, chunk_size, tunnels) {
                    chunks::chunk_offset(i as nat, chunk_size as nat) as u64
                } else {
                    0
                },
                length: if chunks::cut(size, chunk_size, tunnels) {
                    chunks::chunk_length(i as nat, size as nat, chunk_size as nat) as u64
                } else {
                    size
                },
                chunk_index: if chunks::cut(size, chunk_size, tunnels) {
                    Some(i as u32)
                } else {
                    None
                },
                verify_md5,
                retry_count: 0,
            },
    )
}

impl JobScheduler {
    /// The numbers fit together: jobs are numbered by their place, their files are there, the queue
    /// holds numbers of jobs, and chunks can be counted from one.
    pub open spec fn wf(self) -> bool {
        &&& self.config.wf()
        &&& self.queue.wf()
        &&& self.queue.capacity() > 0
        &&& self.next <= self.jobs@.len()
        &&& forall|j: int|
            0 <= j < self.jobs@.len() ==> (#[trigger] self.jobs@[j]).id == j && self.jobs@[j].file
                < self.files@.len()
        &&& forall|j: int|
            0 <= j < self.jobs@.len() ==> ((#[trigger] self.jobs@[j]).chunk_index matches Some(i)
                ==> i < u32::MAX)
        &&& forall|k: int|
            0 <= k < self.queue@.len() ==> (#[trigger] self.queue@[k]) < self.jobs@.len()
        &&& forall|f: int| 0 <= f < self.files@.len() ==> (#[trigger] self.files@[f]).wf()
    }

    /// The jobs that are still to be done, in order: those in the queue, and those that wait.
    pub open spec fn pending(self) -> Seq<u64> {
        self.queue@ + Seq::new(
            (self.jobs@.len() - self.next) as nat,
            |k: int| (self.next + k) as u64,
        )
    }

    /// A transfer without files yet.
    pub fn new(config: Config, queue: JobQueue) -> (r: Self)
        requires
            config.wf(),
            queue.wf(),
            queue@.len() == 0,
            queue.capacity() > 0,
        ensures
            r.wf(),
            r.config == config,
            r.queue.capacity() == queue.capacity(),
            r.pending() == Seq::<u64>::empty(),
            r.files@.len() == 0,
            r.jobs@.len() == 0,
            r.total_bytes == 0,
            r.total_files == 0,
            r.files_skipped == 0,
            r.files_found == 0,
    {
        JobScheduler {
            config,
            queue,
            files: Vec::new(),
            jobs: Vec::new(),
            next: 0,
            total_bytes: 0,
            total_files: 0,
            files_skipped: 0,
            files_found: 0,
        }
    }

    /// Bytes of all files that have to go over.
    pub fn total_bytes(&self) -> (r: u64)
        ensures
            r == self.total_bytes,
    {
        self.total_bytes
    }

    /// Files that have to go over.
    pub fn total_files(&self) -> (r: u64)
        ensures
            r == self.total_files,
    {
        self.total_files
    }

    /// Files that are there already.
    pub fn files_skipped(&self) -> (r: u64)
        ensures
            r == self.files_skipped,
    {
        self.files_skipped
    }

    /// Files that were found while directories were searched.
    pub fn files_found(&self) -> (r: u64)
        ensures
            r == self.files_found,
    {
        self.files_found
    }

    /// Jobs that were made.
    pub fn jobs_scheduled(&self) -> (r: u64)
        ensures
            r == self.jobs@.len(),
    {
        self.jobs.len() as u64
    }

    /// Counts a file that was found while a directory was searched; the count wraps around.
    pub fn count_found(&mut self)
        ensures
            *final(self) == (JobScheduler {
                files_found: old(self).files_found.wrapping_add(1),
                ..*old(self)
            }),
    {
        self.files_found = self.files_found.wrapping_add(1);
    }

    /// The remote paths of a download.
    pub fn download_paths(&self) -> (r: Vec<String>)
        ensures
            text::texts(r@) == text::split_text(self.config.remote.path@, '\0'),
    {
        text::split(self.config.remote.path.as_str(), '\0')
    }

    /// Whether the local destination has to be a directory: there are several remote paths, or one
    /// with a `*`.
    pub fn needs_directory(&self) -> (r: bool)
        ensures
            r == (text::split_text(self.config.remote.path@, '\0').len() > 1
                || self.config.remote.path@.contains('*')),
    {
        let paths = self.download_paths();
        let several: bool = paths.len() > 1;
        let v = text::chars_of(self.config.remote.path.as_str());
        proof {
            assert(text::texts(paths@).len() == paths@.len());
            v@.index_of_first_ensures('*');
        }
        several || text::find_char(&v, '*').is_some()
    }

    /// Whether it matters what is on the receiving side already.
    pub fn checks_presence(&self) -> (r: bool)
        ensures
            r == !self.config.force,
    {
        !self.config.force
    }

    /// What the sizes say about a file to be downloaded. Digests count where both sides have one.
    pub fn download_presence(&self, local_len: Option<u64>, size: u64, has_remote_md5: bool) -> (r:
        Presence)
        ensures
            r == presence(
                self.config.force,
                self.config.verify && has_remote_md5,
                local_len,
                size,
            ),
    {
        find_presence(self.config.force, self.config.verify && has_remote_md5, local_len, size)
    }

    /// What the sizes say about a file to be uploaded.
    pub fn upload_presence(&self, remote_len: Option<u64>, size: u64) -> (r: Presence)
        ensures
            r == presence(self.config.force, self.config.verify, remote_len, size),
    {
        find_presence(self.config.force, self.config.verify, remote_len, size)
    }

    /// A file was skipped, and nothing else changed but the count, which wraps around.
    pub open spec fn skips(self, after: Self) -> bool {
        after == (JobScheduler {
            files_skipped: self.files_skipped.wrapping_add(1),
            ..self
        })
    }

    /// A file and its jobs came in behind all others, and were counted; the counts wrap around.
    pub open spec fn adds(
        self,
        after: Self,
        remote_path: Seq<char>,
        local_path: Seq<char>,
        stat: StatInfo,
        direction: Direction,
        tunnels: usize,
    ) -> bool {
        &&& after.files@.len() == self.files@.len() + 1
        &&& after.files@.drop_last() == self.files@
        &&& fresh_file(
            after.files@.last(),
            remote_path,
            local_path,
            stat,
            job_number(stat.size, self.config.chunk_size, tunnels),
        )
        &&& after.jobs@ == self.jobs@ + file_jobs(
            self.jobs@.len(),
            self.files@.len() as usize,
            direction,
            stat.size,
            self.config.chunk_size,
            tunnels,
            self.config.verify,
        )
        &&& after.total_bytes == self.total_bytes.wrapping_add(stat.size)
        &&& after.total_files == self.total_files.wrapping_add(1)
        &&& after.config == self.config
        &&& after.queue == self.queue
        &&& after.next == self.next
        &&& after.files_skipped == self.files_skipped
        &&& after.files_found == self.files_found
    }

    /// Whether the size of a file and the size of a chunk can be added up, where the file is large.
    pub open spec fn cuttable(self, size: u64, tunnels: usize) -> bool {
        !chunks::large(size, self.config.chunk_size, tunnels) || size + self.config.chunk_size - 1
            <= u64::MAX
    }

    /// Whether the size of a file and the size of a chunk can be added up, where the file is large.
    pub fn can_cut(&self, size: u64, tunnels: usize) -> (r: bool)
        requires
            self.wf(),
        ensures
            r == self.cuttable(size, tunnels),
    {
        !chunks::is_large(size, self.config.chunk_size, tunnels) || size <= u64::MAX - (
        self.config.chunk_size - 1)
    }

    fn add_file(
        &mut self,
        remote_path: &str,
        local_path: &str,
        stat: StatInfo,
        direction: Direction,
        tunnels: usize,
    )
        requires
            old(self).wf(),
            old(self).cuttable(stat.size, tunnels),
        ensures
            final(self).wf(),
            old(self).adds(
                *final(self),
                remote_path@,
                local_path@,
                stat,
                direction,
                tunnels,
            ),
    {
        let ghost before = *self;
        let size: u64 = stat.size;
        let chunk_size: u64 = self.config.chunk_size;
        let verify: bool = self.config.verify;
        let file: usize = self.files.len();
        let first: usize = self.jobs.len();
        self.total_bytes = self.total_bytes.wrapping_add(size);
        self.total_files = self.total_files.wrapping_add(1);
        let ghost new_jobs = file_jobs(
            first as nat,
            file,
            direction,
            size,
            chunk_size,
            tunnels,
            verify,
        );
        if chunks::should_chunk(size, chunk_size, tunnels) {
            let count: u32 = chunks::count_chunks(size, chunk_size);
            let meta = FileMeta::new(
                remote_path.to_owned(),
                local_path.to_owned(),
                size,
                stat.mode,
                stat.mtime,
                count,
            );
            self.files.push(meta);
            let mut i: u32 = 0;
            while i < count
                invariant
                    i <= count,
                    chunk_size > 0,
                    chunks::cut(size, chunk_size, tunnels),
                    count == chunks::chunk_number(size as nat, chunk_size as nat),
                    first == before.jobs@.len(),
                    new_jobs == file_jobs(
                        first as nat,
                        file,
                        direction,
                        size,
                        chunk_size,
                        tunnels,
                        verify,
                    ),
                    self.jobs@ == before.jobs@ + new_jobs.take(i as int),
                    self.files@ == before.files@.push(meta),
                    self.config == before.config,
                    self.queue == before.queue,
                    self.next == before.next,
                    self.total_bytes == before.total_bytes.wrapping_add(size),
                    self.total_files == before.total_files.wrapping_add(1),
                    self.files_skipped == before.files_skipped,
                    self.files_found == before.files_found,
                decreases count - i,
            {
                proof {
                    let n = chunks::chunk_number(size as nat, chunk_size as nat);
                    assert(i < n);
                    chunks::lemma_chunk_is_within(i as nat, size as nat, chunk_size as nat);
                }
                let offset: u64 = i as u64 * chunk_size;
                let left: u64 = size - offset;
                let length: u64 = if chunk_size < left {
                    chunk_size
                } else {
                    left
                };
                let id: u64 = self.jobs.len() as u64;
                self.jobs.push(Job::chunk(id, file, direction, i, offset, length, verify));
                proof {
                    assert(self.jobs@.last() == new_jobs[i as int]);
                    assert(self.jobs@ =~= before.jobs@ + new_jobs.take(i + 1));
                }
                i = i + 1;
            }
            proof {
                assert(new_jobs.take(count as int) =~= new_jobs);
            }
        } else {
            let meta = FileMeta::new(
                remote_path.to_owned(),
                local_path.to_owned(),
                size,
                stat.mode,
                stat.mtime,
                1,
            );
            let job = Job::whole_file(first as u64, file, &meta, direction, verify);
            self.files.push(meta);
            self.jobs.push(job);
            proof {
                assert(self.jobs@ =~= before.jobs@ + new_jobs);
            }
        }
        proof {
            assert(self.jobs@.len() == self.jobs.len());
            assert(self.files@.drop_last() =~= before.files@);
            assert forall|j: int| 0 <= j < self.jobs@.len() implies (#[trigger] self.jobs@[j]).id
                == j && self.jobs@[j].file < self.files@.len() by {
                if j >= first {
                    assert(self.jobs@[j] == new_jobs[j - first]);
                } else {
                    assert(self.jobs@[j] == before.jobs@[j]);
                }
            }
            assert forall|j: int| 0 <= j < self.jobs@.len() implies ((
            #[trigger] self.jobs@[j]).chunk_index matches Some(i) ==> i < u32::MAX) by {
                if j >= first {
                    assert(self.jobs@[j] == new_jobs[j - first]);
                } else {
                    assert(self.jobs@[j] == before.jobs@[j]);
                }
            }
            assert forall|f: int| 0 <= f < self.files@.len() implies (
            #[trigger] self.files@[f]).wf() by {
                if f < before.files@.len() {
                    assert(self.files@[f] == before.files@[f]);
                }
            }
        }
    }

    /// Brings in a file to be downloaded, or skips it. `local_len` is the size of the local file,
    /// if there is one.
    pub fn create_download_jobs(
        &mut self,
        remote_path: &str,
        local_path: &str,
        stat: StatInfo,
        remote_md5: &Option<String>,
        local_len: Option<u64>,
        local_md5: &Option<String>,
        tunnel_count: usize,
    )
        requires
            old(self).wf(),
            old(self).cuttable(stat.size, tunnel_count),
        ensures
            final(self).wf(),
            ({
                let config = old(self).config;
                let p = presence(
                    config.force,
                    config.verify && remote_md5 is Some,
                    local_len,
                    stat.size,
                );
                if skipped(p, local_md5.deep_view(), remote_md5.deep_view()) {
                    old(self).skips(*final(self))
                } else {
                    old(self).adds(
                        *final(self),
                        remote_path@,
                        local_path@,
                        stat,
                        Direction::Download,
                        tunnel_count,
                    )
                }
            }),
    {
        let p = self.download_presence(local_len, stat.size, remote_md5.is_some());
        if is_skipped(p, local_md5, remote_md5) {
            self.files_skipped = self.files_skipped.wrapping_add(1);
        } else {
            self.add_file(remote_path, local_path, stat, Direction::Download, tunnel_count);
        }
    }

    /// Brings in a file to be uploaded, or skips it. `remote_len` is the size of the remote file,
    /// if there is one.
    pub fn create_upload_jobs(
        &mut self,
        remote_path: &str,
        local_path: &str,
        stat: StatInfo,
        local_md5: &Option<String>,
        remote_len: Option<u64>,
        remote_md5: &Option<String>,
        tunnel_count: usize,
    )
        requires
            old(self).wf(),
            old(self).cuttable(stat.size, tunnel_count),
        ensures
            final(self).wf(),
            ({
                let config = old(self).config;
                let p = presence(config.force, config.verify, remote_len, stat.size);
                if skipped(p, local_md5.deep_view(), remote_md5.deep_view()) {
                    old(self).skips(*final(self))
                } else {
                    old(self).adds(
                        *final(self),
                        remote_path@,
                        local_path@,
                        stat,
                        Direction::Upload,
                        tunnel_count,
                    )
                }
            }),
    {
        let p = self.upload_presence(remote_len, stat.size);
        if is_skipped(p, local_md5, remote_md5) {
            self.files_skipped = self.files_skipped.wrapping_add(1);
        } else {
            self.add_file(remote_path, local_path, stat, Direction::Upload, tunnel_count);
        }
    }

    /// Everything but the queue, and how far the jobs went into it, is the same.
    pub open spec fn same_work(self, other: Self) -> bool {
        &&& self.config == other.config
        &&& self.files == other.files
        &&& self.jobs == other.jobs
        &&& self.total_bytes == other.total_bytes
        &&& self.total_files == other.total_files
        &&& self.files_skipped == other.files_skipped
        &&& self.files_found == other.files_found
        &&& self.queue.capacity() == other.queue.capacity()
    }

    /// Puts jobs that wait into the queue, as far as it has room.
    pub fn fill(&mut self)
        requires
            old(self).wf(),
        ensures
            final(self).wf(),
            final(self).pending() == old(self).pending(),
            final(self).same_work(*old(self)),
            final(self).next == final(self).jobs@.len() || final(self).queue@.len() >= final(self).queue.capacity(),
    {
        let ghost before = *self;
        while self.next < self.jobs.len()
            invariant
                self.wf(),
                self.same_work(before),
                self.pending() == before.pending(),
            ensures
                self.next == self.jobs@.len() || self.queue@.len() >= self.queue.capacity(),
            decreases self.jobs@.len() - self.next,
        {
            let ghost q = self.queue@;
            let ghost n = self.next;
            let pushed: bool = self.queue.try_push(self.next as u64);
            if !pushed {
                break;
            }
            self.next = self.next + 1;
            proof {
                let rest = Seq::new((self.jobs@.len() - n) as nat, |k: int| (n + k) as u64);
                assert(self.pending() =~= q + rest);
            }
        }
    }

    /// Takes the first of the jobs that are still to be done.
    pub fn take_job(&mut self) -> (r: Option<u64>)
        requires
            old(self).wf(),
        ensures
            final(self).wf(),
            final(self).same_work(*old(self)),
            old(self).pending().len() == 0 ==> r is None && final(self).pending() == old(self).pending(),
            old(self).pending().len() > 0 ==> r == Some(
                old(self).pending().first(),
            ) && final(self).pending() == old(self).pending().drop_first(),
            r matches Some(id) ==> id < old(self).jobs@.len(),
    {
        self.fill();
        let ghost filled = *self;
        let r = self.queue.try_pop();
        proof {
            if filled.queue@.len() > 0 {
                assert(filled.queue@[0] < filled.jobs@.len());
                assert(self.pending() =~= filled.pending().drop_first());
                assert forall|k: int| 0 <= k < self.queue@.len() implies (
                #[trigger] self.queue@[k]) < self.jobs@.len() by {
                    assert(self.queue@[k] == filled.queue@[k + 1]);
                }
            }
        }
        r
    }

    /// Puts a job that failed back into the queue, if there is room.
    pub fn requeue(&mut self, id: u64) -> (r: bool)
        requires
            old(self).wf(),
            id < old(self).jobs@.len(),
        ensures
            final(self).wf(),
            final(self).same_work(*old(self)),
            final(self).next == old(self).next,
            r == (old(self).queue@.len() < old(self).queue.capacity()),
            final(self).queue@ == if r {
                old(self).queue@.push(id)
            } else {
                old(self).queue@
            },
    {
        self.queue.try_push(id)
    }

    /// The place of a job among the jobs.
    pub fn place(&self, id: u64) -> (r: usize)
        requires
            id < self.jobs@.len(),
        ensures
            r == id,
    {
        proof {
            assert(self.jobs@.len() == self.jobs.len());
        }
        id as usize
    }

    /// Counts a failure of a job, and says how many there were.
    pub fn count_failure(&mut self, id: u64) -> (r: u32)
        requires
            old(self).wf(),
            id < old(self).jobs@.len(),
            old(self).jobs@[id as int].retry_count < u32::MAX,
        ensures
            final(self).wf(),
            r == old(self).jobs@[id as int].retry_count + 1,
            final(self).jobs@ == old(self).jobs@.update(
                id as int,
                Job { retry_count: r, ..old(self).jobs@[id as int] },
            ),
            final(self).config == old(self).config,
            final(self).queue == old(self).queue,
            final(self).files == old(self).files,
            final(self).next == old(self).next,
            final(self).total_bytes == old(self).total_bytes,
            final(self).total_files == old(self).total_files,
            final(self).files_skipped == old(self).files_skipped,
            final(self).files_found == old(self).files_found,
    {
        let ghost before = *self;
        let i: usize = self.place(id);
        let job = &mut self.jobs[i];
        let r = job.increment_retry();
        proof {
            assert forall|j: int| 0 <= j < self.jobs@.len() implies (#[trigger] self.jobs@[j]).id
                == j && self.jobs@[j].file < self.files@.len() by {
                assert(before.jobs@[j].id == j);
            }
        }
        r
    }

    /// Whether no job is left in the queue or waiting for it.
    pub fn is_drained(&self) -> (r: bool)
        requires
            self.wf(),
        ensures
            r == (self.pending().len() == 0),
    {
        self.queue.is_empty() && self.next == self.jobs.len()
    }
}

// ---------------------------------------------------------------------------
// Laws
// ---------------------------------------------------------------------------

/// The jobs of a file cover it: every byte lies in the range of one job, and of no other.
pub proof fn lemma_jobs_cover_the_file(
    first_id: nat,
    file: usize,
    direction: Direction,
    size: u64,
    chunk_size: u64,
    tunnels: usize,
    verify_md5: bool,
    p: u64,
)
    requires
        chunk_size > 0,
        p < size,
    ensures
        ({
            let jobs = file_jobs(
                first_id,
                file,
                direction,
                size,
                chunk_size,
                tunnels,
                verify_md5,
            );
            exists|i: int|
                #![trigger jobs[i]]
                0 <= i < jobs.len() && jobs[i].offset <= p < jobs[i].offset + jobs[i].length
                    && forall|k: int|
                    #![trigger jobs[k]]
                    0 <= k < jobs.len() && jobs[k].offset <= p < jobs[k].offset + jobs[k].length
                        ==> k == i
        }),
{
    let jobs = file_jobs(first_id, file, direction, size, chunk_size, tunnels, verify_md5);
    if chunks::cut(size, chunk_size, tunnels) {
        let s = size as nat;
        let c = chunk_size as nat;
        chunks::lemma_chunks_tile(p as int, s, c);
        let i = p as int / c as int;
        assert forall|k: int| 0 <= k < jobs.len() implies #[trigger] jobs[k].offset
            == chunks::chunk_offset(k as nat, c) && jobs[k].length == chunks::chunk_length(
            k as nat,
            s,
            c,
        ) by {
            chunks::lemma_chunk_is_within(k as nat, s, c);
        }
        assert forall|k: int|
            #![trigger jobs[k]]
            0 <= k < jobs.len() && jobs[k].offset <= p < jobs[k].offset + jobs[k].length implies k
            == i by {
            assert(chunks::in_chunk(p as int, k as nat, s, c));
        }
        assert(0 <= i) by {
            assert(chunks::in_chunk(p as int, i as nat, s, c));
            vstd::arithmetic::div_mod::lemma_div_pos_is_pos(p as int, c as int);
        }
        assert(jobs[i].offset == chunks::chunk_offset(i as nat, c));
    } else {
        assert(jobs[0].offset <= p < jobs[0].offset + jobs[0].length);
    }
}

/// A file after jobs wrote their ranges of `content` to it, in the order given.
pub open spec fn written_by(
    file: Seq<u8>,
    content: Seq<u8>,
    jobs: Seq<Job>,
    order: Seq<nat>,
) -> Seq<u8>
    decreases order.len(),
{
    if order.len() == 0 {
        file
    } else {
        let job = jobs[order.last() as int];
        chunks::placed(
            written_by(file, content, jobs, order.drop_last()),
            job.offset as nat,
            content.subrange(job.offset as int, job.offset + job.length),
        )
    }
}

proof fn lemma_written_by_chunks(
    file: Seq<u8>,
    content: Seq<u8>,
    jobs: Seq<Job>,
    chunk_size: nat,
    order: Seq<nat>,
)
    requires
        forall|k: int| 0 <= k < order.len() ==> #[trigger] order[k] < jobs.len(),
        forall|i: int|
            0 <= i < jobs.len() ==> (#[trigger] jobs[i]).offset == chunks::chunk_offset(
                i as nat,
                chunk_size,
            ) && jobs[i].length == chunks::chunk_length(i as nat, content.len(), chunk_size),
    ensures
        written_by(file, content, jobs, order) == chunks::assembled(
            file,
            content,
            chunk_size,
            order,
        ),
    decreases order.len(),
{
    if order.len() > 0 {
        let front = order.drop_last();
        assert forall|k: int| 0 <= k < front.len() implies #[trigger] front[k] < jobs.len() by {
            assert(front[k] == order[k]);
        }
        lemma_written_by_chunks(file, content, jobs, chunk_size, front);
        assert(order[order.len() - 1] == order.last());
        assert(jobs[order.last() as int].offset == chunks::chunk_offset(
            order.last(),
            chunk_size,
        ));
    }
}

proof fn lemma_written_whole(file: Seq<u8>, content: Seq<u8>, jobs: Seq<Job>, order: Seq<nat>)
    requires
        jobs.len() == 1,
        jobs[0].offset == 0,
        jobs[0].length == content.len(),
        file.len() <= content.len(),
        order.len() > 0,
        forall|k: int| 0 <= k < order.len() ==> #[trigger] order[k] < 1,
    ensures
        written_by(file, content, jobs, order) == content,
    decreases order.len(),
{
    let front = order.drop_last();
    assert(order[order.len() - 1] == order.last());
    assert(content.subrange(0, content.len() as int) =~= content);
    if front.len() == 0 {
        assert(written_by(file, content, jobs, front) == file);
        assert(chunks::placed(file, 0, content) =~= content);
    } else {
        assert forall|k: int| 0 <= k < front.len() implies #[trigger] front[k] < 1 by {
            assert(front[k] == order[k]);
        }
        lemma_written_whole(file, content, jobs, front);
        assert(chunks::placed(content, 0, content) =~= content);
    }
}

/// Once every job of a file was done, the file is on the other side as it is on this one: in
/// whatever order the jobs were done, and however often one of them was tried again. The file that
/// is written to must not be longer.
pub proof fn lemma_jobs_copy_the_file(
    file: Seq<u8>,
    content: Seq<u8>,
    first_id: nat,
    index: usize,
    direction: Direction,
    chunk_size: u64,
    tunnels: usize,
    verify_md5: bool,
    order: Seq<nat>,
)
    requires
        chunk_size > 0,
        content.len() <= u64::MAX,
        file.len() <= content.len(),
        ({
            let jobs = file_jobs(
                first_id,
                index,
                direction,
                content.len() as u64,
                chunk_size,
                tunnels,
                verify_md5,
            );
            &&& forall|k: int| 0 <= k < order.len() ==> #[trigger] order[k] < jobs.len()
            &&& forall|i: nat| i < jobs.len() ==> #[trigger] order.contains(i)
        }),
    ensures
        written_by(
            file,
            content,
            file_jobs(
                first_id,
                index,
                direction,
                content.len() as u64,
                chunk_size,
                tunnels,
                verify_md5,
            ),
            order,
        ) == content,
{
    let size = content.len() as u64;
    let c = chunk_size as nat;
    let jobs = file_jobs(first_id, index, direction, size, chunk_size, tunnels, verify_md5);
    if chunks::cut(size, chunk_size, tunnels) {
        assert forall|i: int| 0 <= i < jobs.len() implies (#[trigger] jobs[i]).offset
            == chunks::chunk_offset(i as nat, c) && jobs[i].length == chunks::chunk_length(
            i as nat,
            content.len(),
            c,
        ) by {
            chunks::lemma_chunk_is_within(i as nat, content.len(), c);
        }
        lemma_written_by_chunks(file, content, jobs, c, order);
        chunks::lemma_chunks_make_the_file(file, content, c, order);
    } else {
        assert(order.contains(0nat));
        lemma_written_whole(file, content, jobs, order);
    }
}

/// The jobs of a file wait behind all that came before, in order.
pub proof fn lemma_new_jobs_wait_behind(
    before: JobScheduler,
    after: JobScheduler,
    remote_path: Seq<char>,
    local_path: Seq<char>,
    stat: StatInfo,
    direction: Direction,
    tunnels: usize,
)
    requires
        before.wf(),
        before.adds(after, remote_path, local_path, stat, direction, tunnels),
    ensures
        after.pending() == before.pending() + Seq::new(
            job_number(stat.size, before.config.chunk_size, tunnels),
            |i: int| (before.jobs@.len() + i) as u64,
        ),
{
    assert(after.pending() =~= before.pending() + Seq::new(
        job_number(stat.size, before.config.chunk_size, tunnels),
        |i: int| (before.jobs@.len() + i) as u64,
    ));
}

/// The several remote paths that a command line names are found again, one by one, as long as none
/// of them holds a NUL.
pub proof fn lemma_remote_paths_come_back(paths: Seq<Seq<char>>)
    requires
        paths.len() > 0,
        forall|i: int| 0 <= i < paths.len() ==> !(#[trigger] paths[i]).contains('\0'),
    ensures
        text::split_text(text::join_text(paths, "\0"@), '\0') == paths,
{
    reveal_strlit("\0");
    assert("\0"@ =~= seq!['\0']);
    text::lemma_split_undoes_join(paths, '\0');
}

/// A directory tree keeps its shape: a file that lies below a remote directory goes to the same
/// place below the local one, and a file that lies in a local directory goes to the same place below
/// the remote one. The path below the directory begins and ends with components that count.
pub proof fn lemma_tree_keeps_its_shape(dir: Seq<char>, base: Seq<char>, rel: Seq<char>)
    requires
        !path::rooted(rel),
        path::begun(rel) == rel,
        path::settled(rel, 0) == rel,
    ensures
        path::joined(base, below(path::joined(dir, rel), dir)) == path::joined(base, rel),
        remote_entry(path::joined(dir, rel), dir, base) == text::stripped_end(base, set!['/'])
            + "/"@ + rel,
{
    path::lemma_relative_of_joined(dir, rel);
}

/// A job that was taken is not taken again before it is put back.
pub proof fn lemma_taken_job_is_gone(pending: Seq<u64>)
    requires
        pending.no_duplicates(),
        pending.len() > 0,
    ensures
        !pending.drop_first().contains(pending.first()),
        pending.drop_first().no_duplicates(),
{
    let rest = pending.drop_first();
    assert forall|k: int| 0 <= k < rest.len() implies rest[k] != pending[0] by {
        assert(rest[k] == pending[k + 1]);
    }
    assert forall|i: int, j: int| 0 <= i < j < rest.len() implies rest[i] != rest[j] by {
        assert(rest[i] == pending[i + 1]);
        assert(rest[j] == pending[j + 1]);
    }
}

/// New jobs are other than those that are still to be done.
pub proof fn lemma_new_jobs_are_distinct(
    before: JobScheduler,
    after: JobScheduler,
    remote_path: Seq<char>,
    local_path: Seq<char>,
    stat: StatInfo,
    direction: Direction,
    tunnels: usize,
)
    requires
        before.wf(),
        before.pending().no_duplicates(),
        before.adds(after, remote_path, local_path, stat, direction, tunnels),
        after.jobs@.len() <= u64::MAX,
    ensures
        after.pending().no_duplicates(),
{
    lemma_new_jobs_wait_behind(
        before,
        after,
        remote_path,
        local_path,
        stat,
        direction,
        tunnels,
    );
    let p = before.pending();
    let q = after.pending();
    assert forall|k: int| 0 <= k < p.len() implies #[trigger] p[k] < before.jobs@.len() by {
        if k < before.queue@.len() {
            assert(p[k] == before.queue@[k]);
        }
    }
    assert forall|i: int, j: int| 0 <= i < j < q.len() implies q[i] != q[j] by {
        if j < p.len() {
            assert(p[i] != p[j]);
        }
    }
}

/// A job that is not waiting can be put back without being there twice.
pub proof fn lemma_requeued_job_is_distinct(before: JobScheduler, after: JobScheduler, id: u64)
    requires
        before.pending().no_duplicates(),
        !before.pending().contains(id),
        after.queue@ == before.queue@.push(id),
        after.jobs@.len() == before.jobs@.len(),
        after.next == before.next,
    ensures
        after.pending().no_duplicates(),
{
    let p = before.pending();
    let q = after.pending();
    let n = before.queue@.len() as int;
    let old_place = |k: int|
        if k < n {
            k
        } else {
            k - 1
        };
    assert forall|i: int, j: int| 0 <= i < j < q.len() implies q[i] != q[j] by {
        if i == n {
            assert(q[j] == p[j - 1]);
            assert(p.contains(p[j - 1]));
        } else if j == n {
            assert(q[i] == p[i]);
            assert(p.contains(p[i]));
        } else {
            assert(q[i] == p[old_place(i)]);
            assert(q[j] == p[old_place(j)]);
        }
    }
}

// ---------------------------------------------------------------------------
// Laws: what comes in
// ---------------------------------------------------------------------------

/// A file that comes in is the one that was asked for, and so are its jobs. A file that is longer
/// than a chunk goes over several connections: it is cut into as few chunks as there can be, none
/// longer than the chunk size, and each has a job of its own. Any other file has a single job.
pub proof fn lemma_new_file_is_cut(
    before: JobScheduler,
    after: JobScheduler,
    remote_path: Seq<char>,
    local_path: Seq<char>,
    stat: StatInfo,
    direction: Direction,
    tunnels: usize,
)
    requires
        before.wf(),
        after.wf(),
        before.adds(after, remote_path, local_path, stat, direction, tunnels),
    ensures
        ({
            let c = before.config.chunk_size;
            let first = before.jobs@.len();
            let n = after.jobs@.len() - first;
            let meta = after.files@.last();
            let several = stat.size > c && tunnels >= 2 && stat.size <= c * u32::MAX;
            &&& after.files@.len() == before.files@.len() + 1
            &&& forall|f: int|
                0 <= f < before.files@.len() ==> (#[trigger] after.files@[f]) == before.files@[f]
            &&& forall|j: int| 0 <= j < first ==> (#[trigger] after.jobs@[j]) == before.jobs@[j]
            &&& meta.remote_path@ == remote_path && meta.local_path@ == local_path
            &&& meta.size == stat.size && meta.mode == stat.mode && meta.mtime == stat.mtime
            &&& meta.bytes_transferred == 0 && meta.total_chunks == n
            &&& meta.prealloc_result is None && meta.truncate_result is None
                && meta.finalize_result is None
            &&& n >= 1 && (several <==> n >= 2)
            &&& n >= 2 ==> (n - 1) * c < stat.size <= n * c
            &&& forall|j: int|
                first <= j < after.jobs@.len() ==> {
                    let job = #[trigger] after.jobs@[j];
                    let k = j - first;
                    &&& job.id == j && job.file == before.files@.len()
                    &&& job.direction == direction && job.verify_md5 == before.config.verify
                    &&& job.retry_count == 0
                    &&& n >= 2 ==> job.chunk_index == Some(k as u32) && job.offset == k * c
                        && 0 < job.length <= c && (k < n - 1 ==> job.length == c) && (k == n - 1
                        ==> job.offset + job.length == stat.size)
                    &&& n == 1 ==> job.chunk_index is None && job.offset == 0 && job.length
                        == stat.size
                }
            &&& before.total_bytes + stat.size <= u64::MAX ==> after.total_bytes
                == before.total_bytes + stat.size
            &&& before.total_files < u64::MAX ==> after.total_files == before.total_files + 1
            &&& after.files_skipped == before.files_skipped
            &&& after.config == before.config
        }),
{
    let c = before.config.chunk_size;
    let s = stat.size;
    let first = before.jobs@.len() as int;
    let n = after.jobs@.len() - first;
    let new_jobs = file_jobs(
        before.jobs@.len(),
        before.files@.len() as usize,
        direction,
        s,
        c,
        tunnels,
        before.config.verify,
    );
    assert(after.jobs@.len() == after.jobs.len());
    assert(after.files@.len() == after.files.len());
    chunks::lemma_number_is_bounded(s as nat, c as nat, u32::MAX as nat);
    chunks::lemma_number_is_bounded(s as nat, c as nat, n as nat);
    if n >= 1 {
        chunks::lemma_number_is_bounded(s as nat, c as nat, (n - 1) as nat);
        assert((n - 1) * c == c * (n - 1)) by (nonlinear_arith);
        assert(n * c == c * n) by (nonlinear_arith);
    }
    chunks::lemma_number_is_bounded(s as nat, c as nat, 1);
    assert forall|f: int| 0 <= f < before.files@.len() implies (#[trigger] after.files@[f])
        == before.files@[f] by {
        assert(after.files@.drop_last()[f] == after.files@[f]);
    }
    assert forall|j: int| first <= j < after.jobs@.len() implies {
        let job = #[trigger] after.jobs@[j];
        let k = j - first;
        &&& job.id == j && job.file == before.files@.len()
        &&& job.direction == direction && job.verify_md5 == before.config.verify
        &&& job.retry_count == 0
        &&& n >= 2 ==> job.chunk_index == Some(k as u32) && job.offset == k * c && 0 < job.length
            <= c && (k < n - 1 ==> job.length == c) && (k == n - 1 ==> job.offset + job.length == s)
        &&& n == 1 ==> job.chunk_index is None && job.offset == 0 && job.length == s
    } by {
        let k = j - first;
        assert(after.jobs@[j] == new_jobs[k]);
        if chunks::cut(s, c, tunnels) {
            chunks::lemma_chunk_is_within(k as nat, s as nat, c as nat);
            if k < n - 1 {
                chunks::lemma_chunk_is_within((k + 1) as nat, s as nat, c as nat);
                assert((k + 1) * c == k * c + c) by (nonlinear_arith);
            } else {
                assert(n * c == k * c + c) by (nonlinear_arith)
                    requires
                        n == k + 1,
                ;
            }
        }
    }
}

/// When every job of a file has marked the chunk that it moved, the file is complete, and not
/// before: no two jobs mark the same chunk, and every chunk has a job.
pub proof fn lemma_jobs_mark_every_chunk(
    before: JobScheduler,
    after: JobScheduler,
    remote_path: Seq<char>,
    local_path: Seq<char>,
    stat: StatInfo,
    direction: Direction,
    tunnels: usize,
    done: Seq<u32>,
)
    requires
        before.wf(),
        after.wf(),
        before.adds(after, remote_path, local_path, stat, direction, tunnels),
    ensures
        ({
            let first = before.jobs@.len();
            let meta = after.files@.last();
            let marks = types::marked(meta.completed_chunks@, done);
            &&& forall|i: int|
                first <= i < after.jobs@.len() ==> upload::chunk_moved(#[trigger] after.jobs@[i])
                    < meta.total_chunks
            &&& forall|i: int, j: int|
                first <= i < j < after.jobs@.len() ==> upload::chunk_moved(
                    #[trigger] after.jobs@[i],
                ) != upload::chunk_moved(#[trigger] after.jobs@[j])
            &&& (forall|k: int| 0 <= k < marks.len() ==> #[trigger] marks[k]) <==> (forall|i: int|
                first <= i < after.jobs@.len() ==> done.contains(
                    upload::chunk_moved(#[trigger] after.jobs@[i]),
                ))
        }),
{
    lemma_new_file_is_cut(before, after, remote_path, local_path, stat, direction, tunnels);
    let first = before.jobs@.len() as int;
    let n = after.jobs@.len() - first;
    let meta = after.files@.last();
    let marks = types::marked(meta.completed_chunks@, done);
    types::lemma_complete_when_all_marked(meta.completed_chunks@, done);
    types::lemma_marked_keeps_length(meta.completed_chunks@, done);
    assert forall|i: int| first <= i < after.jobs@.len() implies upload::chunk_moved(
        #[trigger] after.jobs@[i],
    ) == i - first by {}
    if forall|k: int| 0 <= k < marks.len() ==> #[trigger] marks[k] {
        assert forall|i: int| first <= i < after.jobs@.len() implies done.contains(
            upload::chunk_moved(#[trigger] after.jobs@[i]),
        ) by {
            assert(done.contains((i - first) as u32));
        }
    }
    if forall|i: int|
        first <= i < after.jobs@.len() ==> done.contains(
            upload::chunk_moved(#[trigger] after.jobs@[i]),
        ) {
        assert forall|k: int| 0 <= k < meta.completed_chunks@.len() implies #[trigger] done.contains(
            k as u32,
        ) by {
            assert(upload::chunk_moved(after.jobs@[first + k]) == k);
        }
    }
}

/// A file is skipped exactly if the receiving side has a file of the same size, the user does not
/// force it, and, where digests count, both are known and the same.
pub open spec fn is_there(
    force: bool,
    digests_count: bool,
    there: Option<u64>,
    size: u64,
    a: Option<Seq<char>>,
    b: Option<Seq<char>>,
) -> bool {
    &&& !force
    &&& there is Some
    &&& there.unwrap() <= size
    &&& there.unwrap() >= size
    &&& digests_count ==> exists|d: Seq<char>| a == Some(d) && b == Some(d) && d.len() > 0
}

/// Files that are complete on the receiving side are skipped, and no others: a file of another
/// size, smaller or larger, always goes over, and so does one whose digest differs or is not known
/// where digests count.
pub proof fn lemma_only_complete_files_are_skipped(
    force: bool,
    digests_count: bool,
    there: Option<u64>,
    size: u64,
    a: Option<Seq<char>>,
    b: Option<Seq<char>>,
)
    ensures
        skipped(presence(force, digests_count, there, size), a, b) <==> is_there(
            force,
            digests_count,
            there,
            size,
            a,
            b,
        ),
        force ==> !skipped(presence(force, digests_count, there, size), a, b),
        there != Some(size) ==> !skipped(presence(force, digests_count, there, size), a, b),
        !force && !digests_count && there == Some(size) ==> skipped(
            presence(force, digests_count, there, size),
            a,
            b,
        ),
        presence(force, digests_count, there, size) == Presence::Compare <==> !force
            && digests_count && there == Some(size),
        skipped(presence(force, digests_count, there, size), a, b) == skipped(
            presence(force, digests_count, there, size),
            b,
            a,
        ),
{
    if digests_agree(a, b) {
        let d = a.unwrap();
        assert(a == Some(d) && b == Some(d) && d.len() > 0);
    }
}

/// A file to be downloaded is skipped or comes in, as what is there already decides, and nothing
/// else happens to the transfer.
pub proof fn lemma_download_comes_in_or_is_skipped(
    s: &mut JobScheduler,
    remote_path: &str,
    local_path: &str,
    stat: StatInfo,
    remote_md5: &Option<String>,
    local_len: Option<u64>,
    local_md5: &Option<String>,
    tunnels: usize,
)
    requires
        old(s).wf(),
        call_ensures(
            JobScheduler::create_download_jobs,
            (s, remote_path, local_path, stat, remote_md5, local_len, local_md5, tunnels),
            (),
        ),
    ensures
        ({
            let there = is_there(
                old(s).config.force,
                old(s).config.verify && remote_md5 is Some,
                local_len,
                stat.size,
                local_md5.deep_view(),
                remote_md5.deep_view(),
            );
            &&& there ==> final(s).files@ == old(s).files@ && final(s).jobs@ == old(s).jobs@
                && final(s).total_files == old(s).total_files && final(s).total_bytes == old(s).total_bytes && (old(s).files_skipped < u64::MAX ==> final(s).files_skipped == old(s).files_skipped + 1)
            &&& !there ==> final(s).wf() && old(s).adds(
                *final(s),
                remote_path@,
                local_path@,
                stat,
                Direction::Download,
                tunnels,
            )
        }),
{
    lemma_only_complete_files_are_skipped(
        old(s).config.force,
        old(s).config.verify && remote_md5 is Some,
        local_len,
        stat.size,
        local_md5.deep_view(),
        remote_md5.deep_view(),
    );
}

/// A file to be uploaded is skipped or comes in, as what is there already decides, and nothing else
/// happens to the transfer.
pub proof fn lemma_upload_comes_in_or_is_skipped(
    s: &mut JobScheduler,
    remote_path: &str,
    local_path: &str,
    stat: StatInfo,
    local_md5: &Option<String>,
    remote_len: Option<u64>,
    remote_md5: &Option<String>,
    tunnels: usize,
)
    requires
        old(s).wf(),
        call_ensures(
            JobScheduler::create_upload_jobs,
            (s, remote_path, local_path, stat, local_md5, remote_len, remote_md5, tunnels),
            (),
        ),
    ensures
        ({
            let there = is_there(
                old(s).config.force,
                old(s).config.verify,
                remote_len,
                stat.size,
                local_md5.deep_view(),
                remote_md5.deep_view(),
            );
            &&& there ==> final(s).files@ == old(s).files@ && final(s).jobs@ == old(s).jobs@
                && final(s).total_files == old(s).total_files && final(s).total_bytes == old(s).total_bytes && (old(s).files_skipped < u64::MAX ==> final(s).files_skipped == old(s).files_skipped + 1)
            &&& !there ==> final(s).wf() && old(s).adds(
                *final(s),
                remote_path@,
                local_path@,
                stat,
                Direction::Upload,
                tunnels,
            )
        }),
{
    lemma_only_complete_files_are_skipped(
        old(s).config.force,
        old(s).config.verify,
        remote_len,
        stat.size,
        local_md5.deep_view(),
        remote_md5.deep_view(),
    );
}

/// What the scheduler asks for along the way fits how it decides: sizes are looked at unless the
/// user forces the transfer, digests count only where they are asked for, and a digest of the other
/// side is asked for only where it can make a difference.
pub proof fn lemma_what_is_looked_at(
    s: &JobScheduler,
    there: Option<u64>,
    size: u64,
    has_remote_md5: bool,
    md5: &Option<String>,
    looks: bool,
    down: Presence,
    up: Presence,
    asks: bool,
)
    requires
        call_ensures(JobScheduler::checks_presence, (s,), looks),
        call_ensures(JobScheduler::download_presence, (s, there, size, has_remote_md5), down),
        call_ensures(JobScheduler::upload_presence, (s, there, size), up),
        call_ensures(wants_other_digest, (md5,), asks),
    ensures
        looks <==> !s.config.force,
        !looks ==> down == Presence::Transfer && up == Presence::Transfer,
        down == Presence::Transfer <==> up == Presence::Transfer,
        down == Presence::Transfer <==> s.config.force || there is None || there.unwrap() != size,
        up == Presence::Compare <==> looks && there == Some(size) && s.config.verify,
        down == Presence::Compare <==> up == Presence::Compare && has_remote_md5,
        asks <==> exists|other: Option<Seq<char>>|
            #[trigger] skipped(Presence::Compare, md5.deep_view(), other),
{
    if asks {
        assert(skipped(Presence::Compare, md5.deep_view(), md5.deep_view()));
    }
}

// ---------------------------------------------------------------------------
// Laws: where files go
// ---------------------------------------------------------------------------

/// Whether a path is a directory depends on the type in its mode alone, and not on its permissions
/// or on what stands above the type: the type of a directory is one of the sixteen that there can
/// be.
pub proof fn lemma_type_alone_tells_directories(
    remote_path: &str,
    local_dest: &str,
    dest_is_dir: bool,
    stat: StatInfo,
    r: Target,
    kind: u32,
    permissions: u32,
    above: u32,
)
    requires
        kind <= 15,
        permissions <= 0o7777,
        above <= 0xffff,
        stat.mode == (above << 16) | (kind << 12) | permissions,
        call_ensures(target, (remote_path, local_dest, dest_is_dir, stat), r),
    ensures
        r is Directory <==> kind == 4,
        r matches Target::File { stat: kept, .. } ==> kept == stat,
{
    assert(((above << 16) | (kind << 12) | permissions) & 0o170000u32 == 0o040000u32 <==> kind == 4)
        by (bit_vector)
        requires
            kind <= 15,
            permissions <= 0o7777,
            above <= 0xffff,
    ;
}

/// Where a remote path goes. It goes into a destination that is a directory, or is written like
/// one, under its own name; else it takes the place of the destination. The contents of a directory
/// that is written with a slash behind it go right into the destination.
pub proof fn lemma_download_goes_where_it_was_sent(
    remote_path: &str,
    local_dest: &str,
    dest_is_dir: bool,
    stat: StatInfo,
    r: Target,
    name: Seq<char>,
)
    requires
        path::name_of(remote_path@) == Some(name),
        !path::rooted(name),
        call_ensures(target, (remote_path, local_dest, dest_is_dir, stat), r),
    ensures
        ({
            let d = local_dest@;
            let below = if d.len() > 0 && d.last() != '/' {
                d + seq!['/'] + name
            } else {
                d + name
            };
            let into = dest_is_dir || (d.len() > 0 && d.last() == '/');
            match r {
                Target::Directory { local_base } => local_base@ == if remote_path@.len() > 0
                    && remote_path@.last() == '/' {
                    d
                } else if into {
                    below
                } else {
                    d
                },
                Target::File { local_path, .. } => local_path@ == if into {
                    below
                } else {
                    d
                },
            }
        }),
{
    let d = local_dest@;
    assert(d.push('/') =~= d + seq!['/']);
}

/// What an agent answers about a path decides what becomes of it: a failure is handed on, a
/// complaint that something is not found means that the path is not there, any other complaint is
/// the agent's, and numbers that came whole are taken as they were sent.
pub proof fn lemma_answers_about_paths(
    remote_path: &str,
    local_dest: &str,
    dest_is_dir: bool,
    reply: Result<Response, StrawsError>,
    r: Result<Target, StrawsError>,
    st: StatInfo,
    rest: Seq<u8>,
    front: Seq<char>,
    back: Seq<char>,
)
    requires
        call_ensures(schedule_download_path, (remote_path, local_dest, dest_is_dir, reply), r),
    ensures
        match reply {
            Err(e) => r matches Err(x) && x@ == e@,
            Ok(a) => {
                let message = wire::lossy_text(a@.data);
                if a@.status == protocol::ResponseStatus::Error {
                    &&& message == front + "not found"@ + back ==> (r matches Err(x) && x@
                        == ErrorView::NotFound(remote_path@))
                    &&& (forall|i: int|
                        0 <= i <= message.len() - 9 ==> #[trigger] message.subrange(i, i + 9)
                            != "not found"@) ==> (r matches Err(x) && x@ == ErrorView::Remote(
                        message,
                    ))
                } else {
                    &&& a@.data.len() < 20 ==> (r matches Err(x) && x@ is Protocol)
                    &&& a@.data == protocol::stat_bytes(st) + rest ==> (r matches Ok(t) && t@
                        == target_of(remote_path@, local_dest@, dest_is_dir, st))
                }
            },
        },
{
    reveal_strlit("not found");
    match reply {
        Err(_) => {},
        Ok(a) => {
            let m = wire::lossy_text(a@.data);
            if m == front + "not found"@ + back {
                assert(m.subrange(front.len() as int, (front.len() + 9) as int) =~= "not found"@);
                assert(text::stands_at(m, "not found"@, front.len() as int));
            }
            if a@.data == protocol::stat_bytes(st) + rest {
                lemma_stat_len(st);
                protocol::lemma_stat_is_understood(st, rest);
            }
        },
    }
}

/// Where a local path goes: under its own name below a destination that is written like a
/// directory, and else in place of it. The contents of a directory that is written with a slash
/// behind it go right into the destination.
pub proof fn lemma_upload_goes_where_it_was_sent(
    local_path: &str,
    remote_dest: &str,
    file: String,
    base: String,
    name: Seq<char>,
)
    requires
        path::name_of(local_path@) == Some(name),
        call_ensures(upload_path, (local_path, remote_dest), file),
        call_ensures(upload_base, (local_path, remote_dest), base),
    ensures
        ({
            let d = remote_dest@;
            let into = d.len() > 0 && d.last() == '/';
            &&& file@ == if into {
                d + name
            } else {
                d
            }
            &&& base@ == if local_path@.len() > 0 && local_path@.last() == '/' {
                d
            } else if into {
                d + name
            } else {
                d
            }
        }),
{
}

/// What was found in a directory goes below where that directory goes, with one slash between the
/// two, however many stand behind the destination.
pub proof fn lemma_entries_go_below(
    dir: Seq<char>,
    base: Seq<char>,
    rel: Seq<char>,
    entry: &str,
    local_dir: &str,
    remote_base: &str,
    slashes: nat,
    up: String,
    down: String,
)
    requires
        !path::rooted(rel),
        path::begun(rel) == rel,
        path::settled(rel, 0) == rel,
        entry@ == path::joined(dir, rel),
        local_dir@ == dir,
        base.len() > 0,
        base.last() != '/',
        remote_base@ == base + Seq::new(slashes, |i: int| '/'),
        call_ensures(upload_entry_path, (entry, local_dir, remote_base), up),
        call_ensures(local_path_for, (entry, local_dir, remote_base), down),
    ensures
        up@ == base + seq!['/'] + rel,
        down@ == if slashes == 0 {
            base + seq!['/'] + rel
        } else {
            remote_base@ + rel
        },
{
    reveal_strlit("/");
    path::lemma_relative_of_joined(dir, rel);
    lemma_slashes_are_stripped(base, slashes);
    assert("/"@ =~= seq!['/']);
    if slashes == 0 {
        assert(remote_base@ =~= base);
        assert(base.push('/') =~= base + seq!['/']);
    }
}

proof fn lemma_slashes_are_stripped(base: Seq<char>, slashes: nat)
    requires
        base.len() > 0,
        base.last() != '/',
    ensures
        text::stripped_end(base + Seq::new(slashes, |i: int| '/'), set!['/']) == base,
    decreases slashes,
{
    let s = base + Seq::new(slashes, |i: int| '/');
    if slashes == 0 {
        assert(s =~= base);
    } else {
        assert(s.drop_last() =~= base + Seq::new((slashes - 1) as nat, |i: int| '/'));
        lemma_slashes_are_stripped(base, (slashes - 1) as nat);
    }
}

/// What is known of a remote file: its size, if the agent sent numbers that came whole, and its
/// digest, if the agent sent one.
pub proof fn lemma_answers_about_remote_files(
    reply: &Option<Response>,
    size: Option<u64>,
    digest: Option<String>,
    st: StatInfo,
    rest: Seq<u8>,
)
    requires
        call_ensures(remote_size, (reply,), size),
        call_ensures(remote_digest, (reply,), digest),
    ensures
        match *reply {
            None => size is None && digest is None,
            Some(a) => if a@.status == protocol::ResponseStatus::Error {
                size is None && digest is None
            } else {
                &&& digest matches Some(d)
                &&& d@ == wire::lossy_text(a@.data)
                &&& a@.data.len() < 20 ==> size is None
                &&& a@.data == protocol::stat_bytes(st) + rest ==> size == Some(st.size)
            },
        },
{
    lemma_stat_len(st);
    protocol::lemma_stat_is_understood(st, rest);
}

proof fn lemma_stat_len(st: StatInfo)
    ensures
        protocol::stat_bytes(st).len() == 20,
{
    wire::lemma_be_limits();
    wire::lemma_be_value_of_bytes(st.size as nat, 8);
    wire::lemma_be_value_of_bytes(st.mode as nat, 4);
    wire::lemma_be_value_of_bytes(st.mtime as nat, 8);
}

/// Several remote paths, or a pattern, need a directory to go to; a single plain path does not.
pub proof fn lemma_several_paths_need_a_directory(
    s: &JobScheduler,
    paths: Seq<Seq<char>>,
    r: bool,
    found: Vec<String>,
)
    requires
        paths.len() > 0,
        forall|i: int| 0 <= i < paths.len() ==> !(#[trigger] paths[i]).contains('\0'),
        s.config.remote.path@ == text::join_text(paths, seq!['\0']),
        call_ensures(JobScheduler::needs_directory, (s,), r),
        call_ensures(JobScheduler::download_paths, (s,), found),
    ensures
        text::texts(found@) == paths,
        paths.len() > 1 ==> r,
        paths.len() == 1 ==> (r <==> paths[0].contains('*')),
{
    text::lemma_split_undoes_join(paths, '\0');
}

// ---------------------------------------------------------------------------
// Laws: the order of jobs
// ---------------------------------------------------------------------------

/// Jobs are taken in the order in which they came, each once: what is taken is the first of those
/// that are still to be done, and all others stay.
pub proof fn lemma_jobs_are_taken_in_order(s: &mut JobScheduler, r: Option<u64>)
    requires
        old(s).wf(),
        call_ensures(JobScheduler::take_job, (s,), r),
    ensures
        r is None <==> old(s).pending().len() == 0,
        r matches Some(id) ==> old(s).pending() == seq![id] + final(s).pending() && id < old(s).jobs@.len(),
        r is None ==> final(s).pending() == old(s).pending(),
        final(s).jobs@ == old(s).jobs@,
        final(s).files@ == old(s).files@,
{
    if r is Some {
        assert(old(s).pending() =~= seq![r.unwrap()] + final(s).pending());
    }
}

/// A job that is put back is taken again after those that are in the queue already.
pub proof fn lemma_job_that_is_put_back_is_not_lost(s: &mut JobScheduler, id: u64, r: bool)
    requires
        old(s).wf(),
        id < old(s).jobs@.len(),
        call_ensures(JobScheduler::requeue, (s, id), r),
    ensures
        r ==> final(s).pending().contains(id),
        r ==> final(s).pending().len() == old(s).pending().len() + 1,
        !r ==> final(s).pending() == old(s).pending(),
        !r <==> old(s).queue@.len() >= old(s).queue.capacity(),
        forall|k: int|
            0 <= k < old(s).queue@.len() ==> #[trigger] final(s).pending()[k] == old(s).pending()[k],
{
    if r {
        assert(final(s).pending()[old(s).queue@.len() as int] == id);
    } else {
        assert(final(s).pending() =~= old(s).pending());
    }
}

/// An entry that does not lie below its directory goes up by its name alone, and comes in by the
/// whole of its path.
pub proof fn lemma_strange_entries_go_by_name(
    dir: Seq<char>,
    name: Seq<char>,
    base: Seq<char>,
    entry: &str,
    local_dir: &str,
    remote_base: &str,
    slashes: nat,
    up: String,
    down: String,
)
    requires
        path::plain_name(name),
        entry@ == path::joined(dir, name),
        path::relative_to(entry@, local_dir@) is None,
        base.len() > 0,
        base.last() != '/',
        remote_base@ == base + Seq::new(slashes, |i: int| '/'),
        call_ensures(upload_entry_path, (entry, local_dir, remote_base), up),
        call_ensures(local_path_for, (entry, local_dir, remote_base), down),
    ensures
        up@ == base + seq!['/'] + name,
        down@ == path::joined(remote_base@, entry@),
{
    reveal_strlit("/");
    path::lemma_name_of_joined(dir, name);
    lemma_slashes_are_stripped(base, slashes);
    assert("/"@ =~= seq!['/']);
}

/// Files that were found and jobs that were made are counted, and a scheduler is drained exactly if
/// no job waits, neither in the queue nor before it.
pub proof fn lemma_work_is_counted(
    a: &mut JobScheduler,
    s: &JobScheduler,
    found: u64,
    jobs: u64,
    drained: bool,
)
    requires
        s.wf(),
        old(a).files_found < u64::MAX,
        call_ensures(JobScheduler::count_found, (a,), ()),
        call_ensures(JobScheduler::files_found, (s,), found),
        call_ensures(JobScheduler::jobs_scheduled, (s,), jobs),
        call_ensures(JobScheduler::is_drained, (s,), drained),
    ensures
        *s == *final(a) ==> found == old(a).files_found + 1 && jobs == old(a).jobs@.len(),
        final(a).files == old(a).files && final(a).jobs == old(a).jobs && final(a).queue == old(a).queue && final(a).next == old(a).next,
        drained <==> s.queue@.len() == 0 && s.next == s.jobs@.len(),
{
}

/// A failure is counted for its job and for no other, and the job stays what it is.
pub proof fn lemma_failure_is_counted_for_its_job(s: &mut JobScheduler, id: u64, r: u32, j: int)
    requires
        old(s).wf(),
        id < old(s).jobs@.len(),
        old(s).jobs@[id as int].retry_count < u32::MAX,
        0 <= j < old(s).jobs@.len(),
        call_ensures(JobScheduler::count_failure, (s, id), r),
    ensures
        r == old(s).jobs@[id as int].retry_count + 1,
        final(s).jobs@.len() == old(s).jobs@.len(),
        j != id ==> final(s).jobs@[j] == old(s).jobs@[j],
        final(s).jobs@[id as int].retry_count == r,
        final(s).jobs@[id as int].offset == old(s).jobs@[id as int].offset,
        final(s).jobs@[id as int].length == old(s).jobs@[id as int].length,
        final(s).jobs@[id as int].file == old(s).jobs@[id as int].file,
        final(s).jobs@[id as int].chunk_index == old(s).jobs@[id as int].chunk_index,
        final(s).queue@ == old(s).queue@ && final(s).next == old(s).next,
{
}

/// The queue is filled from the jobs that wait before it, in their order, until it is full or none
/// waits; and none is lost.
pub proof fn lemma_queue_is_filled_in_order(s: &mut JobScheduler, k: int)
    requires
        old(s).wf(),
        0 <= k < old(s).queue@.len() + old(s).jobs@.len() - old(s).next,
        call_ensures(JobScheduler::fill, (s,), ()),
    ensures
        final(s).queue@.len() + final(s).jobs@.len() - final(s).next == old(s).queue@.len() + old(s).jobs@.len() - old(s).next,
        final(s).next < final(s).jobs@.len() ==> final(s).queue@.len() >= final(s).queue.capacity(),
        k < final(s).queue@.len() && k < old(s).queue@.len() ==> final(s).queue@[k] == old(s).queue@[k],
        k < final(s).queue@.len() && k >= old(s).queue@.len() ==> final(s).queue@[k] == old(s).next
            + (k - old(s).queue@.len()),
{
    let a = old(s).pending();
    let b = final(s).pending();
    assert(a.len() == b.len());
    assert(a[k] == b[k]);
}

} // verus!
