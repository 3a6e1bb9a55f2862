//! The progress of a transfer: counts, times, and what happened last.

use vstd::prelude::*;

use crate::progress::ratio;
use crate::progress::speed;
use crate::progress::speed::{SpeedTracker, Window};

verus! {

/// How many events and files are remembered.
pub const REMEMBERED: usize = 5;

/// Nanoseconds in a second.
pub const NANOS_PER_SEC: u64 = 1_000_000_000;

/// Something that the user should see.
#[derive(Debug, Clone)]
pub struct LogEvent {
    pub message: String,
    pub is_error: bool,
}

/// An event, with its text as a sequence of characters.
pub struct LogView {
    pub message: Seq<char>,
    pub is_error: bool,
}

impl View for LogEvent {
    type V = LogView;

    open spec fn view(&self) -> LogView {
        LogView { message: self.message@, is_error: self.is_error }
    }
}

/// A file that went over, with its digests where they were compared.
#[derive(Debug, Clone)]
pub struct CompletedFile {
    pub name: String,
    pub local_md5: Option<String>,
    pub remote_md5: Option<String>,
    pub mode: u32,
    pub mtime: u64,
}

/// A file that went over, with its texts as sequences of characters.
pub struct CompletedView {
    pub name: Seq<char>,
    pub local_md5: Option<Seq<char>>,
    pub remote_md5: Option<Seq<char>>,
    pub mode: u32,
    pub mtime: u64,
}

impl View for CompletedFile {
    type V = CompletedView;

    open spec fn view(&self) -> CompletedView {
        CompletedView {
            name: self.name@,
            local_md5: self.local_md5.deep_view(),
            remote_md5: self.remote_md5.deep_view(),
            mode: self.mode,
            mtime: self.mtime,
        }
    }
}

/// A file that did not go over, and why.
#[derive(Debug, Clone)]
pub struct FailedFile {
    pub remote_path: String,
    pub local_path: String,
    pub error: String,
    pub retries: u32,
}

/// A file that did not go over, with its texts as sequences of characters.
pub struct FailedView {
    pub remote_path: Seq<char>,
    pub local_path: Seq<char>,
    pub error: Seq<char>,
    pub retries: u32,
}

impl View for FailedFile {
    type V = FailedView;

    open spec fn view(&self) -> FailedView {
        FailedView {
            remote_path: self.remote_path@,
            local_path: self.local_path@,
            error: self.error@,
            retries: self.retries,
        }
    }
}

/// How long the phases of a transfer took, in nanoseconds.
#[derive(Debug, Clone, Copy, PartialEq, Eq, Structural)]
pub struct PhaseTiming {
    pub connect: u64,
    pub index: u64,
    pub transfer: u64,
}

/// The progress of a transfer. Times are in nanoseconds.
pub struct ProgressTracker {
    pub total_bytes: u64,
    pub bytes_transferred: u64,
    pub total_files: u64,
    pub files_completed: u64,
    pub files_failed: u64,
    pub files_skipped: u64,
    pub speed_tracker: SpeedTracker,
    pub start_time: u64,
    pub recent_files: Vec<CompletedFile>,
    pub failed_files: Vec<FailedFile>,
    /// What each agent is doing.
    pub agent_jobs: Vec<Option<String>>,
    pub log_events: Vec<LogEvent>,
    pub verify_enabled: bool,
    pub source_desc: String,
    pub dest_desc: String,
    pub phase_start: u64,
    pub phase_timing: PhaseTiming,
}

/// The progress of a transfer, with its texts as sequences of characters.
pub struct ProgressView {
    pub total_bytes: u64,
    pub bytes_transferred: u64,
    pub total_files: u64,
    pub files_completed: u64,
    pub files_failed: u64,
    pub files_skipped: u64,
    pub speed: Window,
    pub start_time: u64,
    pub recent_files: Seq<CompletedView>,
    pub failed_files: Seq<FailedView>,
    pub agent_jobs: Seq<Option<Seq<char>>>,
    pub log_events: Seq<LogView>,
    pub verify_enabled: bool,
    pub source_desc: Seq<char>,
    pub dest_desc: Seq<char>,
    pub phase_start: u64,
    pub phase_timing: PhaseTiming,
}

impl View for ProgressTracker {
    type V = ProgressView;

    open spec fn view(&self) -> ProgressView {
        ProgressView {
            total_bytes: self.total_bytes,
            bytes_transferred: self.bytes_transferred,
            total_files: self.total_files,
            files_completed: self.files_completed,
            files_failed: self.files_failed,
            files_skipped: self.files_skipped,
            speed: self.speed_tracker@,
            start_time: self.start_time,
            recent_files: self.recent_files@.map_values(|f: CompletedFile| f@),
            failed_files: self.failed_files@.map_values(|f: FailedFile| f@),
            agent_jobs: self.agent_jobs@.map_values(|j: Option<String>| j.deep_view()),
            log_events: self.log_events@.map_values(|e: LogEvent| e@),
            verify_enabled: self.verify_enabled,
            source_desc: self.source_desc@,
            dest_desc: self.dest_desc@,
            phase_start: self.phase_start,
            phase_timing: self.phase_timing,
        }
    }
}

/// The last few elements of a sequence.
pub open spec fn last_few<T>(s: Seq<T>) -> Seq<T> {
    if s.len() > REMEMBERED {
        s.skip(s.len() - REMEMBERED)
    } else {
        s
    }
}

/// How much time has gone by; none where the clock went back.
pub open spec fn since(from: u64, now: u64) -> u64 {
    if now < from {
        0
    } else {
        (now - from) as u64
    }
}

fn elapsed(from: u64, now: u64) -> (r: u64)
    ensures
        r == since(from, now),
{
    if now < from {
        0
    } else {
        now - from
    }
}

impl ProgressView {
    /// The event goes behind the others, and the oldest is forgotten.
    pub open spec fn logged(self, message: Seq<char>, is_error: bool) -> ProgressView {
        ProgressView {
            log_events: last_few(self.log_events.push(LogView { message, is_error })),
            ..self
        }
    }

    /// The bytes are counted, for all time and for the speed; the count wraps around.
    pub open spec fn received(self, bytes: u64, now: u64) -> ProgressView {
        ProgressView {
            bytes_transferred: self.bytes_transferred.wrapping_add(bytes),
            speed: self.speed.counted(bytes, now),
            ..self
        }
    }

    /// The file is counted and remembered, and the oldest is forgotten; the count wraps around.
    pub open spec fn completed(self, file: CompletedView) -> ProgressView {
        ProgressView {
            files_completed: self.files_completed.wrapping_add(1),
            recent_files: last_few(self.recent_files.push(file)),
            ..self
        }
    }

    /// The failure is counted and kept; the count wraps around.
    pub open spec fn failed(self, file: FailedView) -> ProgressView {
        ProgressView {
            files_failed: self.files_failed.wrapping_add(1),
            failed_files: self.failed_files.push(file),
            ..self
        }
    }

    /// An agent turned to something else; one that is not there changes nothing.
    pub open spec fn busy_with(self, agent_id: usize, job: Option<Seq<char>>) -> ProgressView {
        if agent_id < self.agent_jobs.len() {
            ProgressView { agent_jobs: self.agent_jobs.update(agent_id as int, job), ..self }
        } else {
            self
        }
    }
}

/// How many seconds are left at a speed in bytes per second: the quotient is rounded as a floating
/// point number is, and cut to an integer.
pub open spec fn eta(remaining: u64, speed: u64) -> Option<u64> {
    if speed == 0 {
        None
    } else if remaining == 0 {
        Some(0)
    } else {
        let seconds = ratio::whole_part(
            ratio::whole_part(remaining as nat, 1),
            ratio::whole_part(speed as nat, 1),
        );
        Some(
            if seconds > u64::MAX {
                u64::MAX
            } else {
                seconds as u64
            },
        )
    }
}

fn eta_of(remaining: u64, speed: u64) -> (r: Option<u64>)
    ensures
        r == eta(remaining, speed),
{
    if speed == 0 {
        return None;
    }
    if remaining == 0 {
        return Some(0);
    }
    let bytes: u128 = ratio::whole(remaining as u128, 1);
    let rate: u128 = ratio::whole(speed as u128, 1);
    proof {
        ratio::lemma_whole_part_is_positive(speed as nat);
    }
    let seconds: u128 = ratio::whole(bytes, rate);
    if seconds > u64::MAX as u128 {
        Some(u64::MAX)
    } else {
        Some(seconds as u64)
    }
}

impl ProgressTracker {
    /// No more is remembered than should be.
    pub open spec fn wf(self) -> bool {
        &&& self.speed_tracker.wf()
        &&& self.recent_files@.len() <= REMEMBERED
        &&& self.log_events@.len() <= REMEMBERED
    }

    /// A transfer that begins now, with so many agents.
    pub fn new(tunnel_count: usize, now: u64) -> (r: Self)
        ensures
            r.wf(),
            r@ == (ProgressView {
                total_bytes: 0,
                bytes_transferred: 0,
                total_files: 0,
                files_completed: 0,
                files_failed: 0,
                files_skipped: 0,
                speed: speed::empty_window(now),
                start_time: now,
                recent_files: Seq::empty(),
                failed_files: Seq::empty(),
                agent_jobs: Seq::new(tunnel_count as nat, |i: int| None::<Seq<char>>),
                log_events: Seq::empty(),
                verify_enabled: false,
                source_desc: Seq::empty(),
                dest_desc: Seq::empty(),
                phase_start: now,
                phase_timing: PhaseTiming { connect: 0, index: 0, transfer: 0 },
            }),
    {
        let mut jobs: Vec<Option<String>> = Vec::new();
        let mut i: usize = 0;
        while i < tunnel_count
            invariant
                i <= tunnel_count,
                jobs@.len() == i,
                forall|j: int| 0 <= j < i ==> (#[trigger] jobs@[j]) is None,
            decreases tunnel_count - i,
        {
            jobs.push(None);
            i = i + 1;
        }
        let r = ProgressTracker {
            total_bytes: 0,
            bytes_transferred: 0,
            total_files: 0,
            files_completed: 0,
            files_failed: 0,
            files_skipped: 0,
            speed_tracker: SpeedTracker::new(now),
            start_time: now,
            recent_files: Vec::new(),
            failed_files: Vec::new(),
            agent_jobs: jobs,
            log_events: Vec::new(),
            verify_enabled: false,
            source_desc: String::new(),
            dest_desc: String::new(),
            phase_start: now,
            phase_timing: PhaseTiming { connect: 0, index: 0, transfer: 0 },
        };
        proof {
            assert(r@.recent_files =~= Seq::<CompletedView>::empty());
            assert(r@.failed_files =~= Seq::<FailedView>::empty());
            assert(r@.log_events =~= Seq::<LogView>::empty());
            assert(r@.agent_jobs =~= Seq::new(tunnel_count as nat, |i: int| None::<Seq<char>>));
        }
        r
    }

    /// The agents are connected: from now on files are looked for.
    pub fn mark_connected(&mut self, now: u64)
        ensures
            old(self).wf() ==> final(self).wf(),
            final(self)@ == (ProgressView {
                phase_timing: PhaseTiming {
                    connect: since(old(self).phase_start, now),
                    ..old(self).phase_timing
                },
                phase_start: now,
                ..old(self)@
            }),
    {
        self.phase_timing.connect = elapsed(self.phase_start, now);
        self.phase_start = now;
    }

    /// The files are found: from now on they go over.
    pub fn mark_indexed(&mut self, now: u64)
        ensures
            old(self).wf() ==> final(self).wf(),
            final(self)@ == (ProgressView {
                phase_timing: PhaseTiming {
                    index: since(old(self).phase_start, now),
                    ..old(self).phase_timing
                },
                phase_start: now,
                ..old(self)@
            }),
    {
        self.phase_timing.index = elapsed(self.phase_start, now);
        self.phase_start = now;
    }

    /// All files went over, or failed.
    pub fn mark_transfer_complete(&mut self, now: u64)
        ensures
            old(self).wf() ==> final(self).wf(),
            final(self)@ == (ProgressView {
                phase_timing: PhaseTiming {
                    transfer: since(old(self).phase_start, now),
                    ..old(self).phase_timing
                },
                ..old(self)@
            }),
    {
        self.phase_timing.transfer = elapsed(self.phase_start, now);
    }

    /// How long the phases took.
    pub fn phase_timing(&self) -> (r: PhaseTiming)
        ensures
            r == self.phase_timing,
    {
        self.phase_timing
    }

    /// How long the phase at hand takes already, in nanoseconds.
    pub fn current_phase_elapsed(&self, now: u64) -> (r: u64)
        ensures
            r == since(self.phase_start, now),
    {
        elapsed(self.phase_start, now)
    }

    /// How much there is to be done.
    pub fn set_totals(&mut self, bytes: u64, files: u64)
        ensures
            old(self).wf() ==> final(self).wf(),
            final(self)@ == (ProgressView { total_bytes: bytes, total_files: files, ..old(self)@ }),
    {
        self.total_bytes = bytes;
        self.total_files = files;
    }

    /// Where the files come from and where they go.
    pub fn set_descriptions(&mut self, source: &str, dest: &str)
        ensures
            old(self).wf() ==> final(self).wf(),
            final(self)@ == (ProgressView {
                source_desc: source@,
                dest_desc: dest@,
                ..old(self)@
            }),
    {
        self.source_desc = source.to_owned();
        self.dest_desc = dest.to_owned();
    }

    /// Whether digests are compared.
    pub fn set_verify_enabled(&mut self, enabled: bool)
        ensures
            old(self).wf() ==> final(self).wf(),
            final(self)@ == (ProgressView { verify_enabled: enabled, ..old(self)@ }),
    {
        self.verify_enabled = enabled;
    }

    /// Whether digests are compared.
    pub fn verify_enabled(&self) -> (r: bool)
        ensures
            r == self.verify_enabled,
    {
        self.verify_enabled
    }

    /// Where the files come from.
    pub fn source_desc(&self) -> (r: String)
        ensures
            r@ == self@.source_desc,
    {
        self.source_desc.clone()
    }

    /// Where the files go.
    pub fn dest_desc(&self) -> (r: String)
        ensures
            r@ == self@.dest_desc,
    {
        self.dest_desc.clone()
    }

    /// Remembers an event, and forgets the oldest.
    pub fn log_event(&mut self, message: &str, is_error: bool)
        requires
            old(self).wf(),
        ensures
            final(self).wf(),
            final(self)@ == old(self)@.logged(message@, is_error),
    {
        let ghost before = self@.log_events;
        self.log_events.push(LogEvent { message: message.to_owned(), is_error });
        let ghost all = self@.log_events;
        proof {
            assert(all =~= before.push(LogView { message: message@, is_error }));
        }
        if self.log_events.len() > REMEMBERED {
            let _oldest = self.log_events.remove(0);
            proof {
                assert(self@.log_events =~= all.skip(1));
            }
        }
    }

    /// The events that are remembered, the oldest first.
    pub fn log_events(&self) -> (r: &Vec<LogEvent>)
        ensures
            *r == self.log_events,
    {
        &self.log_events
    }

    /// Counts a file that is there already; the count wraps around.
    pub fn file_skipped(&mut self)
        ensures
            old(self).wf() ==> final(self).wf(),
            final(self)@ == (ProgressView {
                files_skipped: old(self).files_skipped.wrapping_add(1),
                ..old(self)@
            }),
    {
        self.files_skipped = self.files_skipped.wrapping_add(1);
    }

    /// How many files are there already.
    pub fn set_files_skipped(&mut self, count: u64)
        ensures
            old(self).wf() ==> final(self).wf(),
            final(self)@ == (ProgressView { files_skipped: count, ..old(self)@ }),
    {
        self.files_skipped = count;
    }

    /// How many files are there already.
    pub fn files_skipped(&self) -> (r: u64)
        ensures
            r == self.files_skipped,
    {
        self.files_skipped
    }

    /// Counts bytes that went over now; the count wraps around.
    pub fn add_bytes(&mut self, bytes: u64, now: u64)
        requires
            old(self).wf(),
            old(self).speed_tracker.total_bytes + bytes <= u64::MAX,
        ensures
            final(self).wf(),
            final(self)@ == old(self)@.received(bytes, now),
    {
        self.bytes_transferred = self.bytes_transferred.wrapping_add(bytes);
        self.speed_tracker.add_bytes(bytes, now);
    }

    /// Counts and remembers a file that went over.
    pub fn file_completed(
        &mut self,
        name: &str,
        local_md5: Option<String>,
        remote_md5: Option<String>,
        mode: u32,
        mtime: u64,
    )
        requires
            old(self).wf(),
        ensures
            final(self).wf(),
            final(self)@ == old(self)@.completed(
                CompletedView {
                    name: name@,
                    local_md5: local_md5.deep_view(),
                    remote_md5: remote_md5.deep_view(),
                    mode,
                    mtime,
                },
            ),
    {
        self.files_completed = self.files_completed.wrapping_add(1);
        let ghost before = self@.recent_files;
        let file = CompletedFile { name: name.to_owned(), local_md5, remote_md5, mode, mtime };
        let ghost seen = file@;
        self.recent_files.push(file);
        let ghost all = self@.recent_files;
        proof {
            assert(all =~= before.push(seen));
        }
        if self.recent_files.len() > REMEMBERED {
            let _oldest = self.recent_files.remove(0);
            proof {
                assert(self@.recent_files =~= all.skip(1));
            }
        }
    }

    /// Counts and keeps a file that failed, and why.
    pub fn file_failed(&mut self, remote_path: &str, local_path: &str, error: &str, retries: u32)
        ensures
            old(self).wf() ==> final(self).wf(),
            final(self)@ == old(self)@.failed(
                FailedView {
                    remote_path: remote_path@,
                    local_path: local_path@,
                    error: error@,
                    retries,
                },
            ),
    {
        self.files_failed = self.files_failed.wrapping_add(1);
        let ghost before = self@.failed_files;
        let file = FailedFile {
            remote_path: remote_path.to_owned(),
            local_path: local_path.to_owned(),
            error: error.to_owned(),
            retries,
        };
        let ghost seen = file@;
        self.failed_files.push(file);
        proof {
            assert(self@.failed_files =~= before.push(seen));
        }
    }

    /// The files that failed, and why.
    pub fn failed_files(&self) -> (r: &Vec<FailedFile>)
        ensures
            *r == self.failed_files,
    {
        &self.failed_files
    }

    /// What an agent is doing; an agent that is not there changes nothing.
    pub fn set_agent_job(&mut self, agent_id: usize, job_desc: Option<String>)
        ensures
            old(self).wf() ==> final(self).wf(),
            final(self)@ == old(self)@.busy_with(agent_id, job_desc.deep_view()),
    {
        let ghost before = self@.agent_jobs;
        let ghost job = job_desc.deep_view();
        if agent_id < self.agent_jobs.len() {
            self.agent_jobs.set(agent_id, job_desc);
            proof {
                assert(self@.agent_jobs =~= before.update(agent_id as int, job));
            }
        }
    }

    /// How many bytes there are to go over.
    pub fn total_bytes(&self) -> (r: u64)
        ensures
            r == self.total_bytes,
    {
        self.total_bytes
    }

    /// How many bytes went over.
    pub fn bytes_transferred(&self) -> (r: u64)
        ensures
            r == self.bytes_transferred,
    {
        self.bytes_transferred
    }

    /// How many files there are to go over.
    pub fn total_files(&self) -> (r: u64)
        ensures
            r == self.total_files,
    {
        self.total_files
    }

    /// How many files went over.
    pub fn files_completed(&self) -> (r: u64)
        ensures
            r == self.files_completed,
    {
        self.files_completed
    }

    /// How many files failed.
    pub fn files_failed(&self) -> (r: u64)
        ensures
            r == self.files_failed,
    {
        self.files_failed
    }

    /// Bytes per second, now.
    pub fn speed_bps(&mut self, now: u64) -> (r: u64)
        requires
            old(self).wf(),
        ensures
            final(self).wf(),
            final(self)@ == (ProgressView { speed: old(self)@.speed.at(now), ..old(self)@ }),
            r == speed::total(final(self)@.speed.buckets),
    {
        self.speed_tracker.speed_bps(now)
    }

    /// How many seconds the transfer takes already.
    pub fn elapsed_secs(&self, now: u64) -> (r: u64)
        ensures
            r == since(self.start_time, now) / NANOS_PER_SEC,
    {
        elapsed(self.start_time, now) / NANOS_PER_SEC
    }

    /// How many seconds are left at the speed of now; unknown where nothing moves.
    pub fn eta_secs(&mut self, now: u64) -> (r: Option<u64>)
        requires
            old(self).wf(),
        ensures
            final(self).wf(),
            final(self)@ == (ProgressView { speed: old(self)@.speed.at(now), ..old(self)@ }),
            r == eta(
                since(old(self).bytes_transferred, old(self).total_bytes),
                speed::total(final(self)@.speed.buckets) as u64,
            ),
    {
        let rate: u64 = self.speed_bps(now);
        eta_of(elapsed(self.bytes_transferred, self.total_bytes), rate)
    }

    /// The files that went over last, the oldest first.
    pub fn recent_files(&self) -> (r: &Vec<CompletedFile>)
        ensures
            *r == self.recent_files,
    {
        &self.recent_files
    }

    /// What each agent is doing.
    pub fn agent_jobs(&self) -> (r: &Vec<Option<String>>)
        ensures
            *r == self.agent_jobs,
    {
        &self.agent_jobs
    }
}

// ---------------------------------------------------------------------------
// Laws
// ---------------------------------------------------------------------------

/// What is remembered are the last few of all that ever happened, in order.
pub proof fn lemma_last_few_are_remembered<T>(all: Seq<T>, next: T)
    ensures
        last_few(last_few(all).push(next)) == last_few(all.push(next)),
        last_few(all).len() <= REMEMBERED,
{
    assert(last_few(last_few(all).push(next)) =~= last_few(all.push(next)));
}

/// How long it takes: unknown exactly where nothing moves; else as many seconds as what is left
/// takes at the speed of now, off by less than one.
pub proof fn lemma_time_left(remaining: u64, speed: u64)
    requires
        remaining < ratio::BITS_53,
        speed < ratio::BITS_53,
    ensures
        eta(remaining, speed) is None <==> speed == 0,
        eta(remaining, speed) matches Some(t) ==> 2 * (t * speed) <= 2 * remaining + speed
            && remaining < (t + 1) * speed,
        speed > 0 && remaining == 0 ==> eta(remaining, speed) == Some(0u64),
{
    if speed > 0 {
        ratio::lemma_whole_numbers_are_exact(remaining as nat, 1);
        ratio::lemma_whole_numbers_are_exact(speed as nat, 1);
        assert(remaining as nat * 1 == remaining as nat);
        assert(speed as nat * 1 == speed as nat);
        assert(remaining < speed * ratio::BITS_53) by (nonlinear_arith)
            requires
                remaining < ratio::BITS_53,
                speed >= 1,
        ;
        ratio::lemma_whole_part_is_near(remaining as nat, speed as nat);
        let w = ratio::whole_part(remaining as nat, speed as nat);
        assert(w <= u64::MAX) by (nonlinear_arith)
            requires
                2 * (w * speed) <= 2 * remaining + speed,
                speed >= 1,
                remaining < ratio::BITS_53,
                speed < ratio::BITS_53,
        ;
        if remaining == 0 {
            assert(w == 0) by (nonlinear_arith)
                requires
                    2 * (w * speed) <= speed,
                    speed >= 1,
            ;
        }
    }
}

/// What happens is counted once, and what is counted is kept: a file that went over, one that failed
/// and why, one that is there already, and bytes.
pub proof fn lemma_what_happens_is_counted(
    a: &mut ProgressTracker,
    b: &mut ProgressTracker,
    c: &mut ProgressTracker,
    d: &mut ProgressTracker,
    name: &str,
    local_md5: Option<String>,
    remote_md5: Option<String>,
    mode: u32,
    mtime: u64,
    remote_path: &str,
    local_path: &str,
    why: &str,
    retries: u32,
    bytes: u64,
    now: u64,
)
    requires
        old(a).wf(),
        old(d).wf(),
        old(a).files_completed < u64::MAX,
        old(b).files_failed < u64::MAX,
        old(c).files_skipped < u64::MAX,
        old(d).bytes_transferred + bytes <= u64::MAX,
        old(d).speed_tracker.total_bytes + bytes <= u64::MAX,
        call_ensures(
            ProgressTracker::file_completed,
            (a, name, local_md5, remote_md5, mode, mtime),
            (),
        ),
        call_ensures(ProgressTracker::file_failed, (b, remote_path, local_path, why, retries), ()),
        call_ensures(ProgressTracker::file_skipped, (c,), ()),
        call_ensures(ProgressTracker::add_bytes, (d, bytes, now), ()),
    ensures
        final(a).files_completed == old(a).files_completed + 1,
        final(a).files_failed == old(a).files_failed && final(a).bytes_transferred == old(a).bytes_transferred,
        final(a)@.recent_files.len() >= 1 && final(a)@.recent_files.last() == (CompletedView {
            name: name@,
            local_md5: local_md5.deep_view(),
            remote_md5: remote_md5.deep_view(),
            mode,
            mtime,
        }),
        final(b).files_failed == old(b).files_failed + 1,
        final(b).files_completed == old(b).files_completed,
        final(b)@.failed_files.len() == old(b)@.failed_files.len() + 1,
        final(b)@.failed_files.last() == (FailedView {
            remote_path: remote_path@,
            local_path: local_path@,
            error: why@,
            retries,
        }),
        forall|i: int|
            0 <= i < old(b)@.failed_files.len() ==> (#[trigger] final(b)@.failed_files[i]) == old(b)@.failed_files[i],
        final(c).files_skipped == old(c).files_skipped + 1,
        final(c).files_completed == old(c).files_completed,
        final(d).bytes_transferred == old(d).bytes_transferred + bytes,
        final(d).files_completed == old(d).files_completed,
{
    let f = CompletedView {
        name: name@,
        local_md5: local_md5.deep_view(),
        remote_md5: remote_md5.deep_view(),
        mode,
        mtime,
    };
    assert(old(a)@.recent_files.push(f).last() == f);
}

/// What the user should see is remembered last, and what an agent does is known for that agent.
pub proof fn lemma_events_are_remembered(
    a: &mut ProgressTracker,
    message: &str,
    is_error: bool,
    b: &mut ProgressTracker,
    agent: usize,
    job: Option<String>,
    i: int,
)
    requires
        old(a).wf(),
        call_ensures(ProgressTracker::log_event, (a, message, is_error), ()),
        call_ensures(ProgressTracker::set_agent_job, (b, agent, job), ()),
    ensures
        final(a)@.log_events.len() >= 1,
        final(a)@.log_events.last().message == message@ && final(a)@.log_events.last().is_error
            == is_error,
        old(a)@.log_events.len() < 5 ==> final(a)@.log_events.drop_last() == old(a)@.log_events,
        old(a)@.log_events.len() == 5 ==> final(a)@.log_events.len() == 5 && final(a)@.log_events.drop_last() == old(a)@.log_events.drop_first(),
        final(b)@.agent_jobs.len() == old(b)@.agent_jobs.len(),
        0 <= i < old(b)@.agent_jobs.len() ==> final(b)@.agent_jobs[i] == if i == agent {
            job.deep_view()
        } else {
            old(b)@.agent_jobs[i]
        },
{
    let e = LogView { message: message@, is_error };
    let all = old(a)@.log_events.push(e);
    assert(all.last() == e);
    if old(a)@.log_events.len() < 5 {
        assert(final(a)@.log_events.drop_last() =~= old(a)@.log_events);
    } else {
        assert(final(a)@.log_events.drop_last() =~= old(a)@.log_events.drop_first());
    }
}

/// The phases of a transfer follow each other without a gap, and how long each took is kept.
pub proof fn lemma_phases_follow_each_other(
    a: &mut ProgressTracker,
    b: &mut ProgressTracker,
    c: &mut ProgressTracker,
    now: u64,
    t: &ProgressTracker,
    phase: u64,
    seconds: u64,
)
    requires
        old(a).phase_start <= now,
        old(b).phase_start <= now,
        old(c).phase_start <= now,
        t.phase_start <= now,
        t.start_time <= now,
        call_ensures(ProgressTracker::mark_connected, (a, now), ()),
        call_ensures(ProgressTracker::mark_indexed, (b, now), ()),
        call_ensures(ProgressTracker::mark_transfer_complete, (c, now), ()),
        call_ensures(ProgressTracker::current_phase_elapsed, (t, now), phase),
        call_ensures(ProgressTracker::elapsed_secs, (t, now), seconds),
    ensures
        final(a).phase_timing.connect + old(a).phase_start == now && final(a).phase_start == now,
        final(a).phase_timing.index == old(a).phase_timing.index && final(a).phase_timing.transfer
            == old(a).phase_timing.transfer,
        final(b).phase_timing.index + old(b).phase_start == now && final(b).phase_start == now,
        final(b).phase_timing.connect == old(b).phase_timing.connect,
        final(c).phase_timing.transfer + old(c).phase_start == now,
        final(c).phase_timing.connect == old(c).phase_timing.connect && final(c).phase_timing.index
            == old(c).phase_timing.index,
        phase + t.phase_start == now,
        seconds * 1_000_000_000 <= now - t.start_time < (seconds + 1) * 1_000_000_000,
{
    assert(final(a)@.phase_timing == final(a).phase_timing);
    assert(final(b)@.phase_timing == final(b).phase_timing);
    assert(final(c)@.phase_timing == final(c).phase_timing);
    assert(final(a)@.phase_start == final(a).phase_start);
    assert(final(b)@.phase_start == final(b).phase_start);
}

/// The time that is left is that of the bytes that are left at the speed of now, and asking for it
/// counts nothing.
pub proof fn lemma_time_left_is_given(t: &mut ProgressTracker, now: u64, r: Option<u64>)
    requires
        old(t).wf(),
        old(t).bytes_transferred <= old(t).total_bytes,
        call_ensures(ProgressTracker::eta_secs, (t, now), r),
    ensures
        r == eta(
            (old(t).total_bytes - old(t).bytes_transferred) as u64,
            speed::total(final(t)@.speed.buckets) as u64,
        ),
        final(t).bytes_transferred == old(t).bytes_transferred,
        final(t).total_bytes == old(t).total_bytes,
        final(t)@.speed.total_bytes == old(t)@.speed.total_bytes,
{
    speed::lemma_turning_keeps_the_total(old(t)@.speed, now);
    assert(final(t)@.bytes_transferred == final(t).bytes_transferred);
    assert(final(t)@.total_bytes == final(t).total_bytes);
}

/// A new transfer counts nothing, and knows its agents, none of which does anything.
pub proof fn lemma_new_transfer_counts_nothing(agents: usize, now: u64, r: ProgressTracker)
    requires
        call_ensures(ProgressTracker::new, (agents, now), r),
    ensures
        r.total_bytes == 0 && r.bytes_transferred == 0,
        r.total_files == 0 && r.files_completed == 0 && r.files_failed == 0 && r.files_skipped == 0,
        r.recent_files@.len() == 0 && r.failed_files@.len() == 0 && r.log_events@.len() == 0,
        r.agent_jobs@.len() == agents,
        forall|i: int| 0 <= i < agents ==> (#[trigger] r@.agent_jobs[i]) is None,
        r.start_time == now && r.phase_start == now,
        r.phase_timing == (PhaseTiming { connect: 0, index: 0, transfer: 0 }),
{
    assert(r@.total_bytes == r.total_bytes);
    assert(r@.recent_files.len() == r.recent_files@.len());
    assert(r@.failed_files.len() == r.failed_files@.len());
    assert(r@.log_events.len() == r.log_events@.len());
    assert(r@.agent_jobs.len() == r.agent_jobs@.len());
}

/// What was set is what is given back, and setting one thing leaves the others.
pub proof fn lemma_what_was_set_is_given(
    a: &mut ProgressTracker,
    bytes: u64,
    files: u64,
    b: &mut ProgressTracker,
    source: &str,
    dest: &str,
    c: &mut ProgressTracker,
    enabled: bool,
    d: &mut ProgressTracker,
    count: u64,
    t: &ProgressTracker,
    total_bytes: u64,
    total_files: u64,
    source_desc: String,
    dest_desc: String,
    verify: bool,
    skipped: u64,
)
    requires
        call_ensures(ProgressTracker::set_totals, (a, bytes, files), ()),
        call_ensures(ProgressTracker::set_descriptions, (b, source, dest), ()),
        call_ensures(ProgressTracker::set_verify_enabled, (c, enabled), ()),
        call_ensures(ProgressTracker::set_files_skipped, (d, count), ()),
        call_ensures(ProgressTracker::total_bytes, (t,), total_bytes),
        call_ensures(ProgressTracker::total_files, (t,), total_files),
        call_ensures(ProgressTracker::source_desc, (t,), source_desc),
        call_ensures(ProgressTracker::dest_desc, (t,), dest_desc),
        call_ensures(ProgressTracker::verify_enabled, (t,), verify),
        call_ensures(ProgressTracker::files_skipped, (t,), skipped),
    ensures
        t@ == final(a)@ ==> total_bytes == bytes && total_files == files && skipped == old(a).files_skipped,
        t@ == final(b)@ ==> source_desc@ == source@ && dest_desc@ == dest@ && total_bytes == old(b).total_bytes,
        t@ == final(c)@ ==> verify == enabled && source_desc@ == old(c).source_desc@,
        t@ == final(d)@ ==> skipped == count && total_files == old(d).total_files,
{
    assert(t@.total_bytes == t.total_bytes);
    assert(t@.source_desc == t.source_desc@);
}

/// What was counted and remembered is what is given back.
pub proof fn lemma_what_was_counted_is_given(
    t: &ProgressTracker,
    timing: PhaseTiming,
    events: &Vec<LogEvent>,
    failures: &Vec<FailedFile>,
    bytes: u64,
    completed: u64,
    failed: u64,
    recent: &Vec<CompletedFile>,
    jobs: &Vec<Option<String>>,
)
    requires
        call_ensures(ProgressTracker::phase_timing, (t,), timing),
        call_ensures(ProgressTracker::log_events, (t,), events),
        call_ensures(ProgressTracker::failed_files, (t,), failures),
        call_ensures(ProgressTracker::bytes_transferred, (t,), bytes),
        call_ensures(ProgressTracker::files_completed, (t,), completed),
        call_ensures(ProgressTracker::files_failed, (t,), failed),
        call_ensures(ProgressTracker::recent_files, (t,), recent),
        call_ensures(ProgressTracker::agent_jobs, (t,), jobs),
    ensures
        timing == t@.phase_timing,
        events@.map_values(|e: LogEvent| e@) == t@.log_events,
        failures@.map_values(|f: FailedFile| f@) == t@.failed_files,
        bytes == t@.bytes_transferred,
        completed == t@.files_completed,
        failed == t@.files_failed,
        recent@.map_values(|f: CompletedFile| f@) == t@.recent_files,
        jobs@.map_values(|j: Option<String>| j.deep_view()) == t@.agent_jobs,
{
}

} // verus!
