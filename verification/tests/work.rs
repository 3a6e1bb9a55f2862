use straws::agent::pool::{AgentPool, AgentState, StartEvent};
use straws::agent::protocol::StatInfo;
use straws::auth::key::{validate_key_file, KeyFile};
use straws::auth::password::{get_password, prompt_password, read_password_file, PasswordSource};
use straws::config::{Config, Direction as Way, RemoteSpec};
use straws::error::StrawsError;
use straws::job::{Direction, JobQueue, JobResult, JobScheduler};
use straws::logger::{log_line, timestamp};
use straws::progress::ProgressTracker;
use straws::session;
use straws::worker::{
    agent_step, begin_job, complete_job, fail_job, finalized, next_step, no_agent, ActiveFiles, AgentStep,
    DoneStep, FailStep, WorkerStep,
};

fn config() -> Config {
    Config {
        direction: Way::Download,
        remote: RemoteSpec {
            user: Some("u".to_string()),
            host: "h".to_string(),
            path: "/p".to_string(),
        },
        local_paths: vec!["out".to_string()],
        tunnels: 2,
        port: 22,
        identity: None,
        password: None,
        compress: false,
        chunk_size: 10,
        verify: false,
        force: false,
        no_progress: true,
        debug_log: None,
        verbose: false,
    }
}

fn scheduler(capacity: usize, size: u64) -> JobScheduler {
    let mut s = JobScheduler::new(config(), JobQueue::with_capacity(capacity));
    let stat = StatInfo { size, mode: 0o644, mtime: 3 };
    s.create_download_jobs("/r/f.bin", "l/f.bin", stat, &None, None, &None, 2);
    s
}

fn pool() -> AgentPool {
    let mut p = AgentPool::new(config(), 0);
    p.started(0, StartEvent::Answered).unwrap();
    p.started(1, StartEvent::Answered).unwrap();
    p
}

fn events(t: &ProgressTracker) -> Vec<String> {
    t.log_events().iter().map(|e| e.message.clone()).collect()
}

#[test]
fn a_worker_takes_jobs_until_none_is_left() {
    let mut s = scheduler(5, 15);
    assert_eq!(next_step(&mut s, true, false, false), WorkerStep::Stop);
    assert_eq!(next_step(&mut s, false, true, false), WorkerStep::Run(0));
    assert_eq!(next_step(&mut s, false, true, false), WorkerStep::Run(1));
    assert_eq!(next_step(&mut s, false, false, false), WorkerStep::Wait);
    assert_eq!(next_step(&mut s, false, false, true), WorkerStep::Wait);
    // Even when no job will come any more, a worker waits once.
    assert_eq!(next_step(&mut s, false, true, false), WorkerStep::Wait);
    assert_eq!(next_step(&mut s, false, true, true), WorkerStep::Stop);
    assert_eq!(next_step(&mut s, true, false, true), WorkerStep::Stop);
    // A job that came while it waited is taken.
    assert!(s.requeue(1));
    assert_eq!(next_step(&mut s, true, true, true), WorkerStep::Run(1));
}

#[test]
fn a_worker_waits_for_an_agent_or_gives_up() {
    let mut p = pool();
    assert_eq!(agent_step(&mut p, true), AgentStep::GiveUp);
    assert_eq!(agent_step(&mut p, false), AgentStep::Got(0));
    assert_eq!(agent_step(&mut p, false), AgentStep::Got(1));
    assert_eq!(agent_step(&mut p, false), AgentStep::Wait);
    p.mark_unhealthy(0);
    assert_eq!(agent_step(&mut p, false), AgentStep::Wait);
    p.mark_unhealthy(1);
    assert_eq!(agent_step(&mut p, false), AgentStep::GiveUp);
}

#[test]
fn a_job_without_an_agent_fails() {
    let s = scheduler(5, 5);
    let mut t = ProgressTracker::new(2, 0);
    no_agent(&s, &mut t, 0, false);
    no_agent(&s, &mut t, 0, true);
    let f = t.failed_files();
    assert_eq!(f[0].remote_path, "/r/f.bin");
    assert_eq!(f[0].local_path, "l/f.bin");
    assert_eq!(f[0].error, "All SSH connections failed or became unavailable");
    assert_eq!(f[1].error, "Operation aborted");
    assert_eq!(t.files_failed(), 2);
}

#[test]
fn a_job_is_tried_three_times() {
    let mut s = scheduler(5, 5);
    let mut p = pool();
    let mut t = ProgressTracker::new(2, 0);
    let e = StrawsError::Remote("x".to_string());
    let mut tries = 0;
    let last = loop {
        assert_eq!(next_step(&mut s, false, true, false), WorkerStep::Run(0));
        assert_eq!(p.acquire(), Some(0));
        tries += 1;
        let step = fail_job(&mut s, &mut p, &mut t, 0, 0, &e);
        if step != FailStep::Requeued {
            break step;
        }
    };
    assert_eq!(tries, 3);
    assert_eq!(last, FailStep::Exhausted);
    assert_eq!(
        events(&t),
        [
            "Retrying f.bin: Remote error: x",
            "Retrying f.bin: Remote error: x",
            "Failed f.bin: max retries"
        ]
    );
    assert_eq!(t.failed_files()[0].retries, 3);
    assert_eq!(t.failed_files()[0].error, "Remote error: x");
    assert_eq!(p.agents()[0].state(), AgentState::Ready);
    assert_eq!(next_step(&mut s, false, true, true), WorkerStep::Stop);
}

#[test]
fn an_agent_that_fails_is_given_up() {
    let mut s = scheduler(5, 5);
    let mut p = pool();
    let mut t = ProgressTracker::new(2, 0);
    assert_eq!(s.take_job(), Some(0));
    assert_eq!(p.acquire(), Some(0));
    let step = fail_job(&mut s, &mut p, &mut t, 0, 0, &StrawsError::Stall(30));
    assert_eq!(step, FailStep::Requeued);
    assert_eq!(p.agents()[0].state(), AgentState::Unhealthy);
    let text = "Transfer stalled (no data received for 30 seconds, network or remote issue)";
    assert_eq!(
        events(&t),
        [format!("Agent error: {}", text), format!("Retrying f.bin: {}", text)]
    );
    assert_eq!(s.take_job(), Some(0));
    assert_eq!(s.jobs[0].retries(), 1);
}

#[test]
fn a_hopeless_job_fails_at_once() {
    let mut s = scheduler(5, 5);
    let mut p = pool();
    let mut t = ProgressTracker::new(2, 0);
    assert_eq!(s.take_job(), Some(0));
    let step = fail_job(&mut s, &mut p, &mut t, 0, 1, &StrawsError::Io("disk".to_string()));
    assert_eq!(step, FailStep::Hopeless);
    assert_eq!(events(&t), ["Failed f.bin: IO error: disk"]);
    assert_eq!(t.failed_files()[0].retries, 0);
    assert!(s.is_drained());
}

#[test]
fn a_full_queue_fails_the_job() {
    let mut s = scheduler(1, 15);
    let mut p = pool();
    let mut t = ProgressTracker::new(2, 0);
    assert_eq!(s.take_job(), Some(0));
    s.fill();
    let e = StrawsError::Remote("x".to_string());
    assert_eq!(fail_job(&mut s, &mut p, &mut t, 0, 1, &e), FailStep::QueueFull);
    assert_eq!(events(&t)[1], "Failed f.bin: queue full");
    assert_eq!(t.files_failed(), 1);
}

#[test]
fn the_last_job_of_a_file_finishes_it_once() {
    let mut s = scheduler(5, 15);
    let mut p = pool();
    let mut t = ProgressTracker::new(2, 0);
    let r = JobResult::success(0, 10, Some("aa".to_string()));
    let m = &mut s.files[0];
    m.mark_chunk_complete(0);
    assert_eq!(complete_job(m, Direction::Download, &mut p, &mut t, 0, &r), DoneStep::Nothing);
    m.mark_chunk_complete(1);
    assert_eq!(complete_job(m, Direction::Download, &mut p, &mut t, 0, &r), DoneStep::Finalize);
    finalized(m, &mut t, 0, &r, &Ok(()));
    assert_eq!(t.recent_files()[0].name, "f.bin");
    assert_eq!(t.recent_files()[0].remote_md5.as_deref(), Some("aa"));
    assert_eq!((t.recent_files()[0].mode, t.recent_files()[0].mtime), (0o644, 3));
    finalized(m, &mut t, 2, &r, &Err(StrawsError::Io("no".to_string())));
    assert_eq!((t.failed_files()[0].error.as_str(), t.failed_files()[0].retries), ("IO error: no", 2));

    assert_eq!(complete_job(m, Direction::Upload, &mut p, &mut t, 0, &r), DoneStep::Finished);
    assert_eq!(t.files_completed(), 2);
    assert_eq!(complete_job(m, Direction::Upload, &mut p, &mut t, 0, &r), DoneStep::Nothing);
    assert_eq!(t.files_completed(), 2);
}

#[test]
fn the_display_shows_what_agents_do() {
    let mut s = scheduler(5, 15);
    let mut p = pool();
    let mut t = ProgressTracker::new(2, 0);
    begin_job(&s, &mut t, 0, 1);
    begin_job(&s, &mut t, 1, 0);
    begin_job(&s, &mut t, 1, 7);
    let what: Vec<Option<&str>> = t.agent_jobs().iter().map(|j| j.as_deref()).collect();
    assert_eq!(what, [Some("[2/2] f.bin"), Some("[1/2] f.bin")]);
    let e = StrawsError::Remote("x".to_string());
    fail_job(&mut s, &mut p, &mut t, 0, 1, &e);
    assert_eq!(t.agent_jobs()[1], None);
    assert!(t.agent_jobs()[0].is_some());
    let r = JobResult::success(1, 5, None);
    complete_job(&mut s.files[0], Direction::Download, &mut p, &mut t, 0, &r);
    assert_eq!(t.agent_jobs()[0], None);
}

#[test]
fn files_under_way_are_known() {
    let s = scheduler(5, 15);
    let mut a = ActiveFiles::new();
    a.begin(0);
    a.begin(0);
    assert_eq!(a.files, [0]);
    assert_eq!(a.to_clean(&s), [0]);
    a.begin(4);
    a.finish(0);
    a.finish(7);
    assert_eq!(a.files, [4]);
    let mut s = s;
    s.files[0].mark_chunk_complete(0);
    s.files[0].mark_chunk_complete(1);
    let mut a = ActiveFiles::new();
    a.begin(0);
    assert!(a.to_clean(&s).is_empty());
}

#[test]
fn keys_are_checked() {
    assert!(validate_key_file("k", KeyFile::Mode(0o100600)).is_ok());
    assert!(validate_key_file("k", KeyFile::Mode(0o400)).is_ok());
    let fail = |f: KeyFile| validate_key_file("k", f).unwrap_err().message();
    assert_eq!(fail(KeyFile::Missing), "Configuration error: SSH key file not found: k");
    assert_eq!(fail(KeyFile::NotAFile), "Configuration error: SSH key path is not a file: k");
    assert_eq!(
        fail(KeyFile::Unreadable("why".to_string())),
        "Configuration error: Cannot read SSH key file k: why"
    );
    assert_eq!(
        fail(KeyFile::Mode(0o100644)),
        "Configuration error: SSH key file k has insecure permissions 644. Should be 600 or 400."
    );
}

#[test]
fn passwords_come_from_the_first_source() {
    let s = |t: &str| Some(t.to_string());
    assert!(matches!(get_password(true, &s("f"), &s("e")), PasswordSource::File(p) if p == "f"));
    assert!(matches!(get_password(true, &None, &s("e")), PasswordSource::Environment(p) if p == "e"));
    assert!(matches!(get_password(true, &None, &s("")), PasswordSource::Prompt));
    assert!(matches!(get_password(true, &None, &None), PasswordSource::Prompt));
    assert!(matches!(get_password(false, &None, &s("")), PasswordSource::Nowhere));
}

#[test]
fn passwords_are_read() {
    let file = |c: &str| read_password_file("f", Ok(c.to_string()));
    assert_eq!(file(" secret \r\nother\n").unwrap(), "secret");
    assert_eq!(file("one").unwrap(), "one");
    let empty = "Configuration error: Password file f is empty";
    assert_eq!(file("").unwrap_err().message(), empty);
    assert_eq!(file("\nsecond").unwrap_err().message(), empty);
    assert_eq!(
        read_password_file("f", Err("gone".to_string())).unwrap_err().message(),
        "Configuration error: Failed to read password file f: gone"
    );
    assert_eq!(prompt_password("a b \r\n").unwrap(), "a b ");
    assert_eq!(
        prompt_password("\r\n").unwrap_err().message(),
        "Configuration error: Empty password"
    );
}

#[test]
fn log_lines_have_a_time() {
    assert_eq!(timestamp(12, 7), "12.007");
    assert_eq!(log_line(1, 234, "hello"), "[1.234] hello\n");
}

#[test]
fn the_user_is_told_how_it_goes() {
    assert_eq!(session::connecting_line(2, 8), "\rConnecting... 2/8 tunnels");
    let (line, outcome) = session::connected(3, 8);
    assert_eq!(line, "\rConnecting... 3/8 tunnels ready       ");
    assert!(outcome.is_ok());
    let (line, outcome) = session::connected(0, 8);
    assert_eq!(line, "\rConnecting... failed                    ");
    assert!(matches!(outcome, Err(StrawsError::AllAgentsUnhealthy)));
    assert_eq!(session::scanning_line(false, 3, 0), "\rScanning: 3 files found");
    assert_eq!(
        session::scanning_line(true, 3, 9),
        "\rScanning (with verification): 3 files found, 9 jobs scheduled"
    );
    assert_eq!(session::scanned_line(false, 3, 3), "\rScanning: 3 files found       ");
    assert_eq!(session::scanned_line(false, 3, 4), "\rScanning: 3 files, 4 jobs scheduled       ");
}

#[test]
fn a_transfer_ends() {
    assert_eq!(session::idle_line(1, 5), None);
    assert_eq!(session::idle_line(0, 0).as_deref(), Some("No files to transfer"));
    assert_eq!(
        session::idle_line(0, 2).as_deref(),
        Some("No files to transfer (2 already complete)")
    );
    assert!(session::outcome(0).is_ok());
    assert_eq!(session::outcome(2).unwrap_err().message(), "2 files failed");
    let (from, to) = session::describe(&config());
    assert_eq!((from.as_str(), to.as_str()), ("u@h:/p", "out"));
    let mut c = config();
    c.direction = Way::Upload;
    let (from, to) = session::describe(&c);
    assert_eq!((from.as_str(), to.as_str()), ("u@h:/p", "out"));
    c.local_paths.clear();
    assert_eq!(session::describe(&c).1, ".");
}
