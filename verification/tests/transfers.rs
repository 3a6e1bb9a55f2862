use straws::agent::pool::{AgentPool, AgentState, StartEvent};
use straws::agent::protocol::{OpCode, Response, ResponseStatus, StatInfo};
use straws::config::{Config, Direction as Way, RemoteSpec};
use straws::error::StrawsError;
use straws::file::finalize::{finalize_file, finalize_plan};
use straws::job::types::Prealloc;
use straws::job::{Direction, FileMeta, Job, JobQueue, JobScheduler};
use straws::progress::ProgressTracker;
use straws::transfer::download::{read_request, verify_download, DownloadJob, DownloadStep};
use straws::transfer::io::{compare_digests, hex, RangeDigest};
use straws::transfer::upload::{
    digest_request, truncate_request, truncated, verify_upload, UploadAction, UploadJob,
    UploadPipeline, UploadStep,
};

fn ok(data: &[u8]) -> Response {
    Response { status: ResponseStatus::Success, data: data.to_vec() }
}

fn bad(data: &[u8]) -> Response {
    Response { status: ResponseStatus::Error, data: data.to_vec() }
}

fn meta(size: u64, chunks: u32) -> FileMeta {
    FileMeta::new("/r/f".to_string(), "l/f".to_string(), size, 0o100644, 12, chunks)
}

#[test]
fn digests_are_md5() {
    let digest = |pieces: &[&[u8]]| {
        let mut d = RangeDigest::new(pieces.iter().map(|p| p.len() as u64).sum());
        for p in pieces {
            d.take(p);
        }
        assert_eq!(d.wants(), 0);
        d.finish()
    };
    assert_eq!(digest(&[]), "d41d8cd98f00b204e9800998ecf8427e");
    assert_eq!(digest(&[b"abc"]), "900150983cd24fb0d6963f7d28e17f72");
    assert_eq!(digest(&[b"a", b"", b"bc"]), "900150983cd24fb0d6963f7d28e17f72");
    assert_eq!(
        digest(&[b"The quick brown fox ", b"jumps over the lazy dog"]),
        "9e107d9d372bb6826bd81d3542a419d6"
    );
}

#[test]
fn ranges_are_read_in_pieces() {
    let mut d = RangeDigest::new(600_000);
    assert_eq!(d.wants(), 524_288);
    d.take(&vec![0; 524_288]);
    assert_eq!(d.wants(), 600_000 - 524_288);
    d.take(&[0; 12]);
    assert_eq!(d.wants(), 600_000 - 524_288 - 12);
}

#[test]
fn bytes_become_hexadecimal() {
    assert_eq!(hex(&[]), "");
    let all: Vec<u8> = (0..=255).collect();
    let want: String = all.iter().map(|b| format!("{:02x}", b)).collect();
    assert_eq!(hex(&all), want);
}

#[test]
fn digests_that_differ_are_a_failure() {
    assert!(compare_digests("p", "x", "x").is_ok());
    assert_eq!(
        compare_digests("p", "x", "y").unwrap_err().message(),
        "MD5 verification failed for p: expected x, got y"
    );
}

#[test]
fn the_pipeline_fills_flushes_and_drains() {
    let piece = 524_288u64;
    let mut p = UploadPipeline::new(1000, 20 * piece + 5);
    let mut offsets = Vec::new();
    for i in 0..16 {
        assert_eq!(p.next_action(), UploadAction::Read(piece as usize));
        let r = p.take_data("/f", vec![i as u8; piece as usize]).unwrap();
        assert_eq!(r.op, OpCode::Write);
        offsets.push(r.offset);
    }
    let want: Vec<u64> = (0..16).map(|i| 1000 + i * piece).collect();
    assert_eq!(offsets, want);
    assert_eq!(p.next_action(), UploadAction::Flush);
    for _ in 0..8 {
        assert_eq!(p.next_action(), UploadAction::Await);
        assert_eq!(p.take_response(&ok(b"")).unwrap(), piece);
    }
    for _ in 0..4 {
        assert_eq!(p.next_action(), UploadAction::Read(piece as usize));
        assert!(p.take_data("/f", vec![9; piece as usize]).is_some());
    }
    assert_eq!(p.next_action(), UploadAction::Read(5));
    assert!(p.take_data("/f", vec![9; 5]).is_some());
    assert_eq!(p.next_action(), UploadAction::Flush);
    let mut answered = 0;
    while p.next_action() == UploadAction::Await {
        assert!(p.take_response(&ok(b"")).is_ok());
        answered += 1;
    }
    assert_eq!(answered, 13);
    assert_eq!(p.next_action(), UploadAction::Finished);
    assert_eq!(p.total_written(), 20 * piece + 5);
}

#[test]
fn an_upload_writes_the_range_in_place() {
    let content: Vec<u8> = (0..2_000_000u32).map(|i| (i % 251) as u8).collect();
    let (start, length) = (300_000usize, 1_500_000usize);
    let mut remote = vec![0u8; content.len()];
    let mut p = UploadPipeline::new(start as u64, length as u64);
    let mut at = start;
    let mut size = 1usize;
    loop {
        match p.next_action() {
            UploadAction::Read(n) => {
                size = size * 7 % 400_009 + 1;
                let n = n.min(size);
                let r = p.take_data("/f", content[at..at + n].to_vec()).unwrap();
                at += n;
                let data = r.data.unwrap();
                assert_eq!(r.length as usize, data.len());
                let o = r.offset as usize;
                remote[o..o + data.len()].copy_from_slice(&data);
            }
            UploadAction::Flush => {}
            UploadAction::Await => {
                assert!(p.take_response(&ok(b"")).is_ok());
            }
            UploadAction::Finished => break,
        }
    }
    assert_eq!(p.total_written() as usize, length);
    assert_eq!(&remote[start..start + length], &content[start..start + length]);
    assert!(remote[..start].iter().all(|b| *b == 0));
    assert!(remote[start + length..].iter().all(|b| *b == 0));
}

#[test]
fn a_file_that_ends_early_ends_the_upload() {
    let mut p = UploadPipeline::new(0, 100);
    assert_eq!(p.next_action(), UploadAction::Read(100));
    assert!(p.take_data("/f", vec![1; 40]).is_some());
    assert_eq!(p.next_action(), UploadAction::Read(60));
    assert!(p.take_data("/f", vec![]).is_none());
    assert_eq!(p.next_action(), UploadAction::Flush);
    assert_eq!(p.next_action(), UploadAction::Await);
    assert_eq!(p.take_response(&ok(b"")).unwrap(), 40);
    assert_eq!(p.next_action(), UploadAction::Finished);
    assert_eq!(p.total_written(), 40);
}

#[test]
fn an_empty_range_needs_nothing() {
    let mut p = UploadPipeline::new(7, 0);
    assert_eq!(p.next_action(), UploadAction::Finished);
}

#[test]
fn a_write_that_fails_is_reported() {
    let mut p = UploadPipeline::new(0, 10);
    p.next_action();
    p.take_data("/f", vec![1; 10]);
    assert_eq!(p.next_action(), UploadAction::Flush);
    assert_eq!(p.next_action(), UploadAction::Await);
    assert_eq!(p.take_response(&bad(b"disk full")).unwrap_err().message(), "Remote error: disk full");
    assert_eq!(p.total_written(), 0);
}

#[test]
fn the_remote_file_is_laid_out_once() {
    let mut m = meta(100, 2);
    let r = truncate_request(&m).unwrap();
    assert_eq!((r.op, r.path.as_str(), r.length), (OpCode::Truncate, "/r/f", 100));
    assert!(truncated(&mut m, Some(Ok(ok(b"")))).is_ok());
    assert!(truncate_request(&m).is_none());
    assert!(truncated(&mut m, None).is_ok());
    assert!(truncated(&mut m, Some(Ok(bad(b"x")))).is_ok());

    let mut m = meta(100, 2);
    let e = truncated(&mut m, Some(Ok(bad(b"read only")))).unwrap_err();
    assert_eq!(e.message(), "Remote error: Remote error: read only");
    let e = truncated(&mut m, None).unwrap_err();
    assert_eq!(e.message(), "Remote error: Remote error: read only");

    let mut m = meta(100, 2);
    let e = truncated(&mut m, Some(Err(StrawsError::Stall(30)))).unwrap_err();
    assert!(matches!(e, StrawsError::Remote(m) if m.starts_with("Transfer stalled")));
}

#[test]
fn an_upload_takes_its_steps() {
    let mut m = meta(4, 2);
    let job = Job::chunk(8, 0, Direction::Upload, 1, 2, 2, true);
    let mut u = UploadJob::new(&job);
    assert_eq!(u.step, UploadStep::Truncate);
    assert!(u.laid_out(&mut m, Some(Ok(ok(b"")))).is_ok());
    assert_eq!(u.step, UploadStep::Pipeline);
    assert_eq!(u.pipeline.next_action(), UploadAction::Read(2));
    assert_eq!(u.pipeline.take_data("/r/f", vec![1, 2]).unwrap().offset, 2);
    assert_eq!(u.pipeline.next_action(), UploadAction::Flush);
    assert_eq!(u.pipeline.next_action(), UploadAction::Await);
    assert!(u.pipeline.take_response(&ok(b"")).is_ok());
    assert_eq!(u.pipeline.next_action(), UploadAction::Finished);
    u.sent(&mut m, &job);
    assert_eq!(m.completed_chunks, [false, false]);
    assert_eq!(u.step, UploadStep::LocalDigest);
    u.digested("aa".to_string());
    let r = digest_request(&m, &job);
    assert_eq!((r.op, r.offset, r.length), (OpCode::Md5, 2, 2));
    assert_eq!(
        u.compared(&mut m, &job, &ok(b"bb")).unwrap_err().message(),
        "MD5 verification failed for /r/f: expected aa, got bb"
    );
    assert_eq!(u.step, UploadStep::RemoteDigest);
    assert_eq!(m.completed_chunks, [false, false]);
    assert!(u.compared(&mut m, &job, &ok(b"aa")).is_ok());
    assert_eq!(m.completed_chunks, [false, true]);
    let result = u.result(&job);
    assert!(result.success);
    assert_eq!((result.job_id, result.bytes_transferred), (8, 2));
    assert_eq!(result.md5.as_deref(), Some("aa"));
}

#[test]
fn a_bad_chunk_holds_the_file_back() {
    let mut m = meta(4, 2);
    let first = Job::chunk(0, 0, Direction::Download, 0, 0, 2, true);
    let second = Job::chunk(1, 0, Direction::Download, 1, 2, 2, true);
    let run = |m: &mut FileMeta, job: &Job, remote: &[u8]| {
        let mut d = DownloadJob::new();
        assert!(d.laid_out(m, Prealloc::Done).is_ok());
        d.received(m, job, 2);
        d.digested("aa".to_string());
        d.compared(m, job, &ok(remote))
    };
    assert!(run(&mut m, &first, b"bb").is_err());
    assert!(run(&mut m, &second, b"aa").is_ok());
    assert_eq!(m.completed_chunks, [false, true]);
    assert!(!m.is_complete());
    assert!(run(&mut m, &first, b"aa").is_ok());
    assert!(m.is_complete());
}

#[test]
fn answers_are_counted_and_a_refusal_gives_the_agent_up() {
    let mut m = meta(600_000, 1);
    let mut t = ProgressTracker::new(2, 0);
    let mut p = AgentPool::new(config(), 0);
    assert!(p.started(1, StartEvent::Answered).is_ok());
    let job = Job::whole_file(0, 0, &m, Direction::Upload, false);
    let mut u = UploadJob::new(&job);
    assert!(u.laid_out(&mut m, Some(Ok(ok(b"")))).is_ok());
    assert_eq!(u.pipeline.oldest_write(), None);
    assert_eq!(u.pipeline.next_action(), UploadAction::Read(524_288));
    u.pipeline.take_data("/r/f", vec![0; 524_288]);
    assert_eq!(u.pipeline.next_action(), UploadAction::Read(75_712));
    u.pipeline.take_data("/r/f", vec![0; 75_712]);
    assert_eq!(u.pipeline.next_action(), UploadAction::Flush);
    assert_eq!(u.pipeline.next_action(), UploadAction::Await);
    assert_eq!(u.pipeline.oldest_write(), Some(524_288));
    assert_eq!(u.answered(&ok(b""), &mut m, &mut t, &mut p, 1, 10).unwrap(), 524_288);
    assert_eq!((m.bytes_transferred, t.bytes_transferred()), (524_288, 524_288));
    assert_eq!(t.speed_bps(10), 524_288);
    assert_eq!(p.agents()[1].state(), AgentState::Ready);
    assert_eq!(u.pipeline.next_action(), UploadAction::Await);
    let e = u.answered(&bad(b"full"), &mut m, &mut t, &mut p, 1, 20).unwrap_err();
    assert_eq!(e.message(), "Remote error: full");
    assert_eq!((m.bytes_transferred, t.bytes_transferred()), (524_288, 524_288));
    assert_eq!(p.agents()[1].state(), AgentState::Unhealthy);
}

#[test]
fn an_upload_without_digests_is_done_when_sent() {
    let mut m = meta(0, 1);
    let job = Job::whole_file(1, 0, &m, Direction::Upload, false);
    let mut u = UploadJob::new(&job);
    assert!(u.laid_out(&mut m, Some(Ok(ok(b"")))).is_ok());
    assert_eq!(u.pipeline.next_action(), UploadAction::Finished);
    u.sent(&mut m, &job);
    assert!(m.is_complete());
    assert_eq!(u.step, UploadStep::Done);
    assert_eq!(u.result(&job).md5, None);
}

#[test]
fn a_download_takes_its_steps() {
    let mut m = meta(10, 1);
    let job = Job::whole_file(3, 0, &m, Direction::Download, true);
    let mut d = DownloadJob::new();
    assert!(d.laid_out(&mut m, Prealloc::Done).is_ok());
    assert_eq!(d.step, DownloadStep::Stream);
    let r = read_request(&m, &job);
    assert_eq!((r.op, r.path.as_str(), r.offset, r.length), (OpCode::Read, "/r/f", 0, 10));
    d.received(&mut m, &job, 10);
    assert_eq!(m.bytes_transferred, 10);
    assert!(!m.is_complete());
    assert_eq!(d.step, DownloadStep::LocalDigest);
    d.digested("aa".to_string());
    assert_eq!(
        d.compared(&mut m, &job, &bad(b"gone")).unwrap_err().message(),
        "Remote error: gone"
    );
    assert_eq!(
        d.compared(&mut m, &job, &ok(b"bb")).unwrap_err().message(),
        "MD5 verification failed for /r/f: expected bb, got aa"
    );
    assert!(!m.is_complete());
    assert!(d.compared(&mut m, &job, &ok(b"aa")).is_ok());
    assert!(m.is_complete());
    let result = d.result(&job);
    assert_eq!((result.job_id, result.bytes_transferred), (3, 10));
    assert_eq!(result.md5.as_deref(), Some("aa"));
}

#[test]
fn a_download_without_a_file_fails() {
    let mut m = meta(10, 1);
    let mut d = DownloadJob::new();
    let e = d.laid_out(&mut m, Prealloc::NoFile("locked".to_string())).unwrap_err();
    assert_eq!(e.message(), "IO error: Failed to create temp file: locked");
    assert_eq!(d.step, DownloadStep::Preallocate);
    assert!(d.laid_out(&mut m, Prealloc::Done).is_err());
}

#[test]
fn both_directions_check_digests() {
    let m = meta(1, 1);
    assert!(verify_upload(&m, "x", &ok(b"x")).is_ok());
    assert!(verify_download(&m, "x", &ok(b"x")).is_ok());
    assert_eq!(verify_upload(&m, "x", &bad(b"m")).unwrap_err().message(), "Remote error: m");
    // Broken bytes are no digest.
    assert!(verify_upload(&m, "x\u{fffd}", &ok(b"x\xff")).is_ok());
}

#[test]
fn a_finished_file_is_put_in_its_place() {
    let m = meta(1, 1);
    let plan = finalize_plan(&m);
    assert_eq!(plan.temp_path, "l/f.straws.tmp");
    assert_eq!(plan.final_path, "l/f");
    assert_eq!((plan.mode, plan.mtime), (Some(0o644), Some(12)));
    assert_eq!(
        plan.rename_failure("denied"),
        "Failed to rename l/f.straws.tmp to l/f: denied"
    );
    let bare = FileMeta::new("r".to_string(), "f".to_string(), 1, 0, 0, 1);
    let plan = finalize_plan(&bare);
    assert_eq!((plan.mode, plan.mtime), (None, None));

    let mut m = meta(1, 1);
    let e = finalize_file(&mut m, Err("no".to_string())).unwrap_err();
    assert_eq!(e.message(), "IO error: no");
    assert!(finalize_file(&mut m, Ok(())).is_err());
    let mut m = meta(1, 1);
    assert!(finalize_file(&mut m, Ok(())).is_ok());
    assert!(finalize_file(&mut m, Err("late".to_string())).is_ok());
}

fn config() -> Config {
    Config {
        direction: Way::Upload,
        remote: RemoteSpec { user: None, host: "box".to_string(), path: "/r".to_string() },
        local_paths: vec!["l".to_string()],
        tunnels: 3,
        port: 22,
        identity: None,
        password: None,
        compress: false,
        chunk_size: 100,
        verify: false,
        force: false,
        no_progress: true,
        debug_log: None,
        verbose: false,
    }
}

#[test]
fn jobs_in_any_order_copy_the_file() {
    let content: Vec<u8> = (0..1003u32).map(|i| (i * 7 % 256) as u8).collect();
    let mut s = JobScheduler::new(config(), JobQueue::new());
    let stat = StatInfo { size: content.len() as u64, mode: 0, mtime: 0 };
    s.create_upload_jobs("/r", "l", stat, &None, None, &None, 3);
    assert_eq!(s.jobs.len(), 11);
    let mut file = vec![9u8; 10];
    for i in [3, 0, 10, 3, 5, 4, 9, 8, 7, 6, 2, 1, 0] {
        let job = &s.jobs[i];
        let (from, to) = (job.offset as usize, (job.offset + job.length) as usize);
        if file.len() < to {
            file.resize(to, 0);
        }
        file[from..to].copy_from_slice(&content[from..to]);
    }
    assert_eq!(file, content);
}
