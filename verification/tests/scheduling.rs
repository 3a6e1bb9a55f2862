use straws::agent::protocol::{Response, ResponseStatus, StatInfo};
use straws::config::{Config, Direction as Way, RemoteSpec};
use straws::error::StrawsError;
use straws::job::scheduler::{
    local_path_for, refusal, remote_digest, remote_size, schedule_download_path, upload_base,
    upload_entry_path, upload_path, wants_other_digest, JobScheduler, Presence, Target,
};
use straws::job::{Direction, JobQueue};

fn config(path: &str) -> Config {
    Config {
        direction: Way::Download,
        remote: RemoteSpec { user: None, host: "h".to_string(), path: path.to_string() },
        local_paths: vec!["out".to_string()],
        tunnels: 4,
        port: 22,
        identity: None,
        password: None,
        compress: false,
        chunk_size: 100,
        verify: false,
        force: false,
        no_progress: true,
        debug_log: None,
        verbose: false,
    }
}

fn scheduler(c: Config, capacity: usize) -> JobScheduler {
    JobScheduler::new(c, JobQueue::with_capacity(capacity))
}

fn stat(size: u64, mode: u32) -> StatInfo {
    StatInfo { size, mode, mtime: 5 }
}

fn reply(status: ResponseStatus, data: Vec<u8>) -> Response {
    Response { status, data }
}

fn stat_reply(size: u64, mode: u32) -> Response {
    let mut data = size.to_be_bytes().to_vec();
    data.extend_from_slice(&mode.to_be_bytes());
    data.extend_from_slice(&5u64.to_be_bytes());
    reply(ResponseStatus::Success, data)
}

const DIR: u32 = 0o040755;
const FILE: u32 = 0o100644;

fn local_base(remote: &str, dest: &str, is_dir: bool) -> String {
    match schedule_download_path(remote, dest, is_dir, Ok(stat_reply(0, DIR))).unwrap() {
        Target::Directory { local_base } => local_base,
        Target::File { .. } => panic!("a directory"),
    }
}

fn local_file(remote: &str, dest: &str, is_dir: bool) -> String {
    match schedule_download_path(remote, dest, is_dir, Ok(stat_reply(9, FILE))).unwrap() {
        Target::File { local_path, stat } => {
            assert_eq!((stat.size, stat.mode, stat.mtime), (9, FILE, 5));
            local_path
        }
        Target::Directory { .. } => panic!("a file"),
    }
}

#[test]
fn directories_follow_the_trailing_slash() {
    assert_eq!(local_base("/srv/foo", "out", true), "out/foo");
    assert_eq!(local_base("/srv/foo", "out/", false), "out/foo");
    assert_eq!(local_base("/srv/foo", "out", false), "out");
    assert_eq!(local_base("/srv/foo/", "out", true), "out");
    assert_eq!(local_base("/srv/foo/", "out/", false), "out/");
    assert_eq!(local_base("..", "out", true), "out/download");
}

#[test]
fn files_go_into_directories_or_take_their_name() {
    assert_eq!(local_file("/srv/a.txt", "out", true), "out/a.txt");
    assert_eq!(local_file("/srv/a.txt", "out/", false), "out/a.txt");
    assert_eq!(local_file("/srv/a.txt", "b.txt", false), "b.txt");
}

#[test]
fn answers_that_are_no_use_are_failures() {
    let fail = |r: Result<Response, StrawsError>| {
        schedule_download_path("/p", "out", false, r).unwrap_err().message()
    };
    assert_eq!(
        fail(Ok(reply(ResponseStatus::Error, b"File not found: /p".to_vec()))),
        "File not found: /p"
    );
    assert_eq!(
        fail(Ok(reply(ResponseStatus::Error, b"Permission denied: /p".to_vec()))),
        "Remote error: Permission denied: /p"
    );
    assert_eq!(
        fail(Ok(reply(ResponseStatus::Success, vec![0; 19]))),
        "Protocol error: Stat response too short: 19 bytes"
    );
    assert_eq!(fail(Err(StrawsError::Aborted)), "Operation aborted");
    assert!(matches!(refusal("/p", "really not found"), StrawsError::NotFound(p) if p == "/p"));
    assert!(matches!(refusal("/p", "lost"), StrawsError::Remote(m) if m == "lost"));
}

#[test]
fn trees_keep_their_shape() {
    assert_eq!(local_path_for("/srv/foo/a/b.txt", "/srv/foo", "out/foo"), "out/foo/a/b.txt");
    assert_eq!(local_path_for("/srv/foo/a/b.txt", "/srv/foo/", "out"), "out/a/b.txt");
    assert_eq!(local_path_for("other/x", "/srv", "out"), "out/other/x");
    assert_eq!(local_path_for("/other/x", "/srv", "out"), "/other/x");

    assert_eq!(upload_entry_path("dir/sub", "dir", "/up//"), "/up/sub");
    assert_eq!(upload_entry_path("dir/sub/f", "dir/sub", "/up/sub"), "/up/sub/f");
    assert_eq!(upload_entry_path("/else/f", "dir", "up"), "up/f");
}

#[test]
fn uploads_follow_the_trailing_slash() {
    assert_eq!(upload_path("dir/a.txt", "/up/"), "/up/a.txt");
    assert_eq!(upload_path("dir/a.txt", "/up"), "/up");
    assert_eq!(upload_path("..", "/up/"), "/up/upload");
    assert_eq!(upload_base("dir", "/up/"), "/up/dir");
    assert_eq!(upload_base("dir", "/up"), "/up");
    assert_eq!(upload_base("dir/", "/up/"), "/up/");
}

#[test]
fn several_remote_paths_are_found_again() {
    let s = scheduler(config("/a\0/b c\0d"), 5);
    assert_eq!(s.download_paths(), ["/a", "/b c", "d"]);
    assert!(s.needs_directory());
    let s = scheduler(config("/a"), 5);
    assert_eq!(s.download_paths(), ["/a"]);
    assert!(!s.needs_directory());
    assert!(scheduler(config("/a*"), 5).needs_directory());
}

#[test]
fn a_large_file_is_cut() {
    let mut s = scheduler(config("/f"), 10);
    s.create_download_jobs("/f", "f", stat(250, FILE), &None, None, &None, 4);
    assert_eq!((s.total_bytes(), s.total_files(), s.jobs_scheduled()), (250, 1, 3));
    let ranges: Vec<(u64, u64, Option<u32>)> =
        s.jobs.iter().map(|j| (j.offset, j.length, j.chunk_index)).collect();
    assert_eq!(ranges, [(0, 100, Some(0)), (100, 100, Some(1)), (200, 50, Some(2))]);
    assert_eq!(s.files[0].total_chunks, 3);
    assert!(s.jobs.iter().all(|j| j.direction == Direction::Download && j.file == 0));
}

#[test]
fn the_ranges_of_jobs_cover_the_file_once() {
    for size in [101u64, 199, 200, 201, 1000] {
        let mut s = scheduler(config("/f"), 10);
        s.create_upload_jobs("/f", "f", stat(size, FILE), &None, None, &None, 2);
        let mut hits = vec![0; size as usize];
        for j in &s.jobs {
            for p in j.offset..j.offset + j.length {
                hits[p as usize] += 1;
            }
        }
        assert!(hits.iter().all(|h| *h == 1), "{}", size);
        assert!(s.jobs.iter().all(|j| j.direction == Direction::Upload));
    }
}

#[test]
fn a_small_file_or_a_single_agent_makes_one_job() {
    let mut s = scheduler(config("/f"), 10);
    s.create_download_jobs("/f", "f", stat(100, FILE), &None, None, &None, 4);
    s.create_download_jobs("/g", "g", stat(5000, FILE), &None, None, &None, 1);
    s.create_download_jobs("/h", "h", stat(0, FILE), &None, None, &None, 4);
    let jobs: Vec<(u64, usize, u64)> = s.jobs.iter().map(|j| (j.id, j.file, j.length)).collect();
    assert_eq!(jobs, [(0, 0, 100), (1, 1, 5000), (2, 2, 0)]);
    assert!(s.jobs.iter().all(|j| j.chunk_index.is_none()));
}

#[test]
fn a_file_with_too_many_chunks_makes_one_job() {
    let mut c = config("/f");
    c.chunk_size = 1;
    let mut s = scheduler(c, 5);
    let size = 0x1_0000_0003;
    s.create_download_jobs("/f", "f", stat(size, FILE), &None, None, &None, 4);
    assert_eq!(s.jobs.len(), 1);
    assert_eq!((s.jobs[0].offset, s.jobs[0].length), (0, size));
    assert_eq!(s.jobs[0].chunk_index, None);
    assert_eq!(s.files[0].total_chunks, 1);
}

#[test]
fn files_that_are_there_are_skipped() {
    let a = Some("aa".to_string());
    let b = Some("bb".to_string());
    let empty = Some(String::new());
    let run = |force: bool, verify: bool, len: Option<u64>, local: &Option<String>, remote: &Option<String>| {
        let mut c = config("/f");
        c.force = force;
        c.verify = verify;
        let mut down = scheduler(c.clone(), 5);
        down.create_download_jobs("/f", "f", stat(9, FILE), remote, len, local, 4);
        let mut up = scheduler(c, 5);
        up.create_upload_jobs("/f", "f", stat(9, FILE), local, len, remote, 4);
        assert_eq!(down.files_skipped() + down.total_files(), 1);
        assert_eq!(up.files_skipped() + up.total_files(), 1);
        (down.files_skipped() == 1, up.files_skipped() == 1)
    };
    assert_eq!(run(false, false, Some(9), &None, &None), (true, true));
    assert_eq!(run(true, false, Some(9), &None, &None), (false, false));
    assert_eq!(run(false, false, Some(8), &None, &None), (false, false));
    assert_eq!(run(false, false, None, &None, &None), (false, false));
    assert_eq!(run(false, true, Some(9), &a, &a), (true, true));
    assert_eq!(run(false, true, Some(9), &a, &b), (false, false));
    assert_eq!(run(false, true, Some(9), &empty, &empty), (false, false));
    // Without a remote digest a download goes by the size, and an upload goes over.
    assert_eq!(run(false, true, Some(9), &a, &None), (true, false));
}

#[test]
fn sizes_decide_what_is_looked_at_next() {
    let mut c = config("/f");
    c.verify = true;
    let s = scheduler(c, 1);
    assert_eq!(s.download_presence(Some(3), 3, true), Presence::Compare);
    assert_eq!(s.download_presence(Some(3), 3, false), Presence::Skip);
    assert_eq!(s.download_presence(None, 3, true), Presence::Transfer);
    assert_eq!(s.upload_presence(Some(3), 3), Presence::Compare);
    assert_eq!(s.upload_presence(Some(4), 3), Presence::Transfer);
}

#[test]
fn answers_about_remote_files_are_read() {
    assert_eq!(remote_size(&Some(stat_reply(77, FILE))), Some(77));
    assert_eq!(remote_size(&Some(reply(ResponseStatus::Success, vec![1]))), None);
    assert_eq!(remote_size(&Some(reply(ResponseStatus::Error, vec![0; 20]))), None);
    assert_eq!(remote_size(&None), None);
    let digest = reply(ResponseStatus::Success, b"abc\xf0".to_vec());
    assert_eq!(remote_digest(&Some(digest)), Some("abc\u{fffd}".to_string()));
    assert_eq!(remote_digest(&Some(reply(ResponseStatus::Error, b"x".to_vec()))), None);
    assert_eq!(remote_digest(&None), None);
}

#[test]
fn jobs_come_out_in_order_however_small_the_queue() {
    let mut s = scheduler(config("/f"), 2);
    s.create_download_jobs("/f", "f", stat(450, FILE), &None, None, &None, 4);
    s.create_download_jobs("/g", "g", stat(5, FILE), &None, None, &None, 4);
    assert!(!s.is_drained());
    s.fill();
    assert_eq!(s.queue.len(), 2);
    let mut out = Vec::new();
    while let Some(id) = s.take_job() {
        out.push(id);
    }
    assert_eq!(out, [0, 1, 2, 3, 4, 5]);
    assert!(s.is_drained());
    assert!(s.requeue(3));
    assert_eq!(s.take_job(), Some(3));
}

#[test]
fn found_files_are_counted() {
    let mut s = scheduler(config("/f"), 2);
    s.count_found();
    s.count_found();
    assert_eq!(s.files_found(), 2);
}

#[test]
fn digests_are_asked_for_where_they_matter() {
    assert!(wants_other_digest(&Some("a".to_string())));
    assert!(!wants_other_digest(&Some(String::new())));
    assert!(!wants_other_digest(&None));
    let mut c = config("/f");
    assert!(scheduler(c.clone(), 1).checks_presence());
    c.force = true;
    assert!(!scheduler(c, 1).checks_presence());
}

#[test]
fn sizes_that_cannot_be_added_up_are_known() {
    let s = scheduler(config("/f"), 1);
    assert!(s.can_cut(u64::MAX - 99, 4));
    assert!(!s.can_cut(u64::MAX - 98, 4));
    assert!(s.can_cut(u64::MAX, 1));
    assert!(s.can_cut(5, 4));
}
