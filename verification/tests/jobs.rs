use straws::job::chunks::{count_chunks, is_large, should_chunk};
use straws::job::types::{name_or, Prealloc};
use straws::job::{Direction, FileMeta, Job, JobQueue, JobResult};

fn meta(local: &str, size: u64, chunks: u32) -> FileMeta {
    FileMeta::new("/r/f".to_string(), local.to_string(), size, 0o644, 7, chunks)
}

#[test]
fn a_queue_is_first_in_first_out_and_bounded() {
    let mut q = JobQueue::with_capacity(2);
    assert!(q.is_empty());
    assert_eq!(q.try_pop(), None);
    assert!(q.push(5));
    assert!(q.try_push(6));
    assert!(!q.try_push(7));
    assert_eq!(q.len(), 2);
    assert_eq!(q.pop(), Some(5));
    assert!(q.try_push(8));
    assert_eq!(q.try_pop(), Some(6));
    assert_eq!(q.try_pop(), Some(8));
    assert_eq!(q.try_pop(), None);
    assert!(q.is_empty());
}

#[test]
fn the_usual_queue_holds_ten_thousand() {
    let mut q = JobQueue::default();
    let mut n = 0u64;
    while q.try_push(n) {
        n += 1;
    }
    assert_eq!(n, 10_000);
    assert_eq!(JobQueue::new().len(), 0);
}

#[test]
fn a_queue_without_room_takes_nothing() {
    let mut q = JobQueue::with_capacity(0);
    assert!(!q.try_push(1));
    assert_eq!(q.try_pop(), None);
    assert_eq!(q.len(), 0);
}

#[test]
fn temporary_files_stand_beside_the_file() {
    assert_eq!(meta("dir/a.txt", 1, 1).temp_path(), "dir/a.txt.straws.tmp");
    assert_eq!(meta("a", 1, 1).temp_path(), "a.straws.tmp");
    assert_eq!(meta("/x/y/", 1, 1).temp_path(), "/x/y.straws.tmp");
    assert_eq!(meta("..", 1, 1).temp_path(), "../.straws.tmp");
    assert_eq!(meta("/", 1, 1).temp_path(), "/.straws.tmp");
}

#[test]
fn a_file_is_complete_when_all_chunks_are() {
    let mut m = meta("f", 10, 3);
    for i in [2, 0, 7] {
        m.mark_chunk_complete(i);
        assert!(!m.is_complete());
    }
    m.mark_chunk_complete(1);
    assert!(m.is_complete());
    assert!(meta("f", 0, 0).is_complete());
}

#[test]
fn bytes_are_counted() {
    let mut m = meta("f", 10, 1);
    m.add_bytes(5);
    m.add_bytes(u64::MAX);
    assert_eq!(m.bytes_transferred, 4);
}

#[test]
fn the_first_layout_counts() {
    let mut m = meta("f", 10, 1);
    assert!(!m.prealloc_attempted());
    assert_eq!(m.prealloc_len(), Some(10));
    assert_eq!(meta("f", 0, 1).prealloc_len(), None);
    assert_eq!(
        m.ensure_preallocated(Prealloc::NoSpace("full".to_string())),
        Err("Failed to preallocate: full".to_string())
    );
    assert!(m.prealloc_attempted());
    assert_eq!(
        m.ensure_preallocated(Prealloc::Done),
        Err("Failed to preallocate: full".to_string())
    );
    assert_eq!(
        meta("f", 1, 1).ensure_preallocated(Prealloc::NoDirectory("d".to_string())),
        Err("Failed to create directory: d".to_string())
    );
    assert_eq!(
        meta("f", 1, 1).ensure_preallocated(Prealloc::NoFile("d".to_string())),
        Err("Failed to create temp file: d".to_string())
    );
    assert_eq!(meta("f", 1, 1).ensure_preallocated(Prealloc::Done), Ok(()));
}

#[test]
fn the_first_truncation_and_finalization_count() {
    let mut m = meta("f", 10, 1);
    assert!(!m.truncate_attempted());
    assert_eq!(m.store_truncate_result(Err("no".to_string())), Err("no".to_string()));
    assert!(m.truncate_attempted());
    assert_eq!(m.store_truncate_result(Ok(())), Err("no".to_string()));

    assert!(!m.finalize_attempted());
    assert_eq!(m.ensure_finalized(|| Ok(())), Ok(()));
    assert!(m.finalize_attempted());
    assert_eq!(m.ensure_finalized(|| panic!("runs once")), Ok(()));
    assert_eq!(m.store_finalize_result(Err("late".to_string())), Ok(()));
}

#[test]
fn jobs_are_described() {
    let m = meta("dir/f.bin", 100, 12);
    let job = Job::chunk(3, 0, Direction::Upload, 4, 40, 10, true);
    assert_eq!(job.description(&m), "[05/12] f.bin");
    let last = Job::chunk(3, 0, Direction::Upload, 11, 40, 10, true);
    assert_eq!(last.description(&m), "[12/12] f.bin");
    let whole = Job::whole_file(9, 2, &m, Direction::Download, false);
    assert_eq!(whole.description(&m), "f.bin");
    assert_eq!((whole.id, whole.file, whole.offset, whole.length), (9, 2, 0, 100));
    assert_eq!(whole.chunk_index, None);
    assert_eq!(whole.description(&meta("/", 1, 1)), "unknown");
    assert_eq!(name_or("a/b", "x"), "b");
    assert_eq!(name_or("..", "x"), "x");
}

#[test]
fn failures_of_a_job_are_counted() {
    let mut job = Job::new(1, 0, Direction::Download, 0, 5, None, false);
    assert_eq!(job.retries(), 0);
    assert_eq!(job.increment_retry(), 1);
    assert_eq!(job.increment_retry(), 2);
    assert_eq!(job.retries(), 2);
}

#[test]
fn results_say_what_happened() {
    let ok = JobResult::success(4, 99, Some("md5".to_string()));
    assert!(ok.success && ok.error.is_none());
    assert_eq!((ok.job_id, ok.bytes_transferred, ok.md5.as_deref()), (4, 99, Some("md5")));
    let bad = JobResult::failure(5, "no".to_string());
    assert!(!bad.success && bad.md5.is_none());
    assert_eq!((bad.job_id, bad.bytes_transferred, bad.error.as_deref()), (5, 0, Some("no")));
}

#[test]
fn chunks_are_counted() {
    assert!(should_chunk(11, 10, 2));
    assert!(!should_chunk(10, 10, 2));
    assert!(!should_chunk(11, 10, 1));
    assert!(should_chunk(0xffff_ffff, 1, 2));
    assert!(!should_chunk(0x1_0000_0000, 1, 2));
    assert!(should_chunk(10 * 0xffff_ffff, 10, 2));
    assert!(!should_chunk(10 * 0xffff_ffff + 1, 10, 2));
    assert!(should_chunk(u64::MAX, u64::MAX - 1, 2));
    assert!(is_large(0x1_0000_0000, 1, 2));
    assert_eq!(count_chunks(11, 10), 2);
    assert_eq!(count_chunks(20, 10), 2);
    assert_eq!(count_chunks(21, 10), 3);
    assert_eq!(count_chunks(0x1_0000_0003, 1), 3);
}
