use straws::agent::pool::{AgentPool, StartEvent};
use straws::config::{Config, Direction, RemoteSpec};
use straws::progress::display::{
    truncate, truncate_middle, visible_len, Draw, Gauges, ProgressDisplay, Timings, Tint,
};
use straws::progress::ratio;
use straws::progress::speed::{format_bytes, format_duration, SpeedTracker};
use straws::progress::tracker::ProgressTracker;

const MS: u64 = 1_000_000;

#[test]
fn test_truncate_ascii() {
    assert_eq!(truncate("hello", 10), "hello");
    assert_eq!(truncate("hello world", 8), "hello...");
    assert_eq!(truncate("ab", 2), "ab");
    assert_eq!(truncate("abcd", 3), "abc");
}

#[test]
fn test_truncate_unicode() {
    // Multi-byte characters should not panic
    assert_eq!(truncate("日本語テスト", 10), "日本語テスト");
    assert_eq!(truncate("日本語テスト", 5), "日本...");
    assert_eq!(truncate("日本語テスト.txt", 6), "日本語...");

    // Emoji (4-byte chars)
    assert_eq!(truncate("🎉🎊🎈test", 5), "🎉🎊...");

    // Mixed ASCII and multi-byte
    assert_eq!(truncate("café_naïve_test", 10), "café_na...");
}

#[test]
fn test_truncate_edge_cases() {
    assert_eq!(truncate("", 5), "");
    assert_eq!(truncate("a", 1), "a");
    assert_eq!(truncate("ab", 1), "a");
    assert_eq!(truncate("abcdef", 0), "");
}

#[test]
fn test_format_bytes() {
    assert_eq!(format_bytes(500), "500 B");
    assert_eq!(format_bytes(1500), "1.5 KB");
    assert_eq!(format_bytes(1_500_000), "1.5 MB");
    assert_eq!(format_bytes(1_500_000_000), "1.5 GB");
}

#[test]
fn test_format_duration() {
    assert_eq!(format_duration(30), "30s");
    assert_eq!(format_duration(90), "1m30s");
    assert_eq!(format_duration(3700), "1h1m");
}

fn by_float(bytes: u64) -> String {
    if bytes >= 1_000_000_000 {
        format!("{:.1} GB", bytes as f64 / 1_000_000_000.0)
    } else if bytes >= 1_000_000 {
        format!("{:.1} MB", bytes as f64 / 1_000_000.0)
    } else if bytes >= 1_000 {
        format!("{:.1} KB", bytes as f64 / 1_000.0)
    } else {
        format!("{} B", bytes)
    }
}

#[test]
fn sizes_are_rounded_as_floats_are() {
    for bytes in (0..20_000u64).chain((0..2000).map(|i| 1_000_000 + i * 12_500)) {
        assert_eq!(format_bytes(bytes), by_float(bytes));
    }
    let mut x = 88172645463325252u64;
    for _ in 0..20_000 {
        x ^= x << 13;
        x ^= x >> 7;
        x ^= x << 17;
        let bytes = x >> (x % 60);
        assert_eq!(format_bytes(bytes), by_float(bytes), "{}", bytes);
    }
    for bytes in [u64::MAX, u64::MAX - 1024, 1 << 53, (1 << 53) + 1, (1 << 63) + 1025, 999, 1000, 999_999] {
        assert_eq!(format_bytes(bytes), by_float(bytes), "{}", bytes);
    }
}

#[test]
fn quotients_are_rounded_as_floats_are() {
    let mut x = 1234567u64;
    for _ in 0..20_000 {
        x ^= x << 13;
        x ^= x >> 7;
        x ^= x << 17;
        let n = x >> (x % 63);
        let d = (x.rotate_left(20) >> (x % 61)).max(1);
        let want = (n as f64 / d as f64) as u128;
        let whole_n = ratio::whole(n as u128, 1);
        let whole_d = ratio::whole(d as u128, 1);
        assert_eq!(whole_n, n as f64 as u128);
        assert_eq!(ratio::whole(whole_n, whole_d), want, "{} {}", n, d);
    }
    assert_eq!(ratio::tenths(1250, 1000), 12);
    assert_eq!(ratio::tenths(1150, 1000), 11);
    assert_eq!(ratio::tenths(1050, 1000), 11);
    assert_eq!(ratio::tenths(42_000, 1000), 420);
}

#[test]
fn texts_are_cut_in_the_middle() {
    assert_eq!(truncate_middle("abcdefghij", 10), "abcdefghij");
    assert_eq!(truncate_middle("abcdefghij", 8), "abc...ij");
    assert_eq!(truncate_middle("abcdefghij", 7), "ab...ij");
    assert_eq!(truncate_middle("abcdefghij", 4), "a...");
    assert_eq!(truncate_middle("abcdefghij", 3), "abc");
    assert_eq!(truncate_middle("日本語テスト", 5), "日...ト");
}

#[test]
fn codes_are_not_seen() {
    assert_eq!(visible_len(""), 0);
    assert_eq!(visible_len("日本"), 2);
    assert_eq!(visible_len("\x1b[31mred\x1b[0m"), 3);
    assert_eq!(visible_len("a\x1b[38;2;1;2;3mb\x1b[2Kc"), 3);
    assert_eq!(visible_len("\x1b]0;title\x07x\x1b]0;t\x1b\\y"), 2);
    assert_eq!(visible_len("\x1b(Bz\x1bc"), 1);
    assert_eq!(visible_len("\x1b[3日"), 1);
    assert_eq!(visible_len("[31m"), 4);
}

#[test]
fn times_have_their_units() {
    assert_eq!(format_duration(0), "0s");
    assert_eq!(format_duration(59), "59s");
    assert_eq!(format_duration(60), "1m0s");
    assert_eq!(format_duration(3599), "59m59s");
    assert_eq!(format_duration(3600), "1h0m");
    assert_eq!(format_duration(90_000), "25h0m");
}

#[test]
fn speed_is_what_came_in_a_second() {
    let mut s = SpeedTracker::new(0);
    s.add_bytes(100, 0);
    s.add_bytes(10, 49 * MS);
    assert_eq!(s.speed_bps(49 * MS), 110);
    s.add_bytes(5, 500 * MS);
    assert_eq!(s.speed_bps(900 * MS), 115);
    assert_eq!(s.speed_bps(1000 * MS), 5);
    assert_eq!(s.speed_bps(2500 * MS), 0);
    assert_eq!(s.total_bytes(), 115);
}

#[test]
fn the_clock_moves_on_by_whole_buckets() {
    let mut s = SpeedTracker::new(0);
    s.add_bytes(1, 30 * MS);
    assert_eq!(s.last_update, 0);
    s.add_bytes(1, 60 * MS);
    assert_eq!(s.last_update, 50 * MS);
    s.add_bytes(1, 40 * MS);
    assert_eq!(s.last_update, 50 * MS);
    assert_eq!(s.speed_bps(99 * MS), 3);
    assert_eq!(s.speed_bps(1234 * MS), 0);
    assert_eq!(s.last_update, 1200 * MS);
}

#[test]
fn old_bytes_are_forgotten_however_often_the_speed_is_asked_for() {
    let mut s = SpeedTracker::new(0);
    s.add_bytes(1, 0);
    for i in 1..=10 {
        assert_eq!(s.speed_bps(i * 99 * MS), 1);
    }
    assert_eq!(s.speed_bps(11 * 99 * MS), 0);
    assert_eq!(s.speed_bps(1386 * MS), 0);
    assert_eq!(s.total_bytes(), 1);
}

#[test]
fn the_speed_is_the_sum_of_the_last_buckets() {
    let start = 17 * MS;
    let mut s = SpeedTracker::new(start);
    let mut calls: Vec<(u64, u64)> = Vec::new();
    let mut now = start;
    for i in 0..400u64 {
        now += (i * 37 % 91) * MS / 2 + if i % 50 == 49 { 1300 * MS } else { 0 };
        s.add_bytes(i + 1, now);
        calls.push((i + 1, now));
        let slot = |t: u64| (t - start) / (50 * MS);
        let want: u64 = calls
            .iter()
            .filter(|(_, t)| slot(now) - slot(*t) < 20)
            .map(|(n, _)| n)
            .sum();
        assert_eq!(s.speed_bps(now), want);
    }
}

#[test]
fn a_tracker_counts() {
    let mut t = ProgressTracker::new(2, 5);
    t.set_totals(1000, 3);
    t.set_verify_enabled(true);
    t.set_descriptions("from", "to");
    t.add_bytes(400, 10);
    t.set_files_skipped(4);
    t.file_skipped();
    assert!(t.verify_enabled());
    assert_eq!((t.total_bytes(), t.bytes_transferred(), t.total_files()), (1000, 400, 3));
    assert_eq!(t.files_skipped(), 5);
    assert_eq!((t.source_desc().as_str(), t.dest_desc().as_str()), ("from", "to"));
    assert_eq!(t.speed_bps(20), 400);
    assert_eq!(t.eta_secs(20), Some(1));
    assert_eq!(t.elapsed_secs(3_500_000_005), 3);
    assert_eq!(t.eta_secs(5_000 * MS), None);
    t.set_totals(300, 3);
    t.add_bytes(1, 5_000 * MS);
    assert_eq!(t.eta_secs(5_000 * MS), Some(0));
}

#[test]
fn only_the_last_events_are_remembered() {
    let mut t = ProgressTracker::new(0, 0);
    for i in 0..8 {
        t.log_event(&format!("e{}", i), i % 2 == 0);
        t.file_completed(&format!("f{}", i), None, None, 0, 0);
    }
    let events: Vec<&str> = t.log_events().iter().map(|e| e.message.as_str()).collect();
    assert_eq!(events, ["e3", "e4", "e5", "e6", "e7"]);
    assert!(t.log_events()[1].is_error);
    let files: Vec<&str> = t.recent_files().iter().map(|f| f.name.as_str()).collect();
    assert_eq!(files, ["f3", "f4", "f5", "f6", "f7"]);
    assert_eq!(t.files_completed(), 8);
}

#[test]
fn failures_are_all_kept() {
    let mut t = ProgressTracker::new(0, 0);
    for i in 0..7 {
        t.file_failed("r", "l", "why", i);
    }
    assert_eq!(t.files_failed(), 7);
    assert_eq!(t.failed_files().len(), 7);
    assert_eq!(t.failed_files()[6].retries, 6);
}

#[test]
fn agents_say_what_they_do() {
    let mut t = ProgressTracker::new(2, 0);
    t.set_agent_job(1, Some("x".to_string()));
    t.set_agent_job(9, Some("y".to_string()));
    assert_eq!(t.agent_jobs(), &vec![None, Some("x".to_string())]);
    t.set_agent_job(1, None);
    assert_eq!(t.agent_jobs(), &vec![None, None]);
}

#[test]
fn phases_are_timed() {
    let mut t = ProgressTracker::new(0, 100);
    t.mark_connected(150);
    t.mark_indexed(180);
    assert_eq!(t.current_phase_elapsed(200), 20);
    t.mark_transfer_complete(1180);
    let p = t.phase_timing();
    assert_eq!((p.connect, p.index, p.transfer), (50, 30, 1000));
}

fn text_of(frame: &[Draw]) -> String {
    frame
        .iter()
        .map(|d| match d {
            Draw::Print(s) => s.as_str(),
            _ => "",
        })
        .collect()
}

fn pool(tunnels: usize) -> AgentPool {
    let c = Config {
        direction: Direction::Download,
        remote: RemoteSpec { user: None, host: "h".to_string(), path: "p".to_string() },
        local_paths: vec!["out".to_string()],
        tunnels,
        port: 22,
        identity: None,
        password: None,
        compress: false,
        chunk_size: 1,
        verify: false,
        force: false,
        no_progress: false,
        debug_log: None,
        verbose: false,
    };
    AgentPool::new(c, 0)
}

fn gauges(filled: usize, eta: Option<u64>) -> Gauges {
    Gauges {
        filled,
        percent: " 50.0".to_string(),
        speed: "1.0 MB/s".to_string(),
        elapsed: "5s".to_string(),
        eta,
    }
}

#[test]
fn a_frame_shows_everything() {
    let mut t = ProgressTracker::new(3, 0);
    t.set_totals(2000, 4);
    t.set_descriptions("me@box:/data", "out");
    t.add_bytes(1000, 0);
    t.set_agent_job(1, Some("[1/2] a very long file name that does not fit.bin".to_string()));
    t.log_event("Retrying x: y", false);
    t.log_event("Failed x: y", true);
    t.file_completed("done.txt", Some("aa".to_string()), Some("aa".to_string()), 0o100644, 9);
    t.file_failed("/r", "l", "e", 0);
    let mut p = pool(3);
    p.started(0, StartEvent::Answered).unwrap();
    assert_eq!(p.acquire(), Some(0));
    assert!(p.started(2, StartEvent::NoStdin).is_err());
    let d = ProgressDisplay::new(false);
    let frame = d.render(&t, &p, 70, &gauges(20, Some(61)));
    assert!(matches!(frame[0], Draw::Home));
    assert!(matches!(frame[1], Draw::Clear));
    let bar = format!("{}{}", "█".repeat(20), "░".repeat(20));
    let want = format!(
        "\n  · me@box:/data\n  → out\n\n  {}  50.0%\n\n  Progress: 1.0 KB / 2.0 KB\n  Speed   : 1.0 MB/s\n  Elapsed : 5s\n  ETA     : 1m1s\n  Files   : 1 / 4 (1 failed)\n\n  Agents:\n    {:<32}{:<32}\n    {:<32}\n\n  Log:\n    Failed x: y\n    Retrying x: y\n\n  Recent:\n    ✓ done.txt ✓\n",
        bar,
        "●00:-",
        "○01:[1/2] a very long file n...",
        "✕02:-",
    );
    assert_eq!(text_of(&frame), want);
}

#[test]
fn a_frame_without_news_is_short() {
    let t = ProgressTracker::new(1, 0);
    let d = ProgressDisplay::new(true);
    let frame = d.render_final(&t, &pool(1), 10, &gauges(45, None));
    let text = text_of(&frame);
    assert!(text.starts_with("\n  █"));
    assert!(!text.contains('░'));
    assert!(text.contains("ETA     : --:--"));
    assert!(!text.contains("Log:") && !text.contains("Recent:") && !text.contains("failed"));
}

#[test]
fn verbose_frames_show_digests_and_modes() {
    let mut t = ProgressTracker::new(0, 0);
    t.file_completed("a", Some("x".to_string()), Some("x".to_string()), 0o100644, 9);
    t.file_completed("b", None, None, 0o7, 8);
    let frame = ProgressDisplay::new(true).render(&t, &pool(0), 200, &gauges(0, None));
    let text = text_of(&frame);
    assert!(text.contains("✓ a (x = x) mode=0644 mtime=9\n"));
    assert!(text.contains("✓ b mode=0007 mtime=8\n"));
}

fn timings() -> Timings {
    Timings {
        speed: "2 B/s".to_string(),
        total: "T".to_string(),
        connect: "C".to_string(),
        index: "I".to_string(),
        transfer: "X".to_string(),
    }
}

#[test]
fn the_summary_counts() {
    let mut t = ProgressTracker::new(0, 0);
    t.add_bytes(1500, 0);
    t.file_completed("a", None, None, 0, 0);
    t.file_completed("b", None, None, 0, 0);
    t.set_files_skipped(3);
    let s = ProgressDisplay::new(false).print_summary(&t, &timings());
    assert!(matches!(s[0], Draw::ShowCursor));
    assert_eq!(
        text_of(&s),
        "\n\n✓ Transfer complete: 1.5 KB\n  Average speed: 2 B/s\n  Timing: T (connect: C, index: I, transfer: X)\n  Files: 2\n  Skipped (already complete): 3\n\n"
    );
    assert!(s.iter().any(|d| matches!(d, Draw::Color(Tint::Cyan))));
}

#[test]
fn the_summary_lists_failures_up_to_a_limit() {
    let mut t = ProgressTracker::new(0, 0);
    for i in 0..22 {
        t.file_failed(&format!("/r{}", i), "l", &format!("why{}", i), 3);
    }
    let text = text_of(&ProgressDisplay::new(false).print_summary(&t, &timings()));
    assert!(text.contains("Failed: 22\n\n  Failed files:\n    ✗ /r0\n      why0\n"));
    assert!(text.contains("✗ /r19\n      why19\n    ... and 2 more\n"));
    assert!(!text.contains("/r20"));
    assert!(!text.contains("Files: "));
}

#[test]
fn the_display_runs_and_stops() {
    let mut d = ProgressDisplay::new(false);
    assert!(!d.is_running());
    d.start();
    assert!(d.is_running());
    d.stop();
    assert!(!d.is_running());
}

#[test]
fn cut_texts_fit() {
    for n in 0..12 {
        for max in 0..12 {
            let s = "é".repeat(n);
            assert_eq!(truncate(&s, max).chars().count(), n.min(max));
            assert_eq!(truncate_middle(&s, max).chars().count(), n.min(max));
        }
    }
}
