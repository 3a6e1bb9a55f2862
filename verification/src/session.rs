//! The course of a transfer: what the user is told along the way, and how it ends.

use vstd::prelude::*;

use crate::config;
use crate::config::Config;
use crate::error::{ErrorView, StrawsError};
use crate::text;

verus! {

/// What is shown while agents are started.
pub fn connecting_line(connected: usize, total: usize) -> (r: String)
    ensures
        r@ == "\rConnecting... "@ + text::decimal_text(connected as nat) + "/"@
            + text::decimal_text(total as nat) + " tunnels"@,
{
    text::cat5(
        "\rConnecting... ",
        text::decimal(connected as u64).as_str(),
        "/",
        text::decimal(total as u64).as_str(),
        " tunnels",
    )
}

/// What is shown once all agents were started.
pub open spec fn connected_text(healthy: nat, total: nat) -> Seq<char> {
    if healthy == 0 {
        "\rConnecting... failed                    "@
    } else {
        "\rConnecting... "@ + text::decimal_text(healthy) + "/"@ + text::decimal_text(total)
            + " tunnels ready       "@
    }
}

/// What is shown once all agents were started, and whether the transfer goes on.
pub fn connected(healthy: usize, total: usize) -> (r: (String, Result<(), StrawsError>))
    ensures
        r.0@ == connected_text(healthy as nat, total as nat),
        match r.1 {
            Ok(_) => healthy > 0,
            Err(e) => healthy == 0 && e@ == ErrorView::AllAgentsUnhealthy,
        },
{
    if healthy == 0 {
        (
            "\rConnecting... failed                    ".to_owned(),
            Err(StrawsError::AllAgentsUnhealthy),
        )
    } else {
        (
            text::cat5(
                "\rConnecting... ",
                text::decimal(healthy as u64).as_str(),
                "/",
                text::decimal(total as u64).as_str(),
                " tunnels ready       ",
            ),
            Ok(()),
        )
    }
}

/// What stands behind the word `Scanning`.
pub open spec fn verify_note(verify: bool) -> Seq<char> {
    if verify {
        " (with verification)"@
    } else {
        ""@
    }
}

fn note_of(verify: bool) -> (r: String)
    ensures
        r@ == verify_note(verify),
{
    if verify {
        " (with verification)".to_owned()
    } else {
        "".to_owned()
    }
}

/// What is shown while files are looked for.
pub open spec fn scanning_text(verify: bool, files: u64, jobs: u64) -> Seq<char> {
    "\rScanning"@ + verify_note(verify) + ": "@ + text::decimal_text(files as nat) + (if jobs > 0 {
        " files found, "@ + text::decimal_text(jobs as nat) + " jobs scheduled"@
    } else {
        " files found"@
    })
}

/// What is shown while files are looked for.
pub fn scanning_line(verify: bool, files: u64, jobs: u64) -> (r: String)
    ensures
        r@ == scanning_text(verify, files, jobs),
{
    let note = note_of(verify);
    let front = text::cat4("\rScanning", note.as_str(), ": ", text::decimal(files).as_str());
    if jobs > 0 {
        let back = text::cat3(" files found, ", text::decimal(jobs).as_str(), " jobs scheduled");
        text::cat(front.as_str(), back.as_str())
    } else {
        text::cat(front.as_str(), " files found")
    }
}

/// What is shown once all files were found: the jobs are counted where files were cut.
pub open spec fn scanned_text(verify: bool, files: u64, jobs: u64) -> Seq<char> {
    "\rScanning"@ + verify_note(verify) + ": "@ + text::decimal_text(files as nat) + (if jobs
        > files {
        " files, "@ + text::decimal_text(jobs as nat) + " jobs scheduled       "@
    } else {
        " files found       "@
    })
}

/// What is shown once all files were found.
pub fn scanned_line(verify: bool, files: u64, jobs: u64) -> (r: String)
    ensures
        r@ == scanned_text(verify, files, jobs),
{
    let note = note_of(verify);
    let front = text::cat4("\rScanning", note.as_str(), ": ", text::decimal(files).as_str());
    if jobs > files {
        let back = text::cat3(
            " files, ",
            text::decimal(jobs).as_str(),
            " jobs scheduled       ",
        );
        text::cat(front.as_str(), back.as_str())
    } else {
        text::cat(front.as_str(), " files found       ")
    }
}

/// What is said instead of a transfer when no file has to go over, if none has.
pub open spec fn idle_text(files: u64, skipped: u64) -> Option<Seq<char>> {
    if files > 0 {
        None
    } else if skipped > 0 {
        Some("No files to transfer ("@ + text::decimal_text(skipped as nat) + " already complete)"@)
    } else {
        Some("No files to transfer"@)
    }
}

/// What is said instead of a transfer when no file has to go over, if none has.
pub fn idle_line(files: u64, skipped: u64) -> (r: Option<String>)
    ensures
        r.deep_view() == idle_text(files, skipped),
{
    if files > 0 {
        None
    } else if skipped > 0 {
        Some(
            text::cat3(
                "No files to transfer (",
                text::decimal(skipped).as_str(),
                " already complete)",
            ),
        )
    } else {
        Some("No files to transfer".to_owned())
    }
}

/// What the display says of the two ends of a transfer: the remote end, and the first local path.
pub open spec fn descriptions(config: Config) -> (Seq<char>, Seq<char>) {
    (
        config::user_host_text(config.remote@) + ":"@ + config.remote.path@,
        if config.local_paths@.len() > 0 {
            config.local_paths@[0]@
        } else {
            "."@
        },
    )
}

/// What the display says of the two ends of a transfer.
pub fn describe(config: &Config) -> (r: (String, String))
    ensures
        (r.0@, r.1@) == descriptions(*config),
{
    let source = text::cat3(
        config.remote.user_host().as_str(),
        ":",
        config.remote.path.as_str(),
    );
    let dest: String = if config.local_paths.len() > 0 {
        config.local_paths[0].clone()
    } else {
        ".".to_owned()
    };
    (source, dest)
}

/// How a transfer ends: it fails as a whole if a file failed.
pub fn outcome(files_failed: u64) -> (r: Result<(), StrawsError>)
    ensures
        match r {
            Ok(_) => files_failed == 0,
            Err(e) => files_failed > 0 && e@ == ErrorView::TransferFailed(
                text::decimal_text(files_failed as nat) + " files failed"@,
            ),
        },
{
    if files_failed > 0 {
        Err(
            StrawsError::TransferFailed(
                text::cat(text::decimal(files_failed).as_str(), " files failed"),
            ),
        )
    } else {
        Ok(())
    }
}

// ---------------------------------------------------------------------------
// Laws
// ---------------------------------------------------------------------------

/// A transfer succeeds exactly if no file failed; it goes on after connecting exactly if an agent
/// can be used; and it does not begin exactly if no file has to go over.
pub proof fn lemma_course_of_a_transfer(
    failed: u64,
    end: Result<(), StrawsError>,
    healthy: usize,
    total: usize,
    start: (String, Result<(), StrawsError>),
    files: u64,
    skipped: u64,
    idle: Option<String>,
)
    requires
        call_ensures(outcome, (failed,), end),
        call_ensures(connected, (healthy, total), start),
        call_ensures(idle_line, (files, skipped), idle),
    ensures
        end is Ok <==> failed == 0,
        end is Err ==> end->Err_0@ is TransferFailed,
        start.1 is Ok <==> healthy > 0,
        start.1 is Err ==> start.1->Err_0@ == ErrorView::AllAgentsUnhealthy,
        idle is None <==> files > 0,
{
    assert(idle is None <==> idle.deep_view() is None);
}

/// How many files failed, how many agents are there and how many files were skipped is told.
pub proof fn lemma_counts_are_told(
    failed: u64,
    end: Result<(), StrawsError>,
    healthy: usize,
    total: usize,
    start: (String, Result<(), StrawsError>),
    skipped: u64,
    idle: Option<String>,
    connected_now: usize,
    line: String,
)
    requires
        call_ensures(outcome, (failed,), end),
        call_ensures(connected, (healthy, total), start),
        call_ensures(idle_line, (0, skipped), idle),
        call_ensures(connecting_line, (connected_now, total), line),
    ensures
        failed > 0 ==> end is Err && exists|n: Seq<char>|
            end->Err_0@ == ErrorView::TransferFailed(#[trigger] (n + " files failed"@))
                && text::digits_number(n, 10) == failed,
        healthy > 0 ==> exists|n: Seq<char>, m: Seq<char>, a: Seq<char>, b: Seq<char>|
            start.0@ == #[trigger] (a + n + "/"@ + m + b) && text::digits_number(n, 10) == healthy
                && text::digits_number(m, 10) == total,
        skipped > 0 ==> idle is Some && exists|n: Seq<char>, a: Seq<char>, b: Seq<char>|
            idle.unwrap()@ == #[trigger] (a + n + b) && text::digits_number(n, 10) == skipped
                && b == " already complete)"@,
        exists|n: Seq<char>, m: Seq<char>, a: Seq<char>, b: Seq<char>|
            line@ == #[trigger] (a + n + "/"@ + m + b) && text::digits_number(n, 10)
                == connected_now && text::digits_number(m, 10) == total,
{
    text::lemma_number_is_written(failed as nat, 10);
    text::lemma_number_is_written(healthy as nat, 10);
    text::lemma_number_is_written(total as nat, 10);
    text::lemma_number_is_written(skipped as nat, 10);
    text::lemma_number_is_written(connected_now as nat, 10);
    let m = text::decimal_text(total as nat);
    if failed > 0 {
        let n = text::decimal_text(failed as nat);
        assert(end->Err_0@ == ErrorView::TransferFailed(n + " files failed"@));
    }
    if healthy > 0 {
        let n = text::decimal_text(healthy as nat);
        assert(start.0@ == "\rConnecting... "@ + n + "/"@ + m + " tunnels ready       "@);
    }
    if skipped > 0 {
        let n = text::decimal_text(skipped as nat);
        assert(idle.deep_view() is Some);
        assert(idle.unwrap()@ == "No files to transfer ("@ + n + " already complete)"@);
    }
    let n = text::decimal_text(connected_now as nat);
    assert(line@ == "\rConnecting... "@ + n + "/"@ + m + " tunnels"@);
}

/// The two ends of a transfer are named as the user named them.
pub proof fn lemma_ends_are_named(config: &Config, r: (String, String))
    requires
        call_ensures(describe, (config,), r),
    ensures
        config.remote.user matches Some(u) ==> r.0@ == u@ + "@"@ + config.remote.host@ + ":"@
            + config.remote.path@,
        config.remote.user is None ==> r.0@ == config.remote.host@ + ":"@ + config.remote.path@,
        config.local_paths@.len() > 0 ==> r.1@ == config.local_paths@[0]@,
        config.local_paths@.len() == 0 ==> r.1@ == "."@,
{
}

/// What was found is told: how many files, and how many jobs they make, at the end only where that
/// is more than the files; and that digests are compared, where they are.
pub proof fn lemma_what_was_found_is_told(
    verify: bool,
    files: u64,
    jobs: u64,
    during: String,
    after: String,
)
    requires
        call_ensures(scanning_line, (verify, files, jobs), during),
        call_ensures(scanned_line, (verify, files, jobs), after),
    ensures
        exists|a: Seq<char>, n: Seq<char>, b: Seq<char>|
            {
                &&& during@ == #[trigger] (a + n + b)
                &&& a == "\rScanning"@ + (if verify {
                    " (with verification)"@
                } else {
                    ""@
                }) + ": "@
                &&& text::digits_number(n, 10) == files
                &&& jobs == 0 ==> b == " files found"@
                &&& jobs > 0 ==> exists|m: Seq<char>|
                    b == #[trigger] (" files found, "@ + m + " jobs scheduled"@)
                        && text::digits_number(m, 10) == jobs
            },
        exists|a: Seq<char>, n: Seq<char>, b: Seq<char>|
            {
                &&& after@ == #[trigger] (a + n + b)
                &&& a == "\rScanning"@ + (if verify {
                    " (with verification)"@
                } else {
                    ""@
                }) + ": "@
                &&& text::digits_number(n, 10) == files
                &&& jobs <= files ==> b == " files found       "@
                &&& jobs > files ==> exists|m: Seq<char>|
                    b == #[trigger] (" files, "@ + m + " jobs scheduled       "@)
                        && text::digits_number(m, 10) == jobs
            },
{
    text::lemma_number_is_written(files as nat, 10);
    text::lemma_number_is_written(jobs as nat, 10);
    let a = "\rScanning"@ + verify_note(verify) + ": "@;
    let n = text::decimal_text(files as nat);
    let m = text::decimal_text(jobs as nat);
    let b = if jobs > 0 {
        " files found, "@ + m + " jobs scheduled"@
    } else {
        " files found"@
    };
    let c = if jobs > files {
        " files, "@ + m + " jobs scheduled       "@
    } else {
        " files found       "@
    };
    assert(during@ == a + n + b);
    assert(after@ == a + n + c);
}

} // verus!
