use straws::error::StrawsError;

fn all() -> Vec<(StrawsError, &'static str, bool, bool, bool)> {
    let s = |t: &str| t.to_string();
    vec![
        (StrawsError::Io(s("x")), "IO error: x", false, false, false),
        (StrawsError::Protocol(s("x")), "Protocol error: x", true, true, false),
        (StrawsError::Remote(s("x")), "Remote error: x", true, false, false),
        (
            StrawsError::Stall(30),
            "Transfer stalled (no data received for 30 seconds, network or remote issue)",
            true,
            true,
            false,
        ),
        (StrawsError::Connection(s("x")), "Agent connection failed: x", true, true, false),
        (
            StrawsError::AllAgentsUnhealthy,
            "All SSH connections failed or became unavailable",
            false,
            false,
            true,
        ),
        (
            StrawsError::Md5Mismatch { path: s("p"), expected: s("e"), actual: s("a") },
            "MD5 verification failed for p: expected e, got a",
            true,
            false,
            false,
        ),
        (StrawsError::TransferFailed(s("x")), "x", false, false, true),
        (StrawsError::InvalidPath(s("x")), "Invalid path: x", false, false, false),
        (StrawsError::Ssh(s("x")), "SSH error: x", false, false, false),
        (StrawsError::Config(s("x")), "Configuration error: x", false, false, true),
        (StrawsError::Aborted, "Operation aborted", false, false, true),
        (StrawsError::NotFound(s("x")), "File not found: x", false, false, false),
        (StrawsError::PermissionDenied(s("x")), "Permission denied: x", false, false, false),
    ]
}

#[test]
fn errors_have_their_texts_and_kinds() {
    for (e, text, retryable, agent, fatal) in all() {
        assert_eq!(e.message(), text);
        assert_eq!(e.is_retryable(), retryable, "{}", text);
        assert_eq!(e.is_agent_failure(), agent, "{}", text);
        assert_eq!(e.is_fatal(), fatal, "{}", text);
    }
}

#[test]
fn blame_and_finality_exclude_each_other() {
    for (e, _, _, _, _) in all() {
        assert!(!e.is_agent_failure() || e.is_retryable());
        assert!(!(e.is_fatal() && e.is_retryable()));
    }
}
