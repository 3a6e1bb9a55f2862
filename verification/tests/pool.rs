use straws::agent::exchange::{Piece, ResponseReader, StreamReader};
use straws::agent::pool::{
    ping, ssh_args, ssh_env, Agent, AgentPool, AgentState, StartEvent, ASKPASS_VARIABLE,
};
use straws::agent::python::agent_command;
use straws::config::{Config, Direction, RemoteSpec};
use straws::error::StrawsError;

fn config(tunnels: usize) -> Config {
    Config {
        direction: Direction::Download,
        remote: RemoteSpec {
            user: Some("me".to_string()),
            host: "box".to_string(),
            path: "/data".to_string(),
        },
        local_paths: vec!["out".to_string()],
        tunnels,
        port: 2222,
        identity: None,
        password: None,
        compress: false,
        chunk_size: 100,
        verify: false,
        force: false,
        no_progress: true,
        debug_log: None,
        verbose: false,
    }
}

fn states(pool: &AgentPool) -> Vec<AgentState> {
    pool.agents().iter().map(|a| a.state()).collect()
}

#[test]
fn agents_are_taken_in_order_and_given_back() {
    let mut pool = AgentPool::new(config(3), 0);
    assert_eq!(states(&pool), [AgentState::Starting; 3]);
    assert_eq!(pool.acquire(), None);
    assert!(!pool.has_available());
    assert_eq!(pool.healthy_count(), 3);
    for id in 0..3 {
        assert!(pool.started(id, StartEvent::Answered).is_ok());
    }
    assert!(pool.has_available());
    assert_eq!(pool.acquire(), Some(0));
    assert_eq!(pool.acquire(), Some(1));
    pool.release(0);
    assert_eq!(pool.acquire(), Some(0));
    assert_eq!(pool.acquire(), Some(2));
    assert_eq!(pool.acquire(), None);
    assert_eq!(states(&pool), [AgentState::Busy; 3]);
}

#[test]
fn an_unhealthy_agent_stays_unhealthy() {
    let mut pool = AgentPool::new(config(2), 0);
    assert!(pool.started(0, StartEvent::Answered).is_ok());
    assert!(pool.started(1, StartEvent::Answered).is_ok());
    assert_eq!(pool.acquire(), Some(0));
    pool.mark_unhealthy(0);
    pool.release(0);
    assert_eq!(states(&pool), [AgentState::Unhealthy, AgentState::Ready]);
    assert_eq!(pool.healthy_count(), 1);
    assert_eq!(pool.acquire(), Some(1));
    pool.shutdown();
    assert_eq!(states(&pool), [AgentState::Unhealthy; 2]);
    assert_eq!(pool.healthy_count(), 0);
}

#[test]
fn starts_that_fail_are_reported() {
    let mut pool = AgentPool::new(config(1), 0);
    let e = pool.started(0, StartEvent::NoProcess("no ssh".to_string())).unwrap_err();
    assert_eq!(e.message(), "Agent connection failed: Failed to spawn SSH: no ssh");
    assert_eq!(states(&pool), [AgentState::Unhealthy]);
    let e = pool.started(0, StartEvent::NoStdin).unwrap_err();
    assert_eq!(e.message(), "Agent connection failed: Failed to get stdin");
    let e = pool.started(0, StartEvent::NoStdout).unwrap_err();
    assert_eq!(e.message(), "Agent connection failed: Failed to get stdout");
    let e = pool.started(0, StartEvent::TimedOut).unwrap_err();
    assert_eq!(
        e.message(),
        "Transfer stalled (no data received for 10 seconds, network or remote issue)"
    );
    let e = pool.started(0, StartEvent::Failed(StrawsError::Aborted)).unwrap_err();
    assert_eq!(e.message(), "Operation aborted");
    assert_eq!(ping().path, "/dev/null");
}

#[test]
fn a_transfer_needs_one_agent() {
    assert!(AgentPool::start_outcome(1).is_ok());
    assert!(matches!(
        AgentPool::start_outcome(0),
        Err(StrawsError::AllAgentsUnhealthy)
    ));
    let pauses: Vec<usize> = (1..20).filter(|n| AgentPool::pauses_after(*n)).collect();
    assert_eq!(pauses, [6, 12, 18]);
}

#[test]
fn the_user_can_stop() {
    let mut pool = AgentPool::new(config(1), 0);
    assert!(!pool.is_aborted());
    pool.abort();
    assert!(pool.is_aborted());
}

#[test]
fn ssh_gets_its_arguments() {
    let plain = ssh_args(&config(1));
    let command = agent_command();
    assert_eq!(
        plain,
        [
            "-T",
            "-o",
            "BatchMode=yes",
            "-o",
            "StrictHostKeyChecking=accept-new",
            "-o",
            "ServerAliveInterval=60",
            "-o",
            "ServerAliveCountMax=3",
            "-p",
            "2222",
            "me@box",
            command.as_str(),
        ]
    );
    let mut c = config(1);
    c.compress = true;
    c.identity = Some("key file".to_string());
    let full = ssh_args(&c);
    assert_eq!(&full[10..], &["2222", "-C", "-i", "key file", "me@box", command.as_str()]);
}

#[test]
fn a_password_reaches_ssh() {
    assert!(ssh_env(&config(1), "/bin/ask").is_empty());
    let mut c = config(1);
    c.password = Some("s3 'cret".to_string());
    assert_eq!(
        ssh_args(&c),
        [
            "-T",
            "-o",
            "StrictHostKeyChecking=accept-new",
            "-o",
            "ServerAliveInterval=60",
            "-o",
            "ServerAliveCountMax=3",
            "-p",
            "2222",
            "me@box",
            agent_command().as_str(),
        ]
    );
    let want = [
        ("SSH_ASKPASS", "/bin/ask"),
        ("SSH_ASKPASS_REQUIRE", "force"),
        (ASKPASS_VARIABLE, "s3 'cret"),
    ];
    let env = ssh_env(&c, "/bin/ask");
    let env: Vec<(&str, &str)> = env.iter().map(|(n, v)| (n.as_str(), v.as_str())).collect();
    assert_eq!(env, want);
}

#[test]
fn what_an_agent_sends_is_counted() {
    let mut a = Agent::new(0, 0);
    let header = vec![0, 0, 0, 0, 0, 0, 0, 0, 3];
    let reader = a.take_response(ResponseReader::new(), header.clone(), 5).unwrap();
    assert_eq!((a.bytes_transferred(), a.last_activity), (0, 0));
    let reader = a.take_response(reader, vec![1, 2, 3], 7).unwrap();
    assert!(matches!(reader, ResponseReader::Complete(r) if r.data == [1, 2, 3]));
    assert_eq!((a.bytes_transferred(), a.last_activity), (3, 7));

    let mut stream = StreamReader::new();
    assert_eq!(stream.brings(), Piece::Talk);
    assert_eq!(a.take_piece(&mut stream, &header, 8).unwrap(), Piece::Talk);
    assert_eq!(a.bytes_transferred(), 3);
    assert_eq!(stream.brings(), Piece::File);
    assert_eq!(a.take_piece(&mut stream, &[4, 5, 6], 9).unwrap(), Piece::File);
    assert_eq!((a.bytes_transferred(), a.last_activity), (6, 9));
    assert!(stream.is_complete());

    let mut broken = StreamReader::new();
    assert!(a.take_piece(&mut broken, &[9, 0, 0, 0, 0, 0, 0, 0, 0], 10).is_err());
    assert_eq!(a.last_activity, 9);
}

#[test]
fn an_agent_counts_its_bytes() {
    let mut a = Agent::new(4, 10);
    assert_eq!(a.id, 4);
    a.add_bytes(u64::MAX, 20);
    a.add_bytes(3, 30);
    assert_eq!(a.bytes_transferred(), 2);
    assert_eq!(a.last_activity, 30);
    assert!(!a.is_available());
    a.mark_unhealthy();
    assert_eq!(a.state(), AgentState::Unhealthy);
}

#[test]
fn complaints_are_kept_as_far_as_they_are_recent() {
    let mut a = Agent::new(0, 0);
    a.note_stderr("abc");
    a.note_stderr("def");
    assert_eq!(a.stderr, "abcdef");
    a.note_stderr(&"x".repeat(4996));
    assert_eq!(a.stderr.len(), 5000);
    assert!(a.stderr.starts_with("cdefx"));
    // Bytes are counted, not characters.
    a.note_stderr(&"é".repeat(2499));
    assert_eq!(a.stderr.len(), 5000);
    assert!(a.stderr.starts_with("xxé"));
    a.note_stderr("日本");
    assert_eq!(a.stderr.len(), 5000);
    assert!(a.stderr.starts_with("é") && a.stderr.ends_with("é日本"));
    // No character is cut in two.
    a.note_stderr("y");
    assert_eq!(a.stderr.len(), 4999);
    assert!(a.stderr.starts_with("é") && a.stderr.ends_with("本y"));
}
