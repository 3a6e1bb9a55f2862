use straws::config::{
    parse_size, size_fits, Args, Config, Direction, RemoteSpec, DEFAULT_CHUNK_SIZE, DEFAULT_PORT,
    DEFAULT_TUNNELS,
};

#[test]
fn test_parse_size() {
    assert_eq!(parse_size("1024").unwrap(), 1024);
    assert_eq!(parse_size("16K").unwrap(), 16 * 1024);
    assert_eq!(parse_size("16M").unwrap(), 16 * 1024 * 1024);
    assert_eq!(parse_size("1G").unwrap(), 1024 * 1024 * 1024);
    assert_eq!(parse_size("16m").unwrap(), 16 * 1024 * 1024);
}

#[test]
fn test_remote_spec_parse() {
    let spec = RemoteSpec::parse("user@host:path/to/file").unwrap();
    assert_eq!(spec.user, Some("user".to_string()));
    assert_eq!(spec.host, "host");
    assert_eq!(spec.path, "path/to/file");

    let spec = RemoteSpec::parse("host:/path").unwrap();
    assert_eq!(spec.user, None);
    assert_eq!(spec.host, "host");
    assert_eq!(spec.path, "/path");

    // Not a remote path
    assert!(RemoteSpec::parse("/local/path").is_none());
}

#[test]
fn sizes_fail_as_numbers_do() {
    for s in ["", "  ", "x", "K", "+", "-1", "1 2", "12Q", "99999999999999999999", "+7k", " 5g ", "٣"] {
        let t = s.trim();
        let got = parse_size(s);
        if t.is_empty() {
            assert_eq!(got, Err("empty size".to_string()));
            continue;
        }
        let (digits, factor) = match t.chars().last().unwrap() {
            'K' | 'k' => (&t[..t.len() - 1], 1024u64),
            'M' | 'm' => (&t[..t.len() - 1], 1024 * 1024),
            'G' | 'g' => (&t[..t.len() - 1], 1024 * 1024 * 1024),
            _ => (t, 1),
        };
        let want = digits
            .parse::<u64>()
            .map(|n| n * factor)
            .map_err(|e| format!("invalid size '{}': {}", t, e));
        assert_eq!(got, want, "{:?}", s);
    }
}

#[test]
fn sizes_out_of_range_are_known() {
    assert!(size_fits("18446744073709551615"));
    assert!(!size_fits("18446744073709551615K"));
    assert!(size_fits("17179869183G"));
    assert!(!size_fits("17179869184G"));
    assert!(size_fits("no size"));
    assert_eq!(parse_size("17179869183G"), Ok(17179869183 * 1024 * 1024 * 1024));
}

#[test]
fn drives_are_no_hosts() {
    assert!(RemoteSpec::parse("C:\\dir").is_none());
    assert!(RemoteSpec::parse("z:").is_none());
    assert_eq!(RemoteSpec::parse("1:x").unwrap().host, "1");
    assert_eq!(RemoteSpec::parse(":x").unwrap().host, "");
    let odd = RemoteSpec::parse("a@b@c:d:e").unwrap();
    assert_eq!((odd.user.as_deref(), odd.host.as_str(), odd.path.as_str()), (Some("a"), "b@c", "d:e"));
    assert_eq!(odd.user_host(), "a@b@c");
    assert_eq!(format!("{}:{}", odd.user_host(), odd.path), "a@b@c:d:e");
}

fn args(sources: &[&str], destination: &str) -> Args {
    Args {
        sources: sources.iter().map(|s| s.to_string()).collect(),
        destination: destination.to_string(),
        tunnels: 4,
        port: 22,
        identity: Some("key".to_string()),
        password_prompt: false,
        password_file: None,
        password_env: "STRAWS_PASSWORD".to_string(),
        compress: true,
        chunk_size: 1000,
        verify: true,
        force: false,
        no_progress: false,
        debug_log: None,
        verbose: true,
    }
}

#[test]
fn downloads_and_uploads_are_told_apart() {
    let c = Config::from_args(args(&["u@h:/a", "local", "v@h:/b"], "out/"), Some("pw".to_string()))
        .unwrap();
    assert_eq!(c.direction, Direction::Download);
    assert_eq!(c.remote.path, "/a\0/b");
    assert_eq!(c.remote.user_host(), "u@h");
    assert_eq!(c.local_paths, ["out/"]);
    assert_eq!(c.password.as_deref(), Some("pw"));
    assert_eq!(c.identity.as_deref(), Some("key"));
    assert!(c.compress && c.verify && c.verbose && !c.force);
    assert_eq!((c.tunnels, c.chunk_size), (4, 1000));

    let c = Config::from_args(args(&["x", "y/"], "box:/dest"), None).unwrap();
    assert_eq!(c.direction, Direction::Upload);
    assert_eq!(c.local_paths, ["x", "y/"]);
    assert_eq!(c.remote.path, "/dest");
}

#[test]
fn bad_command_lines_are_refused() {
    let fail = |a: Args| Config::from_args(a, None).unwrap_err().message();
    assert_eq!(
        fail(args(&["a"], "b")),
        "Configuration error: At least one path must be remote (user@host:path)"
    );
    assert_eq!(
        fail(args(&["box:a"], "hut:b")),
        "Configuration error: Cannot transfer between two remote hosts"
    );
    assert_eq!(
        fail(args(&["box:a", "hut:b"], "c")),
        "Configuration error: All remote sources must be from the same host"
    );
    let mut none = args(&["box:a"], "c");
    none.tunnels = 0;
    assert_eq!(fail(none), "Configuration error: Tunnel count must be at least 1");
}

#[test]
fn a_chunk_holds_a_byte() {
    let mut a = args(&["box:a"], "c");
    a.chunk_size = 0;
    assert_eq!(Config::from_args(a, None).unwrap().chunk_size, 1);
}

#[test]
fn sizes_are_read_back() {
    for n in [0u64, 1, 9, 10, 1023, 4_000_000_000] {
        assert_eq!(parse_size(&n.to_string()), Ok(n));
        assert_eq!(parse_size(&format!("{}K", n)), Ok(n << 10));
        assert_eq!(parse_size(&format!("{}M", n)), Ok(n << 20));
        assert_eq!(parse_size(&format!("{}G", n)), Ok(n << 30));
    }
    assert_eq!(parse_size("16M"), Ok(DEFAULT_CHUNK_SIZE));
    assert_eq!((DEFAULT_TUNNELS, DEFAULT_PORT), (8, 22));
}
