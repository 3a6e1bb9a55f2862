use straws::agent::exchange::{pipe_error, FindReader, Piece, PipeFault, ResponseReader, StreamReader};
use straws::agent::pool::Agent;
use straws::agent::protocol::{
    FindEntry, OpCode, Request, Response, ResponseHeader, ResponseStatus,
};
use straws::agent::python::{agent_command, PYTHON_AGENT};

#[test]
fn test_request_encode_read() {
    let req = Request::read("/test/path", 1024, 4096);
    let encoded = req.encode();

    assert_eq!(encoded[0], OpCode::Read as u8);
    // path_len = 10
    assert_eq!(encoded[1], 0);
    assert_eq!(encoded[2], 10);
    // path
    assert_eq!(&encoded[3..13], b"/test/path");
    // offset = 1024 (big endian)
    assert_eq!(&encoded[13..21], &[0, 0, 0, 0, 0, 0, 4, 0]);
    // length = 4096 (big endian)
    assert_eq!(&encoded[21..29], &[0, 0, 0, 0, 0, 0, 16, 0]);
}

#[test]
fn test_response_header_decode() {
    let buf = [0u8, 0, 0, 0, 0, 0, 0, 0, 100]; // status=0, len=100
    let header = ResponseHeader::decode(&buf).unwrap();
    assert_eq!(header.status, ResponseStatus::Success);
    assert_eq!(header.data_len, 100);
}

#[test]
fn test_agent_command() {
    let cmd = agent_command();
    assert!(cmd.starts_with("exec python3 -c '"));
    assert!(cmd.contains("def main()"));
}

#[test]
fn the_agent_is_started_by_a_single_line() {
    let escaped = PYTHON_AGENT.replace('\\', "\\\\").replace('"', "\\\"").replace('\n', "\\n");
    let statement = format!("exec(\"{}\")", escaped).replace('\'', "'\"'\"'");
    let command = agent_command();
    assert_eq!(command, format!("exec python3 -c '{}'", statement));
    assert!(!command.contains('\n'));
    assert!(PYTHON_AGENT.contains('\n'));
}

#[test]
fn the_program_is_read_back() {
    let command = agent_command();
    let word = command.strip_prefix("exec python3 -c ").unwrap();
    let mut read = String::new();
    let mut quote = None;
    for c in word.chars() {
        match quote {
            None if c == '\'' || c == '"' => quote = Some(c),
            Some(q) if c == q => quote = None,
            _ => read.push(c),
        }
    }
    assert_eq!(quote, None);

    let literal = read.strip_prefix("exec(\"").unwrap().strip_suffix("\")").unwrap();
    let mut program = String::new();
    let mut chars = literal.chars();
    while let Some(c) = chars.next() {
        assert_ne!(c, '"');
        program.push(match c {
            '\\' => match chars.next().unwrap() {
                'n' => '\n',
                other => other,
            },
            plain => plain,
        });
    }
    assert_eq!(program, PYTHON_AGENT);
}

#[test]
fn a_listing_keeps_the_form_of_the_path() {
    assert!(PYTHON_AGENT.contains("handle_find(user_path)"));
    assert!(PYTHON_AGENT.contains("path = os.path.expanduser(user_path)"));
}

#[test]
fn every_operation_has_its_byte() {
    let all = [
        OpCode::Read,
        OpCode::Write,
        OpCode::Md5,
        OpCode::Mkdir,
        OpCode::Stat,
        OpCode::Truncate,
        OpCode::Find,
    ];
    for (i, op) in all.iter().enumerate() {
        assert_eq!(op.code() as usize, i);
        assert_eq!(*op as usize, i);
        assert_eq!(OpCode::try_from(i as u8).unwrap(), *op);
    }
    let e = OpCode::try_from(7).unwrap_err();
    assert_eq!(e.message(), "Protocol error: Invalid opcode: 7");
}

#[test]
fn write_request_carries_its_data() {
    let encoded = Request::write("é", 513, vec![9, 8, 7]).encode();
    let mut expected = vec![1u8, 0, 2];
    expected.extend_from_slice("é".as_bytes());
    expected.extend_from_slice(&513u64.to_be_bytes());
    expected.extend_from_slice(&3u64.to_be_bytes());
    expected.extend_from_slice(&[9, 8, 7]);
    assert_eq!(encoded, expected);
}

#[test]
fn other_requests_have_their_numbers() {
    let tail = |v: Vec<u8>| v[v.len() - 16..].to_vec();
    assert_eq!(Request::mkdir("/d").encode()[0], 3);
    assert_eq!(Request::stat("/d").encode()[0], 4);
    assert_eq!(Request::md5("/d", 5, 6).encode()[0], 2);
    let t = Request::truncate("/d", 77).encode();
    assert_eq!(t[0], 5);
    assert_eq!(tail(t), [0, 0, 0, 0, 0, 0, 0, 0, 0, 0, 0, 0, 0, 0, 0, 77]);
    let f = Request::find("/d", true).encode();
    assert_eq!(f[0], 6);
    assert_eq!(tail(f), [0, 0, 0, 0, 0, 0, 0, 1, 0, 0, 0, 0, 0, 0, 0, 0]);
    let f = Request::find("/d", false).encode();
    assert_eq!(tail(f), [0u8; 16]);
}

#[test]
fn length_of_a_long_path_keeps_sixteen_bits() {
    let path = "x".repeat(65536 + 5);
    let encoded = Request::stat(&path).encode();
    assert_eq!(&encoded[1..3], &[0, 5]);
    assert_eq!(encoded.len(), 3 + 65536 + 5 + 16);
}

#[test]
fn broken_headers_are_refused() {
    let e = ResponseHeader::decode(&[0u8; 8]).unwrap_err();
    assert_eq!(e.message(), "Protocol error: Response header too short: 8 bytes");
    let e = ResponseHeader::decode(&[2u8; 9]).unwrap_err();
    assert_eq!(e.message(), "Protocol error: Invalid response status: 2");
    assert_eq!(ResponseHeader::SIZE, 9);
    let e = ResponseStatus::try_from(9).unwrap_err();
    assert_eq!(e.message(), "Protocol error: Invalid response status: 9");
}

#[test]
fn responses_are_read() {
    let ok = Response { status: ResponseStatus::Success, data: vec![65] };
    assert!(ok.is_success());
    assert_eq!(ok.error_message(), None);
    let e = ok.parse_stat().unwrap_err();
    assert_eq!(e.message(), "Protocol error: Stat response too short: 1 bytes");

    let bad = Response { status: ResponseStatus::Error, data: b"no \xff luck".to_vec() };
    assert!(!bad.is_success());
    assert_eq!(bad.error_message(), Some("no \u{fffd} luck".to_string()));

    let mut data = 1234u64.to_be_bytes().to_vec();
    data.extend_from_slice(&0o100644u32.to_be_bytes());
    data.extend_from_slice(&99u64.to_be_bytes());
    let stat = Response { status: ResponseStatus::Success, data }.parse_stat().unwrap();
    assert_eq!((stat.size, stat.mode, stat.mtime), (1234, 0o100644, 99));
}

fn entry(path: &str, size: u64, mode: u32, mtime: u64) -> Vec<u8> {
    let mut v = (path.len() as u16).to_be_bytes().to_vec();
    v.extend_from_slice(path.as_bytes());
    v.extend_from_slice(&size.to_be_bytes());
    v.extend_from_slice(&mode.to_be_bytes());
    v.extend_from_slice(&mtime.to_be_bytes());
    v
}

#[test]
fn find_entries_are_parsed() {
    let mut buf = entry("a/b", 7, 0o644, 8);
    let n = buf.len();
    buf.extend_from_slice(&[1, 2, 3]);
    let (found, taken) = FindEntry::parse(&buf).unwrap();
    let found = found.unwrap();
    assert_eq!(taken, n);
    assert_eq!(found.path, "a/b");
    assert_eq!((found.size, found.mode, found.mtime), (7, 0o644, 8));
    assert_eq!(found.md5, None);

    let (end, taken) = FindEntry::parse(&[0, 0, 9]).unwrap();
    assert!(end.is_none());
    assert_eq!(taken, 2);

    let e = FindEntry::parse(&[0]).unwrap_err();
    assert_eq!(e.message(), "Protocol error: Find entry buffer too short");
    let e = FindEntry::parse(&buf[..10]).unwrap_err();
    assert_eq!(e.message(), "Protocol error: Find entry too short: need 25 bytes, have 10");
}

#[test]
fn a_response_comes_in() {
    let (sent, mut reader) = Agent::request(&Request::stat("/f"));
    assert_eq!(sent, Request::stat("/f").encode());
    assert_eq!(reader.wants(), 9);
    reader = reader.take(vec![1, 0, 0, 0, 0, 0, 0, 0, 3]).unwrap();
    assert_eq!(reader.wants(), 3);
    reader = reader.take(b"bad".to_vec()).unwrap();
    assert_eq!(reader.wants(), 0);
    match reader {
        ResponseReader::Complete(r) => assert_eq!(r.error_message(), Some("bad".to_string())),
        _ => panic!("not complete"),
    }
}

#[test]
fn an_empty_response_is_complete_at_once() {
    let reader = ResponseReader::new().take(vec![0; 9]).unwrap();
    assert_eq!(reader.wants(), 0);
    assert!(matches!(reader, ResponseReader::Complete(r) if r.is_success() && r.data.is_empty()));
    assert!(ResponseReader::new().take(vec![5; 9]).is_err());
}

#[test]
fn a_file_comes_in_pieces() {
    let (sent, mut reader) = Agent::stream_read("/f", 1, 2);
    assert_eq!(sent, Request::read("/f", 1, 2).encode());
    let mut header = vec![0u8];
    header.extend_from_slice(&100_000u64.to_be_bytes());
    assert_eq!(reader.take(&header).unwrap(), Piece::Talk);
    assert!(!reader.is_complete());
    assert_eq!(reader.wants(), 65536);
    assert_eq!(reader.take(&vec![1; 65536]).unwrap(), Piece::File);
    assert_eq!(reader.wants(), 100_000 - 65536);
    assert_eq!(reader.take(&vec![2; 100_000 - 65536]).unwrap(), Piece::File);
    assert!(reader.is_complete());
    assert_eq!(reader.wants(), 0);
    assert_eq!(reader.total(), 100_000);
}

#[test]
fn a_file_that_cannot_be_read_is_reported() {
    let mut reader = StreamReader::new();
    let mut header = vec![1u8];
    header.extend_from_slice(&4u64.to_be_bytes());
    assert_eq!(reader.take(&header).unwrap(), Piece::Talk);
    let e = reader.take(b"gone").unwrap_err();
    assert_eq!(e.message(), "Remote error: gone");

    let mut reader = StreamReader::new();
    let e = reader.take(&[1, 0, 0, 0, 0, 0, 0, 0, 0]).unwrap_err();
    assert_eq!(e.message(), "Remote error: ");
    let mut reader = StreamReader::new();
    let e = reader.take(&[7, 0, 0, 0, 0, 0, 0, 0, 0]).unwrap_err();
    assert_eq!(e.message(), "Protocol error: Invalid response status: 7");
}

#[test]
fn a_listing_comes_in() {
    let mut stream = vec![0u8];
    stream.extend(entry("d/one", 1, 2, 3));
    stream.extend(entry("d/two", 4, 5, 6));
    stream.extend([0, 0, 42]);
    let (sent, mut reader) = Agent::find("d", false);
    assert_eq!(sent, Request::find("d", false).encode());
    let mut at = 0usize;
    let mut found = Vec::new();
    while !reader.is_complete() {
        let n = reader.wants() as usize;
        if let Some(e) = reader.take(&stream[at..at + n]).unwrap() {
            found.push((e.path, e.size, e.mode, e.mtime));
        }
        at += n;
    }
    assert_eq!(
        found,
        vec![("d/one".to_string(), 1, 2, 3), ("d/two".to_string(), 4, 5, 6)]
    );
    assert_eq!(&stream[at..], &[42]);
}

#[test]
fn a_listing_that_fails_is_reported() {
    let mut reader = FindReader::new();
    assert!(reader.take(&[1]).unwrap().is_none());
    assert_eq!(reader.wants(), 8);
    assert!(reader.take(&3u64.to_be_bytes()).unwrap().is_none());
    assert_eq!(reader.wants(), 3);
    assert_eq!(reader.take(b"why").unwrap_err().message(), "Remote error: why");

    let mut reader = FindReader::new();
    assert!(reader.take(&[200]).unwrap().is_none());
    assert_eq!(reader.take(&[0; 8]).unwrap_err().message(), "Remote error: ");
}

#[test]
fn faults_of_pipes_have_their_errors() {
    assert_eq!(
        pipe_error(PipeFault::NoStdin).message(),
        "Agent connection failed: Agent stdin not available"
    );
    assert_eq!(
        pipe_error(PipeFault::NoStdout).message(),
        "Agent connection failed: Agent stdout not available"
    );
    assert_eq!(
        pipe_error(PipeFault::TimedOut).message(),
        "Transfer stalled (no data received for 30 seconds, network or remote issue)"
    );
    assert_eq!(pipe_error(PipeFault::Failed("x".to_string())).message(), "IO error: x");
}
