//! The binary protocol between the client and the agents.

use vstd::prelude::*;
use vstd::slice::*;
use vstd::utf8::*;

use crate::agent::wire;
use crate::error::{ErrorView, StrawsError};
use crate::text;

verus! {

// ---------------------------------------------------------------------------
// Requests
// ---------------------------------------------------------------------------

/// What an agent is asked to do.
#[derive(Debug, Clone, Copy, PartialEq, Eq, Structural)]
pub enum OpCode {
    Read,
    Write,
    Md5,
    Mkdir,
    Stat,
    Truncate,
    Find,
}

/// The byte that stands for an operation.
pub open spec fn op_byte(op: OpCode) -> u8 {
    match op {
        OpCode::Read => 0,
        OpCode::Write => 1,
        OpCode::Md5 => 2,
        OpCode::Mkdir => 3,
        OpCode::Stat => 4,
        OpCode::Truncate => 5,
        OpCode::Find => 6,
    }
}

impl OpCode {
    /// The byte that stands for the operation.
    pub fn code(&self) -> (r: u8)
        ensures
            r == op_byte(*self),
    {
        match self {
            OpCode::Read => 0,
            OpCode::Write => 1,
            OpCode::Md5 => 2,
            OpCode::Mkdir => 3,
            OpCode::Stat => 4,
            OpCode::Truncate => 5,
            OpCode::Find => 6,
        }
    }
}

impl TryFrom<u8> for OpCode {
    type Error = StrawsError;

    /// The operation that a byte stands for.
    fn try_from(value: u8) -> (r: Result<Self, StrawsError>)
        ensures
            match r {
                Ok(op) => op_byte(op) == value,
                Err(e) => value > 6 && e@ == ErrorView::Protocol(
                    "Invalid opcode: "@ + text::decimal_text(value as nat),
                ),
            },
    {
        match value {
            0 => Ok(OpCode::Read),
            1 => Ok(OpCode::Write),
            2 => Ok(OpCode::Md5),
            3 => Ok(OpCode::Mkdir),
            4 => Ok(OpCode::Stat),
            5 => Ok(OpCode::Truncate),
            6 => Ok(OpCode::Find),
            _ => Err(
                StrawsError::Protocol(
                    text::cat("Invalid opcode: ", text::decimal(value as u64).as_str()),
                ),
            ),
        }
    }
}

impl vstd::std_specs::convert::TryFromSpecImpl<u8> for OpCode {
    open spec fn obeys_try_from_spec() -> bool {
        false
    }

    open spec fn try_from_spec(v: u8) -> Result<Self, StrawsError> {
        arbitrary()
    }
}

/// A request to an agent.
#[derive(Debug, Clone)]
pub struct Request {
    pub op: OpCode,
    pub path: String,
    pub offset: u64,
    pub length: u64,
    /// The bytes to be written, for writes.
    pub data: Option<Vec<u8>>,
}

/// A request, with its text and bytes as sequences.
pub struct RequestView {
    pub op: OpCode,
    pub path: Seq<char>,
    pub offset: u64,
    pub length: u64,
    pub data: Option<Seq<u8>>,
}

impl View for Request {
    type V = RequestView;

    open spec fn view(&self) -> RequestView {
        RequestView {
            op: self.op,
            path: self.path@,
            offset: self.offset,
            length: self.length,
            data: match self.data {
                Some(d) => Some(d@),
                None => None,
            },
        }
    }
}

/// The bytes that a request carries behind its numbers.
pub open spec fn payload(r: RequestView) -> Seq<u8> {
    match r.data {
        Some(d) => d,
        None => Seq::empty(),
    }
}

/// A request on the wire: the operation in one byte, the length of the path in two, the path, the
/// offset and the length in eight bytes each, and the data of a write.
pub open spec fn request_bytes(r: RequestView) -> Seq<u8> {
    let path = encode_utf8(r.path);
    seq![op_byte(r.op)] + wire::be_bytes(path.len() % 65536, 2) + path + wire::be_bytes(
        r.offset as nat,
        8,
    ) + wire::be_bytes(r.length as nat, 8) + payload(r)
}

/// A request without data.
pub open spec fn plain_request(op: OpCode, path: Seq<char>, offset: u64, length: u64) -> RequestView {
    RequestView { op, path, offset, length, data: None }
}

impl Request {
    /// Read `length` bytes of a file from `offset` on.
    pub fn read(path: &str, offset: u64, length: u64) -> (r: Self)
        ensures
            r@ == plain_request(OpCode::Read, path@, offset, length),
    {
        Request { op: OpCode::Read, path: path.to_owned(), offset, length, data: None }
    }

    /// Write bytes to a file from `offset` on.
    pub fn write(path: &str, offset: u64, data: Vec<u8>) -> (r: Self)
        ensures
            r@ == (RequestView {
                op: OpCode::Write,
                path: path@,
                offset,
                length: data@.len() as u64,
                data: Some(data@),
            }),
            r.length == data@.len(),
    {
        let length: u64 = data.len() as u64;
        Request { op: OpCode::Write, path: path.to_owned(), offset, length, data: Some(data) }
    }

    /// The digest of `length` bytes of a file from `offset` on.
    pub fn md5(path: &str, offset: u64, length: u64) -> (r: Self)
        ensures
            r@ == plain_request(OpCode::Md5, path@, offset, length),
    {
        Request { op: OpCode::Md5, path: path.to_owned(), offset, length, data: None }
    }

    /// Make a directory, with all that leads to it.
    pub fn mkdir(path: &str) -> (r: Self)
        ensures
            r@ == plain_request(OpCode::Mkdir, path@, 0, 0),
    {
        Request { op: OpCode::Mkdir, path: path.to_owned(), offset: 0, length: 0, data: None }
    }

    /// The size, mode and time of a file.
    pub fn stat(path: &str) -> (r: Self)
        ensures
            r@ == plain_request(OpCode::Stat, path@, 0, 0),
    {
        Request { op: OpCode::Stat, path: path.to_owned(), offset: 0, length: 0, data: None }
    }

    /// Make a file `size` bytes long.
    pub fn truncate(path: &str, size: u64) -> (r: Self)
        ensures
            r@ == plain_request(OpCode::Truncate, path@, 0, size),
    {
        Request { op: OpCode::Truncate, path: path.to_owned(), offset: 0, length: size, data: None }
    }

    /// All files below a directory; the offset carries the flag that asks for their digests.
    pub fn find(path: &str, with_md5: bool) -> (r: Self)
        ensures
            r@ == plain_request(
                OpCode::Find,
                path@,
                if with_md5 {
                    1
                } else {
                    0
                },
                0,
            ),
    {
        let offset: u64 = if with_md5 {
            1
        } else {
            0
        };
        Request { op: OpCode::Find, path: path.to_owned(), offset, length: 0, data: None }
    }

    /// The request as it goes over the wire.
    pub fn encode(&self) -> (r: Vec<u8>)
        ensures
            r@ == request_bytes(self@),
    {
        let path: &[u8] = self.path.as_str().as_bytes();
        let mut buf: Vec<u8> = Vec::new();
        buf.push(self.op.code());
        let path_len: u16 = (path.len() % 65536) as u16;
        wire::put_u16(&mut buf, path_len);
        let ghost a = buf@;
        buf.extend_from_slice(path);
        proof {
            assert(a =~= seq![op_byte(self.op)] + wire::be_bytes(path@.len() % 65536, 2));
            assert(buf@ =~= a + path@);
        }
        wire::put_u64(&mut buf, self.offset);
        wire::put_u64(&mut buf, self.length);
        let ghost b = buf@;
        match &self.data {
            Some(d) => {
                buf.extend_from_slice(d.as_slice());
                proof {
                    assert(buf@ =~= b + d@);
                }
            },
            None => {
                proof {
                    assert(buf@ =~= b + Seq::<u8>::empty());
                }
            },
        }
        buf
    }
}

/// The path, offset, length and data that an agent finds in the bytes of a request.
pub open spec fn request_of(s: Seq<u8>) -> RequestView {
    let n = wire::be_value(s.subrange(1, 3)) as int;
    let op = if s[0] == 0 {
        OpCode::Read
    } else if s[0] == 1 {
        OpCode::Write
    } else if s[0] == 2 {
        OpCode::Md5
    } else if s[0] == 3 {
        OpCode::Mkdir
    } else if s[0] == 4 {
        OpCode::Stat
    } else if s[0] == 5 {
        OpCode::Truncate
    } else {
        OpCode::Find
    };
    let length = wire::be_value(s.subrange(11 + n, 19 + n)) as u64;
    RequestView {
        op,
        path: decode_utf8(s.subrange(3, 3 + n)),
        offset: wire::be_value(s.subrange(3 + n, 11 + n)) as u64,
        length,
        data: if op == OpCode::Write {
            Some(s.subrange(19 + n, 19 + n + length))
        } else {
            None
        },
    }
}

/// How many bytes of the stream an agent takes for one request.
pub open spec fn request_len(s: Seq<u8>) -> int {
    let r = request_of(s);
    19 + wire::be_value(s.subrange(1, 3)) + if r.op == OpCode::Write {
        r.length as int
    } else {
        0
    }
}

/// An agent finds in the stream the request that was sent, and its end, whatever follows: for
/// paths of less than 64 KiB, and data only behind writes, as long as announced.
pub proof fn lemma_request_is_understood(r: RequestView, rest: Seq<u8>)
    requires
        encode_utf8(r.path).len() < 65536,
        r.data is Some <==> r.op == OpCode::Write,
        r.data matches Some(d) ==> d.len() == r.length,
    ensures
        request_of(request_bytes(r) + rest) == r,
        request_len(request_bytes(r) + rest) == request_bytes(r).len(),
{
    let path = encode_utf8(r.path);
    let n = path.len() as int;
    let s = request_bytes(r) + rest;
    wire::lemma_be_limits();
    wire::lemma_be_value_of_bytes(path.len(), 2);
    wire::lemma_be_value_of_bytes(r.offset as nat, 8);
    wire::lemma_be_value_of_bytes(r.length as nat, 8);
    encode_utf8_valid_utf8(r.path);
    encode_utf8_decode_utf8(r.path);
    assert(s.subrange(1, 3) =~= wire::be_bytes(path.len(), 2));
    assert(s.subrange(3, 3 + n) =~= path);
    assert(s.subrange(3 + n, 11 + n) =~= wire::be_bytes(r.offset as nat, 8));
    assert(s.subrange(11 + n, 19 + n) =~= wire::be_bytes(r.length as nat, 8));
    if r.op == OpCode::Write {
        assert(s.subrange(19 + n, 19 + n + r.length) =~= payload(r));
    }
}

// ---------------------------------------------------------------------------
// Responses
// ---------------------------------------------------------------------------

/// Whether an agent could do what it was asked.
#[derive(Debug, Clone, Copy, PartialEq, Eq, Structural)]
pub enum ResponseStatus {
    Success,
    Error,
}

/// The byte that stands for a status.
pub open spec fn status_byte(s: ResponseStatus) -> u8 {
    match s {
        ResponseStatus::Success => 0,
        ResponseStatus::Error => 1,
    }
}

impl TryFrom<u8> for ResponseStatus {
    type Error = StrawsError;

    /// The status that a byte stands for.
    fn try_from(value: u8) -> (r: Result<Self, StrawsError>)
        ensures
            match r {
                Ok(s) => status_byte(s) == value,
                Err(e) => value > 1 && e@ == bad_status(value),
            },
    {
        match value {
            0 => Ok(ResponseStatus::Success),
            1 => Ok(ResponseStatus::Error),
            _ => Err(
                StrawsError::Protocol(
                    text::cat("Invalid response status: ", text::decimal(value as u64).as_str()),
                ),
            ),
        }
    }
}

impl vstd::std_specs::convert::TryFromSpecImpl<u8> for ResponseStatus {
    open spec fn obeys_try_from_spec() -> bool {
        false
    }

    open spec fn try_from_spec(v: u8) -> Result<Self, StrawsError> {
        arbitrary()
    }
}

/// The failure that a byte which is no status makes.
pub open spec fn bad_status(value: u8) -> ErrorView {
    ErrorView::Protocol("Invalid response status: "@ + text::decimal_text(value as nat))
}

/// What stands in front of every response: the status in one byte, the length of the data in eight.
#[derive(Debug, Clone)]
pub struct ResponseHeader {
    pub status: ResponseStatus,
    pub data_len: u64,
}

/// The length of a response header.
pub const HEADER_SIZE: usize = 9;

/// The header that bytes hold, or what is wrong with them.
pub open spec fn header_of(s: Seq<u8>) -> Result<(ResponseStatus, u64), ErrorView> {
    if s.len() < 9 {
        Err(
            ErrorView::Protocol(
                "Response header too short: "@ + text::decimal_text(s.len()) + " bytes"@,
            ),
        )
    } else if s[0] > 1 {
        Err(bad_status(s[0]))
    } else {
        Ok(
            (
                if s[0] == 0 {
                    ResponseStatus::Success
                } else {
                    ResponseStatus::Error
                },
                wire::be_value(s.subrange(1, 9)) as u64,
            ),
        )
    }
}

/// A response header on the wire.
pub open spec fn header_bytes(status: ResponseStatus, data_len: u64) -> Seq<u8> {
    seq![status_byte(status)] + wire::be_bytes(data_len as nat, 8)
}

impl ResponseHeader {
    /// The length of a response header.
    pub const SIZE: usize = HEADER_SIZE;

    /// The header in the first nine bytes of `buf`.
    pub fn decode(buf: &[u8]) -> (r: Result<Self, StrawsError>)
        ensures
            match r {
                Ok(h) => header_of(buf@) == Ok::<(ResponseStatus, u64), ErrorView>(
                    (h.status, h.data_len),
                ),
                Err(e) => header_of(buf@) == Err::<(ResponseStatus, u64), ErrorView>(e@),
            },
    {
        if buf.len() < HEADER_SIZE {
            return Err(
                StrawsError::Protocol(
                    text::cat3(
                        "Response header too short: ",
                        text::decimal(buf.len() as u64).as_str(),
                        " bytes",
                    ),
                ),
            );
        }
        match ResponseStatus::try_from(buf[0]) {
            Ok(status) => {
                let tail = slice_subrange(buf, 1, 9);
                let data_len = wire::get_u64(tail);
                proof {
                    assert(tail@.take(8) =~= buf@.subrange(1, 9));
                }
                Ok(ResponseHeader { status, data_len })
            },
            Err(e) => Err(e),
        }
    }
}

/// A header is read as it was written, whatever follows it.
pub proof fn lemma_header_is_understood(status: ResponseStatus, data_len: u64, rest: Seq<u8>)
    ensures
        header_of(header_bytes(status, data_len) + rest) == Ok::<(ResponseStatus, u64), ErrorView>(
            (status, data_len),
        ),
        header_bytes(status, data_len).len() == HEADER_SIZE,
{
    let s = header_bytes(status, data_len) + rest;
    wire::lemma_be_limits();
    wire::lemma_be_value_of_bytes(data_len as nat, 8);
    assert(s.subrange(1, 9) =~= wire::be_bytes(data_len as nat, 8));
}

/// The size, mode and modification time of a file.
#[derive(Debug, Clone, Copy)]
pub struct StatInfo {
    pub size: u64,
    pub mode: u32,
    pub mtime: u64,
}

/// The numbers of a file on the wire: size in eight bytes, mode in four, time in eight.
pub open spec fn stat_bytes(st: StatInfo) -> Seq<u8> {
    wire::be_bytes(st.size as nat, 8) + wire::be_bytes(st.mode as nat, 4) + wire::be_bytes(
        st.mtime as nat,
        8,
    )
}

/// The numbers of a file in the first twenty bytes of `s`.
pub open spec fn stat_of(s: Seq<u8>) -> StatInfo {
    StatInfo {
        size: wire::be_value(s.subrange(0, 8)) as u64,
        mode: wire::be_value(s.subrange(8, 12)) as u32,
        mtime: wire::be_value(s.subrange(12, 20)) as u64,
    }
}

/// The numbers of a file are read as they were written, whatever follows them.
pub proof fn lemma_stat_is_understood(st: StatInfo, rest: Seq<u8>)
    ensures
        stat_of(stat_bytes(st) + rest) == st,
        stat_bytes(st).len() == 20,
{
    let s = stat_bytes(st) + rest;
    wire::lemma_be_limits();
    wire::lemma_be_value_of_bytes(st.size as nat, 8);
    wire::lemma_be_value_of_bytes(st.mode as nat, 4);
    wire::lemma_be_value_of_bytes(st.mtime as nat, 8);
    assert(s.subrange(0, 8) =~= wire::be_bytes(st.size as nat, 8));
    assert(s.subrange(8, 12) =~= wire::be_bytes(st.mode as nat, 4));
    assert(s.subrange(12, 20) =~= wire::be_bytes(st.mtime as nat, 8));
}

fn read_stat(buf: &[u8], from: usize) -> (r: StatInfo)
    requires
        from + 20 <= buf@.len(),
    ensures
        r == stat_of(buf@.skip(from as int)),
{
    let total: usize = buf.len();
    let a = slice_subrange(buf, from, from + 8);
    let b = slice_subrange(buf, from + 8, from + 12);
    let c = slice_subrange(buf, from + 12, from + 20);
    let ghost s = buf@.skip(from as int);
    proof {
        assert(a@.take(8) =~= s.subrange(0, 8));
        assert(b@.take(4) =~= s.subrange(8, 12));
        assert(c@.take(8) =~= s.subrange(12, 20));
    }
    StatInfo { size: wire::get_u64(a), mode: wire::get_u32(b), mtime: wire::get_u64(c) }
}

/// A response that fits in memory.
#[derive(Debug, Clone)]
pub struct Response {
    pub status: ResponseStatus,
    pub data: Vec<u8>,
}

/// A response, with its bytes as a sequence.
pub struct ResponseView {
    pub status: ResponseStatus,
    pub data: Seq<u8>,
}

impl View for Response {
    type V = ResponseView;

    open spec fn view(&self) -> ResponseView {
        ResponseView { status: self.status, data: self.data@ }
    }
}

/// What a failed response reports.
pub open spec fn complaint(r: ResponseView) -> Option<Seq<char>> {
    if r.status == ResponseStatus::Error {
        Some(wire::lossy_text(r.data))
    } else {
        None
    }
}

impl Response {
    /// Whether the agent could do what it was asked.
    pub fn is_success(&self) -> (r: bool)
        ensures
            r == (self@.status == ResponseStatus::Success),
    {
        match self.status {
            ResponseStatus::Success => true,
            ResponseStatus::Error => false,
        }
    }

    /// What a failed response reports: its data as text.
    pub fn error_message(&self) -> (r: Option<String>)
        ensures
            r.deep_view() == complaint(self@),
            valid_utf8(self@.data) && self@.status == ResponseStatus::Error ==> r.deep_view()
                == Some(decode_utf8(self@.data)),
    {
        match self.status {
            ResponseStatus::Error => Some(wire::lossy(self.data.as_slice())),
            ResponseStatus::Success => None,
        }
    }

    /// The numbers of a file, from the response to a stat request.
    pub fn parse_stat(&self) -> (r: Result<StatInfo, StrawsError>)
        ensures
            match r {
                Ok(st) => self@.data.len() >= 20 && st == stat_of(self@.data),
                Err(e) => self@.data.len() < 20 && e@ == ErrorView::Protocol(
                    "Stat response too short: "@ + text::decimal_text(self@.data.len())
                        + " bytes"@,
                ),
            },
    {
        if self.data.len() < 20 {
            return Err(
                StrawsError::Protocol(
                    text::cat3(
                        "Stat response too short: ",
                        text::decimal(self.data.len() as u64).as_str(),
                        " bytes",
                    ),
                ),
            );
        }
        let st = read_stat(self.data.as_slice(), 0);
        proof {
            assert(self.data@.skip(0) =~= self.data@);
        }
        Ok(st)
    }
}

// ---------------------------------------------------------------------------
// Entries of a directory
// ---------------------------------------------------------------------------

/// A file that an agent found.
#[derive(Debug, Clone)]
pub struct FindEntry {
    pub path: String,
    pub size: u64,
    pub mode: u32,
    pub mtime: u64,
    /// Digest of the file, where the agent sent one.
    pub md5: Option<String>,
}

/// A file that an agent found, with its texts as sequences of characters.
pub struct FindView {
    pub path: Seq<char>,
    pub stat: StatInfo,
    pub md5: Option<Seq<char>>,
}

impl View for FindEntry {
    type V = FindView;

    open spec fn view(&self) -> FindView {
        FindView {
            path: self.path@,
            stat: StatInfo { size: self.size, mode: self.mode, mtime: self.mtime },
            md5: self.md5.deep_view(),
        }
    }
}

/// An entry on the wire: the length of the path in two bytes, the path, and the numbers.
pub open spec fn entry_bytes(path: Seq<u8>, st: StatInfo) -> Seq<u8> {
    wire::be_bytes(path.len(), 2) + path + stat_bytes(st)
}

/// What stands at the front of a stream of entries.
pub enum EntryFront {
    /// Not enough bytes yet; the text says what is missing.
    Short(Seq<char>),
    /// The mark behind the last entry.
    End,
    /// An entry with this path and these numbers, and its length in bytes.
    Entry(Seq<u8>, StatInfo, int),
}

/// What stands at the front of a stream of entries. A path of length zero ends it.
pub open spec fn entry_front(s: Seq<u8>) -> EntryFront {
    if s.len() < 2 {
        EntryFront::Short("Find entry buffer too short"@)
    } else {
        let n = wire::be_value(s.subrange(0, 2)) as int;
        if n == 0 {
            EntryFront::End
        } else if s.len() < n + 22 {
            EntryFront::Short(
                "Find entry too short: need "@ + text::decimal_text((n + 22) as nat)
                    + " bytes, have "@ + text::decimal_text(s.len()),
            )
        } else {
            EntryFront::Entry(s.subrange(2, 2 + n), stat_of(s.skip(2 + n)), n + 22)
        }
    }
}

impl FindEntry {
    /// The entry with the path that `path` encodes and the numbers in the twenty bytes of `stats`.
    pub fn from_parts(path: String, stats: &[u8]) -> (r: Self)
        requires
            stats@.len() >= 20,
        ensures
            r@ == (FindView { path: path@, stat: stat_of(stats@), md5: None }),
    {
        let st = read_stat(stats, 0);
        proof {
            assert(stats@.skip(0) =~= stats@);
        }
        FindEntry { path, size: st.size, mode: st.mode, mtime: st.mtime, md5: None }
    }

    /// The entry at the front of `buf`, and how many bytes it takes; `None` is the mark behind the
    /// last entry.
    pub fn parse(buf: &[u8]) -> (r: Result<(Option<Self>, usize), StrawsError>)
        ensures
            match entry_front(buf@) {
                EntryFront::Short(m) => r matches Err(e) && e@ == ErrorView::Protocol(m),
                EntryFront::End => r matches Ok((None, 2)),
                EntryFront::Entry(path, st, n) => r matches Ok((Some(entry), taken)) && taken == n
                    && entry@ == (FindView { path: wire::lossy_text(path), stat: st, md5: None })
                    && (valid_utf8(path) ==> entry@.path == decode_utf8(path)),
            },
    {
        let total: usize = buf.len();
        if total < 2 {
            return Err(StrawsError::Protocol("Find entry buffer too short".to_owned()));
        }
        let front = slice_subrange(buf, 0, 2);
        let path_len: usize = wire::get_u16(front) as usize;
        proof {
            assert(front@.take(2) =~= buf@.subrange(0, 2));
        }
        if path_len == 0 {
            return Ok((None, 2));
        }
        let needed: usize = path_len + 22;
        if total < needed {
            return Err(
                StrawsError::Protocol(
                    text::cat4(
                        "Find entry too short: need ",
                        text::decimal(needed as u64).as_str(),
                        " bytes, have ",
                        text::decimal(total as u64).as_str(),
                    ),
                ),
            );
        }
        let path = wire::lossy(slice_subrange(buf, 2, 2 + path_len));
        let stats = slice_subrange(buf, 2 + path_len, total);
        proof {
            assert(stats@ =~= buf@.skip(2 + path_len));
        }
        Ok((Some(FindEntry::from_parts(path, stats)), needed))
    }
}

/// An entry is found at the front of the stream as it was written, and its end, whatever follows.
pub proof fn lemma_entry_is_understood(path: Seq<u8>, st: StatInfo, rest: Seq<u8>)
    requires
        0 < path.len() < 65536,
    ensures
        entry_front(entry_bytes(path, st) + rest) == EntryFront::Entry(
            path,
            st,
            entry_bytes(path, st).len() as int,
        ),
{
    let s = entry_bytes(path, st) + rest;
    let n = path.len() as int;
    wire::lemma_be_limits();
    wire::lemma_be_value_of_bytes(path.len(), 2);
    lemma_stat_is_understood(st, rest);
    assert(s.subrange(0, 2) =~= wire::be_bytes(path.len(), 2));
    assert(s.subrange(2, 2 + n) =~= path);
    assert(s.skip(2 + n) =~= stat_bytes(st) + rest);
}

// ---------------------------------------------------------------------------
// Laws: what is on the wire
// ---------------------------------------------------------------------------

/// A request on the wire: one byte for the operation, two for the length of the path, the path,
/// eight for the offset, eight for the length, and the data of a write.
pub proof fn lemma_request_layout(req: &Request, bytes: Vec<u8>)
    requires
        encode_utf8(req.path@).len() < 65536,
        call_ensures(Request::encode, (req,), bytes),
    ensures
        ({
            let b = bytes@;
            let path = encode_utf8(req.path@);
            let n = path.len() as int;
            &&& b.len() >= 19 + n
            &&& req.op == OpCode::Read ==> b[0] == 0
            &&& req.op == OpCode::Write ==> b[0] == 1
            &&& req.op == OpCode::Md5 ==> b[0] == 2
            &&& req.op == OpCode::Mkdir ==> b[0] == 3
            &&& req.op == OpCode::Stat ==> b[0] == 4
            &&& req.op == OpCode::Truncate ==> b[0] == 5
            &&& req.op == OpCode::Find ==> b[0] == 6
            &&& wire::be_value(b.subrange(1, 3)) == n
            &&& b.subrange(3, 3 + n) == path
            &&& wire::be_value(b.subrange(3 + n, 11 + n)) == req.offset
            &&& wire::be_value(b.subrange(11 + n, 19 + n)) == req.length
            &&& req.data is None ==> b.len() == 19 + n
            &&& req.data matches Some(d) ==> b.skip(19 + n) == d@
        }),
{
    let b = bytes@;
    let path = encode_utf8(req.path@);
    let n = path.len() as int;
    wire::lemma_be_limits();
    wire::lemma_be_value_of_bytes(n as nat, 2);
    wire::lemma_be_value_of_bytes(req.offset as nat, 8);
    wire::lemma_be_value_of_bytes(req.length as nat, 8);
    assert(b.subrange(1, 3) =~= wire::be_bytes(n as nat, 2));
    assert(b.subrange(3, 3 + n) =~= path);
    assert(b.subrange(3 + n, 11 + n) =~= wire::be_bytes(req.offset as nat, 8));
    assert(b.subrange(11 + n, 19 + n) =~= wire::be_bytes(req.length as nat, 8));
    assert(b.skip(19 + n) =~= payload(req@));
}

/// Each request asks for what its name says, about the path and the range that it was given.
pub proof fn lemma_requests_ask_for_their_ranges(
    path: &str,
    offset: u64,
    length: u64,
    data: Vec<u8>,
    with_md5: bool,
    read: Request,
    write: Request,
    md5: Request,
    mkdir: Request,
    stat: Request,
    truncate: Request,
    find: Request,
)
    requires
        call_ensures(Request::read, (path, offset, length), read),
        call_ensures(Request::write, (path, offset, data), write),
        call_ensures(Request::md5, (path, offset, length), md5),
        call_ensures(Request::mkdir, (path,), mkdir),
        call_ensures(Request::stat, (path,), stat),
        call_ensures(Request::truncate, (path, length), truncate),
        call_ensures(Request::find, (path, with_md5), find),
    ensures
        read.path@ == path@ && write.path@ == path@ && md5.path@ == path@ && mkdir.path@ == path@
            && stat.path@ == path@ && truncate.path@ == path@ && find.path@ == path@,
        read.op == OpCode::Read && write.op == OpCode::Write && md5.op == OpCode::Md5 && mkdir.op
            == OpCode::Mkdir && stat.op == OpCode::Stat && truncate.op == OpCode::Truncate
            && find.op == OpCode::Find,
        read.offset == offset && read.length == length,
        md5.offset == offset && md5.length == length,
        write.offset == offset && write.length == data@.len() && write@.data == Some(data@),
        truncate.offset == 0 && truncate.length == length,
        find.offset == 1 <==> with_md5,
        find.offset <= 1,
        read.data is None && md5.data is None && mkdir.data is None && stat.data is None
            && truncate.data is None && find.data is None,
{
    assert(read@.data is None && md5@.data is None && mkdir@.data is None);
    assert(stat@.data is None && truncate@.data is None && find@.data is None);
}

/// A header is read exactly if it is whole and its status is one of the two that there are.
pub proof fn lemma_header_is_read(buf: &[u8], r: Result<ResponseHeader, StrawsError>)
    requires
        call_ensures(ResponseHeader::decode, (buf,), r),
    ensures
        r is Ok <==> buf@.len() >= 9 && buf@[0] <= 1,
        r is Err ==> r->Err_0@ is Protocol,
        r matches Ok(h) ==> (h.status == ResponseStatus::Success <==> buf@[0] == 0) && h.data_len
            == wire::be_value(buf@.subrange(1, 9)),
{
    if buf@.len() >= 9 {
        wire::lemma_be_limits();
        wire::lemma_be_bytes_of_value(buf@.subrange(1, 9));
    }
}

/// What a response says: a success has no complaint, a failure has one, which is its data as text,
/// and numbers are read as they were sent.
pub proof fn lemma_response_is_read(
    response: &Response,
    success: bool,
    message: Option<String>,
    stat: Result<StatInfo, StrawsError>,
    st: StatInfo,
    rest: Seq<u8>,
)
    requires
        call_ensures(Response::is_success, (response,), success),
        call_ensures(Response::error_message, (response,), message),
        call_ensures(Response::parse_stat, (response,), stat),
    ensures
        success <==> response.status == ResponseStatus::Success,
        success <==> message is None,
        message matches Some(m) ==> m@ == wire::lossy_text(response.data@),
        stat is Ok <==> response.data@.len() >= 20,
        stat is Err ==> stat->Err_0@ is Protocol,
        response.data@ == stat_bytes(st) + rest ==> stat == Ok::<StatInfo, StrawsError>(st),
{
    lemma_stat_is_understood(st, rest);
}

/// An entry of a listing is read as it was sent, and its length is known; a path of length zero is
/// the end.
pub proof fn lemma_entry_is_read(
    buf: &[u8],
    r: Result<(Option<FindEntry>, usize), StrawsError>,
    path: Seq<u8>,
    st: StatInfo,
    rest: Seq<u8>,
)
    requires
        0 < path.len() < 65536,
        call_ensures(FindEntry::parse, (buf,), r),
    ensures
        buf@ == entry_bytes(path, st) + rest ==> (r matches Ok((Some(e), n)) && n == path.len() + 22
            && e.path@ == wire::lossy_text(path) && e.size == st.size && e.mode == st.mode && e.mtime
            == st.mtime),
        buf@.len() >= 2 && buf@[0] == 0 && buf@[1] == 0 ==> (r matches Ok((None, n)) && n == 2),
        buf@.len() < 2 ==> r is Err,
        r is Err ==> r->Err_0@ is Protocol,
{
    lemma_stat_is_understood(st, Seq::empty());
    wire::lemma_be_limits();
    wire::lemma_be_value_of_bytes(path.len(), 2);
    if buf@ == entry_bytes(path, st) + rest {
        lemma_entry_is_understood(path, st, rest);
    }
    if buf@.len() >= 2 && buf@[0] == 0 && buf@[1] == 0 {
        let s = buf@.subrange(0, 2);
        assert(s.drop_last().drop_last() =~= Seq::<u8>::empty());
        reveal_with_fuel(wire::be_value, 3);
        assert(wire::be_value(s) == 0);
    }
}

/// An entry of a listing is a path with what is known of the file, and its digest is not known yet.
pub proof fn lemma_entry_is_made_of_its_parts(
    path: String,
    stats: &[u8],
    r: FindEntry,
    st: StatInfo,
    rest: Seq<u8>,
)
    requires
        stats@ == stat_bytes(st) + rest,
        stats@.len() >= 20,
        call_ensures(FindEntry::from_parts, (path, stats), r),
    ensures
        r.path@ == path@,
        r.size == st.size && r.mode == st.mode && r.mtime == st.mtime,
        r.md5 is None,
{
    lemma_stat_is_understood(st, rest);
    assert(r@.path == r.path@);
    assert(r@.stat.size == r.size);
}

} // verus!
