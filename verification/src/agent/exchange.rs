//! Talking to an agent: what is sent, how much is read next, and what the answer means.
//!
//! A reader says how many bytes it needs next, and takes exactly so many.

use vstd::prelude::*;
use vstd::slice::*;

use crate::agent::protocol;
use crate::agent::protocol::{
    EntryFront, FindEntry, FindView, Response, ResponseHeader, ResponseStatus, StatInfo,
    HEADER_SIZE,
};
use crate::agent::wire;
use crate::error;
use crate::error::{ErrorView, StrawsError};
use crate::job::chunks;

verus! {

/// After how many seconds without data an agent counts as stalled.
pub const STALL_TIMEOUT_SECS: u64 = 30;

/// How many bytes of a file are taken from an agent at a time: 64 KiB.
pub const PIECE_SIZE: u64 = 65_536;

/// Why the pipe to or from an agent did not do its part.
#[derive(Debug)]
pub enum PipeFault {
    /// There is no pipe to the agent.
    NoStdin,
    /// There is no pipe from the agent.
    NoStdout,
    /// Nothing moved in time.
    TimedOut,
    /// Reading or writing failed.
    Failed(String),
}

/// What a fault of a pipe means for the transfer.
pub open spec fn fault_error(f: PipeFault) -> ErrorView {
    match f {
        PipeFault::NoStdin => ErrorView::Connection("Agent stdin not available"@),
        PipeFault::NoStdout => ErrorView::Connection("Agent stdout not available"@),
        PipeFault::TimedOut => ErrorView::Stall(STALL_TIMEOUT_SECS),
        PipeFault::Failed(m) => ErrorView::Io(m@),
    }
}

/// What a fault of a pipe means for the transfer.
pub fn pipe_error(f: PipeFault) -> (r: StrawsError)
    ensures
        r@ == fault_error(f),
{
    match f {
        PipeFault::NoStdin => StrawsError::Connection("Agent stdin not available".to_owned()),
        PipeFault::NoStdout => StrawsError::Connection("Agent stdout not available".to_owned()),
        PipeFault::TimedOut => StrawsError::Stall(STALL_TIMEOUT_SECS),
        PipeFault::Failed(m) => StrawsError::Io(m),
    }
}

// ---------------------------------------------------------------------------
// Responses that fit in memory
// ---------------------------------------------------------------------------

/// A response while it comes in.
#[derive(Debug)]
pub enum ResponseReader {
    /// The header comes next.
    Header,
    /// So much data comes next.
    Data { status: ResponseStatus, data_len: u64 },
    /// The response is there.
    Complete(Response),
}

/// A response while it comes in, with its bytes as a sequence.
pub enum ReaderView {
    Header,
    Data { status: ResponseStatus, data_len: u64 },
    Complete { status: ResponseStatus, data: Seq<u8> },
}

impl View for ResponseReader {
    type V = ReaderView;

    open spec fn view(&self) -> ReaderView {
        match *self {
            ResponseReader::Header => ReaderView::Header,
            ResponseReader::Data { status, data_len } => ReaderView::Data { status, data_len },
            ResponseReader::Complete(r) => ReaderView::Complete {
                status: r@.status,
                data: r@.data,
            },
        }
    }
}

impl ReaderView {
    /// How many bytes come next.
    pub open spec fn wants(self) -> nat {
        match self {
            ReaderView::Header => HEADER_SIZE as nat,
            ReaderView::Data { data_len, .. } => data_len as nat,
            ReaderView::Complete { .. } => 0,
        }
    }

    /// What the next bytes make of the response.
    pub open spec fn taken(self, bytes: Seq<u8>) -> Result<ReaderView, ErrorView> {
        match self {
            ReaderView::Header => match protocol::header_of(bytes) {
                Ok((status, data_len)) => Ok(
                    if data_len > 0 {
                        ReaderView::Data { status, data_len }
                    } else {
                        ReaderView::Complete { status, data: Seq::empty() }
                    },
                ),
                Err(e) => Err(e),
            },
            ReaderView::Data { status, .. } => Ok(ReaderView::Complete { status, data: bytes }),
            ReaderView::Complete { .. } => Ok(self),
        }
    }
}

impl ResponseReader {
    /// A response of which nothing came yet.
    pub fn new() -> (r: Self)
        ensures
            r@ == ReaderView::Header,
    {
        ResponseReader::Header
    }

    /// How many bytes to read next; none when the response is there.
    pub fn wants(&self) -> (r: u64)
        ensures
            r == self@.wants(),
    {
        match self {
            ResponseReader::Header => HEADER_SIZE as u64,
            ResponseReader::Data { data_len, .. } => *data_len,
            ResponseReader::Complete(_) => 0,
        }
    }

    /// Takes the bytes that came.
    pub fn take(self, bytes: Vec<u8>) -> (r: Result<Self, StrawsError>)
        requires
            bytes@.len() == self@.wants(),
        ensures
            match r {
                Ok(next) => self@.taken(bytes@) == Ok::<ReaderView, ErrorView>(next@),
                Err(e) => self@.taken(bytes@) == Err::<ReaderView, ErrorView>(e@),
            },
    {
        match self {
            ResponseReader::Header => match ResponseHeader::decode(bytes.as_slice()) {
                Ok(header) => {
                    if header.data_len > 0 {
                        Ok(
                            ResponseReader::Data {
                                status: header.status,
                                data_len: header.data_len,
                            },
                        )
                    } else {
                        Ok(
                            ResponseReader::Complete(
                                Response { status: header.status, data: Vec::new() },
                            ),
                        )
                    }
                },
                Err(e) => Err(e),
            },
            ResponseReader::Data { status, .. } => Ok(
                ResponseReader::Complete(Response { status, data: bytes }),
            ),
            ResponseReader::Complete(response) => Ok(ResponseReader::Complete(response)),
        }
    }
}

/// What a reader makes of a stream, and how much of it is left: each time, it takes as many bytes
/// as it wants.
pub open spec fn read_response(reader: ReaderView, stream: Seq<u8>, steps: nat) -> Result<
    (ReaderView, Seq<u8>),
    ErrorView,
>
    decreases steps,
{
    let n = reader.wants() as int;
    if steps == 0 || reader is Complete || stream.len() < n {
        Ok((reader, stream))
    } else {
        match reader.taken(stream.take(n)) {
            Ok(next) => read_response(next, stream.skip(n), (steps - 1) as nat),
            Err(e) => Err(e),
        }
    }
}

/// A response is received as it was sent, and what follows it is left in the stream.
pub proof fn lemma_response_is_received(status: ResponseStatus, data: Seq<u8>, rest: Seq<u8>)
    requires
        data.len() <= u64::MAX,
    ensures
        read_response(
            ReaderView::Header,
            protocol::header_bytes(status, data.len() as u64) + data + rest,
            2,
        ) == Ok::<(ReaderView, Seq<u8>), ErrorView>(
            (ReaderView::Complete { status, data }, rest),
        ),
{
    let head = protocol::header_bytes(status, data.len() as u64);
    let s = head + data + rest;
    protocol::lemma_header_is_understood(status, data.len() as u64, Seq::empty());
    assert(head + Seq::<u8>::empty() =~= head);
    assert(s.take(9) =~= head);
    let s1 = s.skip(9);
    assert(s1 =~= data + rest);
    reveal_with_fuel(read_response, 3);
    if data.len() > 0 {
        let n = data.len() as int;
        assert(s1.take(n) =~= data);
        assert(s1.skip(n) =~= rest);
    } else {
        assert(data =~= Seq::<u8>::empty());
        assert(s1 =~= rest);
    }
}

// ---------------------------------------------------------------------------
// Files
// ---------------------------------------------------------------------------

/// The contents of a file range while they come in.
#[derive(Debug, Clone, Copy, PartialEq, Eq, Structural)]
pub enum StreamReader {
    /// The header comes next.
    Header,
    /// So many bytes of a complaint come next.
    Complaint(u64),
    /// So many bytes of the file are still to come, and so many came.
    Data { remaining: u64, total: u64 },
}

/// What bytes that came in are.
#[derive(Debug, Clone, Copy, PartialEq, Eq, Structural)]
pub enum Piece {
    /// Part of the conversation.
    Talk,
    /// Part of the file, to be written out.
    File,
}

/// How long the next piece of a file is, of which so many bytes are still to come.
pub open spec fn piece_len(remaining: nat) -> nat {
    if remaining < PIECE_SIZE {
        remaining
    } else {
        PIECE_SIZE as nat
    }
}

impl StreamReader {
    /// The counts fit together.
    pub open spec fn wf(self) -> bool {
        self matches StreamReader::Data { remaining, total } ==> remaining + total <= u64::MAX
    }

    /// How many bytes come next.
    pub open spec fn spec_wants(self) -> nat {
        match self {
            StreamReader::Header => HEADER_SIZE as nat,
            StreamReader::Complaint(n) => n as nat,
            StreamReader::Data { remaining, .. } => piece_len(remaining as nat),
        }
    }

    /// What the next bytes make of the stream, and what they are.
    pub open spec fn spec_taken(self, bytes: Seq<u8>) -> Result<(StreamReader, Piece), ErrorView> {
        match self {
            StreamReader::Header => match protocol::header_of(bytes) {
                Ok((status, data_len)) => if status == ResponseStatus::Success {
                    Ok((StreamReader::Data { remaining: data_len, total: 0 }, Piece::Talk))
                } else if data_len > 0 {
                    Ok((StreamReader::Complaint(data_len), Piece::Talk))
                } else {
                    Err(ErrorView::Remote(wire::lossy_text(Seq::empty())))
                },
                Err(e) => Err(e),
            },
            StreamReader::Complaint(_) => Err(ErrorView::Remote(wire::lossy_text(bytes))),
            StreamReader::Data { remaining, total } => Ok(
                (
                    StreamReader::Data {
                        remaining: (remaining - bytes.len()) as u64,
                        total: (total + bytes.len()) as u64,
                    },
                    Piece::File,
                ),
            ),
        }
    }

    /// A stream of which nothing came yet.
    pub fn new() -> (r: Self)
        ensures
            r == StreamReader::Header,
    {
        StreamReader::Header
    }

    /// What the next bytes are, as long as the agent keeps to the protocol.
    pub fn brings(&self) -> (r: Piece)
        ensures
            forall|bytes: Seq<u8>|
                (#[trigger] self.spec_taken(bytes)) matches Ok((_, piece)) ==> r == piece,
            r == if self is Data {
                Piece::File
            } else {
                Piece::Talk
            },
    {
        match self {
            StreamReader::Data { .. } => Piece::File,
            _ => Piece::Talk,
        }
    }

    /// How many bytes to read next; none at the end of the stream.
    pub fn wants(&self) -> (r: u64)
        ensures
            r == self.spec_wants(),
    {
        match self {
            StreamReader::Header => HEADER_SIZE as u64,
            StreamReader::Complaint(n) => *n,
            StreamReader::Data { remaining, .. } => if *remaining < PIECE_SIZE {
                *remaining
            } else {
                PIECE_SIZE
            },
        }
    }

    /// Whether the whole range came.
    pub fn is_complete(&self) -> (r: bool)
        ensures
            r == (self matches StreamReader::Data { remaining, .. } && remaining == 0),
    {
        match self {
            StreamReader::Data { remaining, .. } => *remaining == 0,
            _ => false,
        }
    }

    /// How many bytes of the file came.
    pub fn total(&self) -> (r: u64)
        ensures
            r == match *self {
                StreamReader::Data { total, .. } => total,
                _ => 0,
            },
    {
        match self {
            StreamReader::Data { total, .. } => *total,
            _ => 0,
        }
    }

    /// Takes the bytes that came, and says whether they belong to the file.
    pub fn take(&mut self, bytes: &[u8]) -> (r: Result<Piece, StrawsError>)
        requires
            old(self).wf(),
            bytes@.len() == old(self).spec_wants(),
        ensures
            final(self).wf(),
            match r {
                Ok(piece) => old(self).spec_taken(bytes@) == Ok::<
                    (StreamReader, Piece),
                    ErrorView,
                >((*final(self), piece)),
                Err(e) => old(self).spec_taken(bytes@) == Err::<(StreamReader, Piece), ErrorView>(
                    e@,
                ) && *final(self) == *old(self),
            },
    {
        match *self {
            StreamReader::Header => match ResponseHeader::decode(bytes) {
                Ok(header) => match header.status {
                    ResponseStatus::Success => {
                        *self = StreamReader::Data { remaining: header.data_len, total: 0 };
                        Ok(Piece::Talk)
                    },
                    ResponseStatus::Error => {
                        if header.data_len > 0 {
                            *self = StreamReader::Complaint(header.data_len);
                            Ok(Piece::Talk)
                        } else {
                            let nothing: Vec<u8> = Vec::new();
                            proof {
                                assert(nothing@ =~= Seq::<u8>::empty());
                            }
                            Err(StrawsError::Remote(wire::lossy(nothing.as_slice())))
                        }
                    },
                },
                Err(e) => Err(e),
            },
            StreamReader::Complaint(_) => Err(StrawsError::Remote(wire::lossy(bytes))),
            StreamReader::Data { remaining, total } => {
                let n: u64 = bytes.len() as u64;
                *self = StreamReader::Data { remaining: remaining - n, total: total + n };
                Ok(Piece::File)
            },
        }
    }
}

/// The pieces that a reader in the middle of a file takes from a stream.
pub open spec fn file_pieces(remaining: nat, stream: Seq<u8>) -> Seq<Seq<u8>>
    decreases remaining,
{
    let n = piece_len(remaining);
    if n == 0 || stream.len() < n {
        Seq::empty()
    } else {
        seq![stream.take(n as int)] + file_pieces((remaining - n) as nat, stream.skip(n as int))
    }
}

proof fn lemma_run_first(first: Seq<u8>, others: Seq<Seq<u8>>)
    ensures
        chunks::run(seq![first] + others) == first + chunks::run(others),
    decreases others.len(),
{
    let all = seq![first] + others;
    if others.len() == 0 {
        assert(all =~= seq![first]);
        assert(all.drop_last() =~= Seq::<Seq<u8>>::empty());
        assert(chunks::run(all.drop_last()) =~= Seq::<u8>::empty());
        assert(chunks::run(all) =~= first);
        assert(first + chunks::run(others) =~= first);
    } else {
        assert(all.drop_last() =~= seq![first] + others.drop_last());
        lemma_run_first(first, others.drop_last());
        assert(chunks::run(all) =~= first + chunks::run(others));
    }
}

/// The pieces of a file that a reader takes from a stream make up the file, and the reader counts
/// them all.
pub proof fn lemma_stream_is_received(data: Seq<u8>, rest: Seq<u8>)
    ensures
        chunks::run(file_pieces(data.len(), data + rest)) == data,
    decreases data.len(),
{
    let n = piece_len(data.len());
    let s = data + rest;
    if data.len() == 0 {
        assert(chunks::run(file_pieces(0, s)) =~= data);
    } else {
        let tail = data.skip(n as int);
        lemma_stream_is_received(tail, rest);
        assert(s.take(n as int) =~= data.take(n as int));
        assert(s.skip(n as int) =~= tail + rest);
        lemma_run_first(data.take(n as int), file_pieces(tail.len(), tail + rest));
        assert(data.take(n as int) + tail =~= data);
    }
}

// ---------------------------------------------------------------------------
// Directories
// ---------------------------------------------------------------------------

/// The files of a directory while they come in.
#[derive(Debug, Clone, Copy, PartialEq, Eq, Structural)]
pub enum FindReader {
    /// The status comes next.
    Status,
    /// The length of a complaint comes next.
    ComplaintLen,
    /// So many bytes of a complaint come next.
    Complaint(u64),
    /// The length of a path comes next, or the mark behind the last file.
    PathLen,
    /// A path of so many bytes comes next, with the numbers of the file.
    Entry(u16),
    /// All files came.
    Complete,
}

impl FindReader {
    /// How many bytes come next.
    pub open spec fn spec_wants(self) -> nat {
        match self {
            FindReader::Status => 1,
            FindReader::ComplaintLen => 8,
            FindReader::Complaint(n) => n as nat,
            FindReader::PathLen => 2,
            FindReader::Entry(n) => n as nat + 20,
            FindReader::Complete => 0,
        }
    }

    /// What the next bytes make of the listing, and the file that they name: its path, in bytes,
    /// and its numbers.
    pub open spec fn spec_taken(self, bytes: Seq<u8>) -> Result<
        (FindReader, Option<(Seq<u8>, StatInfo)>),
        ErrorView,
    > {
        match self {
            FindReader::Status => Ok(
                (
                    if bytes[0] == 0 {
                        FindReader::PathLen
                    } else {
                        FindReader::ComplaintLen
                    },
                    None,
                ),
            ),
            FindReader::ComplaintLen => if wire::be_value(bytes) == 0 {
                Err(ErrorView::Remote(wire::lossy_text(Seq::empty())))
            } else {
                Ok((FindReader::Complaint(wire::be_value(bytes) as u64), None))
            },
            FindReader::Complaint(_) => Err(ErrorView::Remote(wire::lossy_text(bytes))),
            FindReader::PathLen => Ok(
                (
                    if wire::be_value(bytes) == 0 {
                        FindReader::Complete
                    } else {
                        FindReader::Entry(wire::be_value(bytes) as u16)
                    },
                    None,
                ),
            ),
            FindReader::Entry(n) => Ok(
                (
                    FindReader::PathLen,
                    Some((bytes.take(n as int), protocol::stat_of(bytes.skip(n as int)))),
                ),
            ),
            FindReader::Complete => Ok((self, None)),
        }
    }

    /// A listing of which nothing came yet.
    pub fn new() -> (r: Self)
        ensures
            r == FindReader::Status,
    {
        FindReader::Status
    }

    /// How many bytes to read next; none at the end of the listing.
    pub fn wants(&self) -> (r: u64)
        ensures
            r == self.spec_wants(),
    {
        match self {
            FindReader::Status => 1,
            FindReader::ComplaintLen => 8,
            FindReader::Complaint(n) => *n,
            FindReader::PathLen => 2,
            FindReader::Entry(n) => *n as u64 + 20,
            FindReader::Complete => 0,
        }
    }

    /// Whether all files came.
    pub fn is_complete(&self) -> (r: bool)
        ensures
            r == (*self == FindReader::Complete),
    {
        match self {
            FindReader::Complete => true,
            _ => false,
        }
    }

    /// Takes the bytes that came, and gives back the file that they name, if they name one.
    pub fn take(&mut self, bytes: &[u8]) -> (r: Result<Option<FindEntry>, StrawsError>)
        requires
            bytes@.len() == old(self).spec_wants(),
        ensures
            match old(self).spec_taken(bytes@) {
                Err(e) => r matches Err(x) && x@ == e && *final(self) == *old(self),
                Ok((next, None)) => *final(self) == next && r == Ok::<
                    Option<FindEntry>,
                    StrawsError,
                >(None),
                Ok((next, Some((path, stat)))) => {
                    &&& *final(self) == next
                    &&& r matches Ok(Some(entry))
                    &&& entry@ == (FindView { path: wire::lossy_text(path), stat, md5: None })
                },
            },
    {
        match *self {
            FindReader::Status => {
                *self = if bytes[0] == 0 {
                    FindReader::PathLen
                } else {
                    FindReader::ComplaintLen
                };
                Ok(None)
            },
            FindReader::ComplaintLen => {
                let n = wire::get_u64(bytes);
                proof {
                    assert(bytes@.take(8) =~= bytes@);
                }
                if n == 0 {
                    let nothing: Vec<u8> = Vec::new();
                    proof {
                        assert(nothing@ =~= Seq::<u8>::empty());
                    }
                    return Err(StrawsError::Remote(wire::lossy(nothing.as_slice())));
                }
                *self = FindReader::Complaint(n);
                Ok(None)
            },
            FindReader::Complaint(_) => Err(StrawsError::Remote(wire::lossy(bytes))),
            FindReader::PathLen => {
                let n = wire::get_u16(bytes);
                proof {
                    assert(bytes@.take(2) =~= bytes@);
                }
                *self = if n == 0 {
                    FindReader::Complete
                } else {
                    FindReader::Entry(n)
                };
                Ok(None)
            },
            FindReader::Entry(n) => {
                let total: usize = bytes.len();
                let path = wire::lossy(slice_subrange(bytes, 0, n as usize));
                let stats = slice_subrange(bytes, n as usize, total);
                proof {
                    assert(bytes@.subrange(0, n as int) =~= bytes@.take(n as int));
                    assert(stats@ =~= bytes@.skip(n as int));
                }
                *self = FindReader::PathLen;
                Ok(Some(FindEntry::from_parts(path, stats)))
            },
            FindReader::Complete => Ok(None),
        }
    }
}

/// The files that a listing names, up to its end mark.
pub open spec fn listed(s: Seq<u8>) -> Seq<(Seq<u8>, StatInfo)>
    decreases s.len(),
{
    match protocol::entry_front(s) {
        EntryFront::Entry(path, stat, n) => if 0 < n <= s.len() {
            seq![(path, stat)] + listed(s.skip(n))
        } else {
            Seq::empty()
        },
        _ => Seq::empty(),
    }
}

/// A listing on the wire: its entries, and the end mark.
pub open spec fn listing_bytes(entries: Seq<(Seq<u8>, StatInfo)>) -> Seq<u8>
    decreases entries.len(),
{
    if entries.len() == 0 {
        wire::be_bytes(0, 2)
    } else {
        protocol::entry_bytes(entries.first().0, entries.first().1) + listing_bytes(
            entries.drop_first(),
        )
    }
}

proof fn lemma_in_front(a: Seq<u8>, b: Seq<u8>, c: Seq<u8>)
    ensures
        a + b + c == a + (b + c),
        (a + b + c).skip(a.len() as int) == b + c,
{
    assert(a + b + c =~= a + (b + c));
    assert((a + b + c).skip(a.len() as int) =~= b + c);
}

/// A listing names the files that were put into it, in order, whatever follows it.
pub proof fn lemma_listing_is_understood(entries: Seq<(Seq<u8>, StatInfo)>, rest: Seq<u8>)
    requires
        forall|i: int| 0 <= i < entries.len() ==> 0 < (#[trigger] entries[i]).0.len() < 65536,
    ensures
        listed(listing_bytes(entries) + rest) == entries,
    decreases entries.len(),
{
    if entries.len() == 0 {
        let s = listing_bytes(entries) + rest;
        wire::lemma_be_limits();
        wire::lemma_be_value_of_bytes(0, 2);
        assert(s.subrange(0, 2) =~= wire::be_bytes(0, 2));
        assert(listed(s) =~= entries);
    } else {
        let (path, stat) = entries[0];
        let tail = entries.drop_first();
        assert forall|i: int| 0 <= i < tail.len() implies 0 < (#[trigger] tail[i]).0.len()
            < 65536 by {
            assert(tail[i] == entries[i + 1]);
        }
        lemma_listing_is_understood(tail, rest);
        let front = protocol::entry_bytes(path, stat);
        let behind = listing_bytes(tail) + rest;
        protocol::lemma_entry_is_understood(path, stat, behind);
        lemma_in_front(front, listing_bytes(tail), rest);
        assert(front.len() > 0) by {
            assert(path.len() <= front.len());
        }
        assert(seq![(path, stat)] + tail =~= entries);
    }
}

/// A reader of a listing takes entry by entry what stands at the front of the stream: the length of
/// a path, then the path and the numbers.
pub proof fn lemma_reader_follows_the_listing(s: Seq<u8>)
    requires
        s.len() >= 2,
    ensures
        match protocol::entry_front(s) {
            EntryFront::End => FindReader::PathLen.spec_taken(s.take(2)) == Ok::<
                (FindReader, Option<(Seq<u8>, StatInfo)>),
                ErrorView,
            >((FindReader::Complete, None)),
            EntryFront::Entry(path, stat, n) => {
                let entry = FindReader::Entry((n - 22) as u16);
                &&& FindReader::PathLen.spec_taken(s.take(2)) == Ok::<
                    (FindReader, Option<(Seq<u8>, StatInfo)>),
                    ErrorView,
                >((entry, None))
                &&& 2 + entry.spec_wants() == n
                &&& entry.spec_taken(s.subrange(2, n)) == Ok::<
                    (FindReader, Option<(Seq<u8>, StatInfo)>),
                    ErrorView,
                >((FindReader::PathLen, Some((path, stat))))
            },
            EntryFront::Short(_) => true,
        },
{
    assert(s.take(2) =~= s.subrange(0, 2));
    wire::lemma_be_limits();
    let n = wire::be_value(s.take(2)) as int;
    assert(n < 65536) by {
        wire::lemma_be_bytes_of_value(s.take(2));
    }
    if n > 0 && s.len() >= n + 22 {
        let e = s.subrange(2, n + 22);
        assert(e.take(n) =~= s.subrange(2, 2 + n));
        let a = e.skip(n);
        let b = s.skip(2 + n);
        assert(a.subrange(0, 8) =~= b.subrange(0, 8));
        assert(a.subrange(8, 12) =~= b.subrange(8, 12));
        assert(a.subrange(12, 20) =~= b.subrange(12, 20));
    }
}

// ---------------------------------------------------------------------------
// Laws: failures of the conversation
// ---------------------------------------------------------------------------

/// What an agent complains about reaches the user, whether a file was read or a directory listed,
/// and nothing is taken for part of the file or for an entry before.
pub proof fn lemma_complaints_are_handed_on(message: Seq<u8>)
    requires
        message.len() <= u64::MAX,
    ensures
        ({
            let header = protocol::header_bytes(ResponseStatus::Error, message.len() as u64);
            let told = ErrorView::Remote(wire::lossy_text(message));
            let n = message.len() as u64;
            &&& message.len() > 0 ==> StreamReader::Header.spec_taken(header) == Ok::<
                (StreamReader, Piece),
                ErrorView,
            >((StreamReader::Complaint(n), Piece::Talk)) && StreamReader::Complaint(n).spec_wants()
                == message.len() && StreamReader::Complaint(n).spec_taken(message) == Err::<
                (StreamReader, Piece),
                ErrorView,
            >(told)
            &&& message.len() == 0 ==> StreamReader::Header.spec_taken(header) == Err::<
                (StreamReader, Piece),
                ErrorView,
            >(told)
            &&& FindReader::Status.spec_taken(header.take(1)) == Ok::<
                (FindReader, Option<(Seq<u8>, StatInfo)>),
                ErrorView,
            >((FindReader::ComplaintLen, None))
            &&& message.len() > 0 ==> FindReader::ComplaintLen.spec_taken(header.skip(1)) == Ok::<
                (FindReader, Option<(Seq<u8>, StatInfo)>),
                ErrorView,
            >((FindReader::Complaint(n), None)) && FindReader::Complaint(n).spec_taken(message)
                == Err::<(FindReader, Option<(Seq<u8>, StatInfo)>), ErrorView>(told)
            &&& message.len() == 0 ==> FindReader::ComplaintLen.spec_taken(header.skip(1)) == Err::<
                (FindReader, Option<(Seq<u8>, StatInfo)>),
                ErrorView,
            >(told)
        }),
{
    let n = message.len() as u64;
    let header = protocol::header_bytes(ResponseStatus::Error, n);
    protocol::lemma_header_is_understood(ResponseStatus::Error, n, Seq::empty());
    assert(header + Seq::<u8>::empty() =~= header);
    wire::lemma_be_limits();
    wire::lemma_be_value_of_bytes(n as nat, 8);
    assert(header.skip(1) =~= wire::be_bytes(n as nat, 8));
    if message.len() == 0 {
        assert(message =~= Seq::<u8>::empty());
    }
}

/// A file that is received: after a header that announces so many bytes, exactly so many are taken
/// for the file, never more at a time than there are left, and the reader is done when none is left.
pub proof fn lemma_stream_takes_what_was_announced(
    n: u64,
    remaining: u64,
    total: u64,
    bytes: Seq<u8>,
    reader: &StreamReader,
    complete: bool,
    wants: u64,
    count: u64,
)
    requires
        *reader == (StreamReader::Data { remaining, total }),
        remaining + total == n,
        bytes.len() == reader.spec_wants(),
        call_ensures(StreamReader::is_complete, (reader,), complete),
        call_ensures(StreamReader::wants, (reader,), wants),
        call_ensures(StreamReader::total, (reader,), count),
    ensures
        StreamReader::Header.spec_taken(protocol::header_bytes(ResponseStatus::Success, n)) == Ok::<
            (StreamReader, Piece),
            ErrorView,
        >((StreamReader::Data { remaining: n, total: 0 }, Piece::Talk)),
        complete <==> remaining == 0,
        complete ==> count == n,
        count == total,
        wants <= remaining,
        wants > 0 || complete,
        reader.spec_taken(bytes) == Ok::<(StreamReader, Piece), ErrorView>(
            (
                StreamReader::Data {
                    remaining: (remaining - wants) as u64,
                    total: (total + wants) as u64,
                },
                Piece::File,
            ),
        ),
{
    protocol::lemma_header_is_understood(ResponseStatus::Success, n, Seq::empty());
    let header = protocol::header_bytes(ResponseStatus::Success, n);
    assert(header + Seq::<u8>::empty() =~= header);
}

/// What a pipe that fails means: a connection that is lost, a stall, or a failure of reading and
/// writing; the first two are blamed on the agent and tried again, the last is not.
pub proof fn lemma_pipe_faults(f: PipeFault, r: StrawsError)
    requires
        call_ensures(pipe_error, (f,), r),
    ensures
        f is NoStdin || f is NoStdout ==> r@ is Connection,
        f is TimedOut ==> r@ == ErrorView::Stall(30),
        f matches PipeFault::Failed(m) ==> r@ == ErrorView::Io(m@),
        error::agent_failure(r@) <==> !(f is Failed),
        error::retryable(r@) <==> !(f is Failed),
{
}

} // verus!
