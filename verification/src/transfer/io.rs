//! Digests of byte ranges.

use md5::Digest;
use md5::Md5;
use vstd::prelude::*;

use crate::error::{ErrorView, StrawsError};
use crate::job::chunks;
use crate::text;

verus! {

/// How many bytes of a file are read at a time: 512 KiB.
pub const IO_BUFFER_SIZE: usize = 524_288;

// ---------------------------------------------------------------------------
// The hasher
// ---------------------------------------------------------------------------

/// The state of an MD5 computation.
#[verifier::external_type_specification]
#[verifier::external_body]
pub struct ExMd5(md5::Md5);

/// The bytes that a hasher was given, in order.
pub uninterp spec fn hashed(hasher: Md5) -> Seq<u8>;

/// The MD5 digest of bytes.
pub uninterp spec fn md5_digest(bytes: Seq<u8>) -> Seq<u8>;

/// `Md5::new`: a hasher that was given nothing.
#[verifier::external_body]
fn new_hasher() -> (r: Md5)
    ensures
        hashed(r) == Seq::<u8>::empty(),
{
    Md5::new()
}

/// `Digest::update`: the bytes go behind those that the hasher was given before.
#[verifier::external_body]
fn update_hasher(hasher: &mut Md5, bytes: &[u8])
    ensures
        hashed(*final(hasher)) == hashed(*old(hasher)) + bytes@,
{
    hasher.update(bytes)
}

/// `Digest::finalize`: the digest of all that the hasher was given. It depends on those bytes
/// alone, and is sixteen bytes long.
#[verifier::external_body]
fn finish_hasher(hasher: Md5) -> (r: Vec<u8>)
    ensures
        r@ == md5_digest(hashed(hasher)),
        r@.len() == 16,
{
    hasher.finalize().to_vec()
}

// ---------------------------------------------------------------------------
// Digests as text
// ---------------------------------------------------------------------------

/// The lower-case hexadecimal digit of a number below sixteen.
pub open spec fn hex_char(d: nat) -> char {
    if d < 10 {
        text::digit_char(d)
    } else {
        (('a' as u32) + (d - 10)) as char
    }
}

/// Bytes in lower-case hexadecimal, two digits each.
pub open spec fn hex_text(bytes: Seq<u8>) -> Seq<char> {
    Seq::new(
        2 * bytes.len(),
        |i: int|
            if i % 2 == 0 {
                hex_char((bytes[i / 2] / 16) as nat)
            } else {
                hex_char((bytes[i / 2] % 16) as nat)
            },
    )
}

fn hex_digit(d: u8) -> (c: char)
    requires
        d < 16,
    ensures
        c == hex_char(d as nat),
{
    if d < 10 {
        (48 + d) as char
    } else {
        (97 + (d - 10)) as char
    }
}

/// Bytes in lower-case hexadecimal, two digits each.
pub fn hex(bytes: &[u8]) -> (r: String)
    ensures
        r@ == hex_text(bytes@),
{
    let mut v: Vec<char> = Vec::new();
    let mut i: usize = 0;
    while i < bytes.len()
        invariant
            i <= bytes@.len(),
            v@ == hex_text(bytes@.take(i as int)),
        decreases bytes@.len() - i,
    {
        let b: u8 = bytes[i];
        let ghost before = v@;
        v.push(hex_digit(b / 16));
        v.push(hex_digit(b % 16));
        proof {
            let t = bytes@.take(i + 1);
            assert forall|k: int| 0 <= k < v@.len() implies v@[k] == hex_text(t)[k] by {
                if k < 2 * i {
                    assert(before[k] == hex_text(bytes@.take(i as int))[k]);
                    assert(bytes@.take(i as int)[k / 2] == t[k / 2]);
                } else {
                    assert(k / 2 == i);
                    assert(t[i as int] == b);
                }
            }
            assert(v@ =~= hex_text(t));
        }
        i = i + 1;
    }
    proof {
        assert(bytes@.take(i as int) =~= bytes@);
    }
    text::text_of(&v)
}

// ---------------------------------------------------------------------------
// The digest of a range
// ---------------------------------------------------------------------------

/// The digest of a range of a file, while its bytes come in.
pub struct RangeDigest {
    hasher: Md5,
    remaining: u64,
}

impl RangeDigest {
    /// The bytes that came in.
    pub closed spec fn taken(self) -> Seq<u8> {
        hashed(self.hasher)
    }

    /// How many bytes are still to come.
    pub closed spec fn left(self) -> u64 {
        self.remaining
    }

    /// The digest of a range of so many bytes, of which none came in yet.
    pub fn new(length: u64) -> (r: Self)
        ensures
            r.taken() == Seq::<u8>::empty(),
            r.left() == length,
    {
        RangeDigest { hasher: new_hasher(), remaining: length }
    }

    /// How many bytes to read next, at most; zero at the end of the range.
    pub fn wants(&self) -> (r: usize)
        ensures
            r == if self.left() < IO_BUFFER_SIZE {
                self.left()
            } else {
                IO_BUFFER_SIZE as u64
            },
    {
        if self.remaining < IO_BUFFER_SIZE as u64 {
            self.remaining as usize
        } else {
            IO_BUFFER_SIZE
        }
    }

    /// Takes the bytes that were read.
    pub fn take(&mut self, bytes: &[u8])
        requires
            bytes@.len() <= old(self).left(),
        ensures
            final(self).taken() == old(self).taken() + bytes@,
            final(self).left() == old(self).left() - bytes@.len(),
    {
        update_hasher(&mut self.hasher, bytes);
        self.remaining = self.remaining - bytes.len() as u64;
    }

    /// The digest of the bytes that came in, as text.
    pub fn finish(self) -> (r: String)
        ensures
            r@ == hex_text(md5_digest(self.taken())),
            r@.len() == 32,
    {
        hex(finish_hasher(self.hasher).as_slice())
    }
}

/// What came in after pieces were taken, one after the other.
pub open spec fn taken_after(taken: Seq<u8>, pieces: Seq<Seq<u8>>) -> Seq<u8>
    decreases pieces.len(),
{
    if pieces.len() == 0 {
        taken
    } else {
        taken_after(taken, pieces.drop_last()) + pieces.last()
    }
}

proof fn lemma_taken_is_the_run(pieces: Seq<Seq<u8>>)
    ensures
        taken_after(Seq::<u8>::empty(), pieces) == chunks::run(pieces),
    decreases pieces.len(),
{
    if pieces.len() > 0 {
        lemma_taken_is_the_run(pieces.drop_last());
    }
}

/// The digest of a range does not depend on the pieces that it is read in.
pub proof fn lemma_digest_ignores_the_pieces(a: Seq<Seq<u8>>, b: Seq<Seq<u8>>)
    requires
        chunks::run(a) == chunks::run(b),
    ensures
        hex_text(md5_digest(taken_after(Seq::<u8>::empty(), a))) == hex_text(
            md5_digest(taken_after(Seq::<u8>::empty(), b)),
        ),
{
    lemma_taken_is_the_run(a);
    lemma_taken_is_the_run(b);
}

/// Different bytes are written differently in hexadecimal.
pub proof fn lemma_hex_tells_apart(a: Seq<u8>, b: Seq<u8>)
    requires
        hex_text(a) == hex_text(b),
    ensures
        a == b,
{
    assert(hex_text(a).len() == 2 * a.len());
    assert(hex_text(b).len() == 2 * b.len());
    assert forall|i: int| 0 <= i < a.len() implies a[i] == b[i] by {
        let x = hex_text(a);
        let y = hex_text(b);
        assert(x[2 * i] == y[2 * i]);
        assert(x[2 * i + 1] == y[2 * i + 1]);
        assert((2 * i) / 2 == i && (2 * i + 1) / 2 == i);
        assert(a[i] / 16 == b[i] / 16);
        assert(a[i] % 16 == b[i] % 16);
    }
    assert(a =~= b);
}

/// Where the agent reports the digest of the remote range, the two sides are found to agree exactly
/// if the digests of the two ranges are the same.
pub proof fn lemma_comparison_is_of_digests(path: Seq<char>, local: Seq<u8>, remote: Seq<u8>)
    ensures
        digest_outcome(path, hex_text(md5_digest(local)), hex_text(md5_digest(remote))) is Ok
            <==> md5_digest(local) == md5_digest(remote),
        digest_outcome(path, hex_text(md5_digest(remote)), hex_text(md5_digest(local))) is Ok
            <==> md5_digest(local) == md5_digest(remote),
{
    if hex_text(md5_digest(local)) == hex_text(md5_digest(remote)) {
        lemma_hex_tells_apart(md5_digest(local), md5_digest(remote));
    }
}

// ---------------------------------------------------------------------------
// Comparing the two sides
// ---------------------------------------------------------------------------

/// What the comparison of two digests of a file makes: nothing, or a failure.
pub open spec fn digest_outcome(
    path: Seq<char>,
    expected: Seq<char>,
    actual: Seq<char>,
) -> Result<(), ErrorView> {
    if expected == actual {
        Ok(())
    } else {
        Err(ErrorView::Md5Mismatch { path, expected, actual })
    }
}

/// Compares two digests of a file.
pub fn compare_digests(path: &str, expected: &str, actual: &str) -> (r: Result<(), StrawsError>)
    ensures
        match r {
            Ok(_) => digest_outcome(path@, expected@, actual@) == Ok::<(), ErrorView>(()),
            Err(e) => digest_outcome(path@, expected@, actual@) == Err::<(), ErrorView>(e@),
        },
{
    if text::same_text(expected, actual) {
        Ok(())
    } else {
        Err(
            StrawsError::Md5Mismatch {
                path: path.to_owned(),
                expected: expected.to_owned(),
                actual: actual.to_owned(),
            },
        )
    }
}

/// A range is read to its end, no further, and in pieces of 512 KiB at most; its digest is that of
/// the bytes that came in, two digits for each of its sixteen bytes.
pub proof fn lemma_range_is_read_to_its_end(
    d: &RangeDigest,
    wants: usize,
    a: &mut RangeDigest,
    bytes: &[u8],
    last: RangeDigest,
    text: String,
)
    requires
        bytes@.len() <= old(a).left(),
        call_ensures(RangeDigest::wants, (d,), wants),
        call_ensures(RangeDigest::take, (a, bytes), ()),
        call_ensures(RangeDigest::finish, (last,), text),
    ensures
        wants <= d.left() && wants <= 524_288,
        wants == 0 <==> d.left() == 0,
        d.left() >= 524_288 ==> wants == 524_288,
        d.left() < 524_288 ==> wants == d.left(),
        final(a).left() + bytes@.len() == old(a).left(),
        final(a).taken() == old(a).taken() + bytes@,
        text@.len() == 32,
        forall|i: int|
            0 <= i < 32 ==> ('0' <= #[trigger] text@[i] <= '9') || ('a' <= text@[i] <= 'f'),
{
    assert forall|i: int| 0 <= i < 32 implies ('0' <= #[trigger] text@[i] <= '9') || ('a'
        <= text@[i] <= 'f') by {
        let b = md5_digest(last.taken());
        assert(text@[i] == hex_text(b)[i]);
    }
}

/// Two digits of hexadecimal stand for one byte, the higher half first.
pub proof fn lemma_hex_is_sixteens(bytes: Seq<u8>, i: int)
    requires
        0 <= i < bytes.len(),
    ensures
        hex_text(bytes).len() == 2 * bytes.len(),
        bytes[i] == 16 * hex_value(hex_text(bytes)[2 * i]) + hex_value(hex_text(bytes)[2 * i + 1]),
{
    assert((2 * i) / 2 == i && (2 * i + 1) / 2 == i);
    assert((2 * i) % 2 == 0 && (2 * i + 1) % 2 == 1);
}

/// The number that a lower-case hexadecimal digit stands for.
pub open spec fn hex_value(c: char) -> int {
    if '0' <= c <= '9' {
        c as u32 - '0' as u32
    } else {
        c as u32 - 'a' as u32 + 10
    }
}

/// Two digests are found to agree exactly if they are the same; else both are named, the one that
/// was expected first.
pub proof fn lemma_digests_are_compared(
    path: &str,
    expected: &str,
    actual: &str,
    r: Result<(), StrawsError>,
)
    requires
        call_ensures(compare_digests, (path, expected, actual), r),
    ensures
        r is Ok <==> expected@ == actual@,
        r is Err ==> r->Err_0@ == (ErrorView::Md5Mismatch {
            path: path@,
            expected: expected@,
            actual: actual@,
        }),
{
}

} // verus!
