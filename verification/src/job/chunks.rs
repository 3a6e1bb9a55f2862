//! How a file is cut into chunks, and how its bytes come together again.

use vstd::arithmetic::div_mod::*;
use vstd::arithmetic::mul::*;
use vstd::prelude::*;

verus! {

/// Whether a file is large: it is longer than a chunk, and there is more than one agent.
pub open spec fn large(size: u64, chunk_size: u64, tunnels: usize) -> bool {
    size > chunk_size && tunnels > 1
}

/// Whether a file is cut: it is large, and its chunks can be counted with 32 bits.
pub open spec fn cut(size: u64, chunk_size: u64, tunnels: usize) -> bool {
    large(size, chunk_size, tunnels) && chunk_number(size as nat, chunk_size as nat) <= u32::MAX
}

/// How many chunks cover a file.
pub open spec fn chunk_number(size: nat, chunk_size: nat) -> nat {
    (size + chunk_size - 1) as nat / chunk_size
}

/// Where chunk `i` begins.
pub open spec fn chunk_offset(i: nat, chunk_size: nat) -> nat {
    i * chunk_size
}

/// How long chunk `i` is: a full chunk, or what is left of the file.
pub open spec fn chunk_length(i: nat, size: nat, chunk_size: nat) -> nat {
    if size <= i * chunk_size {
        0
    } else if size - i * chunk_size < chunk_size {
        (size - i * chunk_size) as nat
    } else {
        chunk_size
    }
}

/// A position lies in chunk `i`.
pub open spec fn in_chunk(p: int, i: nat, size: nat, chunk_size: nat) -> bool {
    chunk_offset(i, chunk_size) <= p < chunk_offset(i, chunk_size) + chunk_length(
        i,
        size,
        chunk_size,
    )
}

/// Whether a file is large.
pub fn is_large(size: u64, chunk_size: u64, tunnels: usize) -> (r: bool)
    ensures
        r == large(size, chunk_size, tunnels),
{
    size > chunk_size && tunnels > 1
}

/// Whether a file is cut.
pub fn should_chunk(size: u64, chunk_size: u64, tunnels: usize) -> (r: bool)
    requires
        chunk_size > 0,
    ensures
        r == cut(size, chunk_size, tunnels),
{
    let most: u128 = u32::MAX as u128;
    proof {
        lemma_number_is_bounded(size as nat, chunk_size as nat, u32::MAX as nat);
        assert(chunk_size * most <= u128::MAX) by (nonlinear_arith)
            requires
                chunk_size <= u64::MAX,
                most == u32::MAX,
        ;
    }
    is_large(size, chunk_size, tunnels) && size as u128 <= chunk_size as u128 * most
}

/// So many chunks are enough for a file exactly if they are together as long as it.
pub proof fn lemma_number_is_bounded(size: nat, chunk_size: nat, most: nat)
    requires
        chunk_size > 0,
    ensures
        chunk_number(size, chunk_size) <= most <==> size <= chunk_size * most,
{
    let n = chunk_number(size, chunk_size);
    lemma_fundamental_div_mod((size + chunk_size - 1) as int, chunk_size as int);
    if n <= most {
        lemma_mul_inequality(n as int, most as int, chunk_size as int);
        lemma_mul_is_commutative(n as int, chunk_size as int);
        lemma_mul_is_commutative(most as int, chunk_size as int);
    } else {
        lemma_mul_inequality(most as int + 1, n as int, chunk_size as int);
        lemma_mul_is_commutative(n as int, chunk_size as int);
        assert((most + 1) * chunk_size == chunk_size * most + chunk_size) by (nonlinear_arith);
    }
}

/// How many chunks cover a file. The count has 32 bits; what does not fit is lost, so that a file
/// with more chunks is not cut.
pub fn count_chunks(size: u64, chunk_size: u64) -> (r: u32)
    requires
        chunk_size > 0,
        size + chunk_size - 1 <= u64::MAX,
    ensures
        r == chunk_number(size as nat, chunk_size as nat) % 0x1_0000_0000,
{
    let n: u64 = (size + (chunk_size - 1)) / chunk_size;
    (n % 0x1_0000_0000) as u32
}

/// Chunks that are counted lie within the file.
pub proof fn lemma_chunk_is_within(i: nat, size: nat, chunk_size: nat)
    requires
        chunk_size > 0,
        i < chunk_number(size, chunk_size),
    ensures
        chunk_offset(i, chunk_size) < size,
        0 < chunk_length(i, size, chunk_size) <= chunk_size,
        chunk_offset(i, chunk_size) + chunk_length(i, size, chunk_size) <= size,
{
    let n = chunk_number(size, chunk_size);
    assert(n * chunk_size <= size + chunk_size - 1) by {
        lemma_fundamental_div_mod((size + chunk_size - 1) as int, chunk_size as int);
        lemma_mul_is_commutative(n as int, chunk_size as int);
    }
    assert((i + 1) * chunk_size <= n * chunk_size) by {
        lemma_mul_inequality(i as int + 1, n as int, chunk_size as int);
    }
    assert((i + 1) * chunk_size == i * chunk_size + chunk_size) by (nonlinear_arith);
}

/// The chunks of a file lie side by side: every byte of the file is in one chunk, the one that its
/// position divided by the chunk size gives, and in no other.
pub proof fn lemma_chunks_tile(p: int, size: nat, chunk_size: nat)
    requires
        chunk_size > 0,
        0 <= p < size,
    ensures
        p / (chunk_size as int) < chunk_number(size, chunk_size),
        in_chunk(p, (p / chunk_size as int) as nat, size, chunk_size),
        forall|i: nat| #[trigger]
            in_chunk(p, i, size, chunk_size) ==> i == p / chunk_size as int,
{
    let cs = chunk_size as int;
    let k = p / cs;
    lemma_fundamental_div_mod(p, cs);
    lemma_mul_is_commutative(k, cs);
    assert(0 <= k) by {
        lemma_div_pos_is_pos(p, cs);
    }
    assert(k * cs <= p < k * cs + cs);
    assert((k + 1) * cs == k * cs + cs) by (nonlinear_arith);
    assert(k + 1 <= chunk_number(size, chunk_size)) by {
        assert((k + 1) * cs <= size + cs - 1);
        lemma_div_is_ordered((k + 1) * cs, size + cs - 1, cs);
        lemma_div_by_multiple(k + 1, cs);
    }
    assert forall|i: nat| #[trigger] in_chunk(p, i, size, chunk_size) implies i == k by {
        let a = i as int;
        assert(a * cs <= p < a * cs + cs);
        if a < k {
            lemma_mul_inequality(a + 1, k, cs);
            assert((a + 1) * cs == a * cs + cs) by (nonlinear_arith);
        }
        if a > k {
            lemma_mul_inequality(k + 1, a, cs);
        }
    }
}

/// The lengths of the first `n` chunks together.
pub open spec fn lengths(n: nat, size: nat, chunk_size: nat) -> nat
    decreases n,
{
    if n == 0 {
        0
    } else {
        lengths((n - 1) as nat, size, chunk_size) + chunk_length((n - 1) as nat, size, chunk_size)
    }
}

proof fn lemma_lengths(n: nat, size: nat, chunk_size: nat)
    requires
        chunk_size > 0,
        n <= chunk_number(size, chunk_size),
    ensures
        lengths(n, size, chunk_size) == if n * chunk_size < size {
            n * chunk_size
        } else {
            size
        },
    decreases n,
{
    if n > 0 {
        let m = (n - 1) as nat;
        lemma_lengths(m, size, chunk_size);
        lemma_chunk_is_within(m, size, chunk_size);
        assert(n * chunk_size == m * chunk_size + chunk_size) by (nonlinear_arith)
            requires
                n == m + 1,
        ;
    } else {
        assert(0 * chunk_size == 0);
    }
}

/// The chunks of a file together are as long as the file.
pub proof fn lemma_chunks_are_as_long_as_the_file(size: nat, chunk_size: nat)
    requires
        chunk_size > 0,
    ensures
        lengths(chunk_number(size, chunk_size), size, chunk_size) == size,
{
    let n = chunk_number(size, chunk_size);
    lemma_lengths(n, size, chunk_size);
    lemma_fundamental_div_mod((size + chunk_size - 1) as int, chunk_size as int);
    lemma_mul_is_commutative(n as int, chunk_size as int);
}

// ---------------------------------------------------------------------------
// The bytes of a file
// ---------------------------------------------------------------------------

/// A file after `data` was written at `offset`. A gap in front of the data is filled with zeros.
pub open spec fn placed(file: Seq<u8>, offset: nat, data: Seq<u8>) -> Seq<u8> {
    if data.len() == 0 {
        file
    } else {
        Seq::new(
            if file.len() < offset + data.len() {
                offset + data.len()
            } else {
                file.len()
            },
            |p: int|
                if offset <= p < offset + data.len() {
                    data[p - offset]
                } else if p < file.len() {
                    file[p]
                } else {
                    0
                },
        )
    }
}

/// Pieces, one behind the other.
pub open spec fn run(pieces: Seq<Seq<u8>>) -> Seq<u8>
    decreases pieces.len(),
{
    if pieces.len() == 0 {
        Seq::empty()
    } else {
        run(pieces.drop_last()) + pieces.last()
    }
}

/// A file after pieces were written one behind the other, the first at `offset`.
pub open spec fn placed_run(file: Seq<u8>, offset: nat, pieces: Seq<Seq<u8>>) -> Seq<u8>
    decreases pieces.len(),
{
    if pieces.len() == 0 {
        file
    } else {
        placed(
            placed_run(file, offset, pieces.drop_last()),
            offset + run(pieces.drop_last()).len(),
            pieces.last(),
        )
    }
}

/// It makes no difference into which pieces a range is cut when it is written.
pub proof fn lemma_pieces_make_the_range(file: Seq<u8>, offset: nat, pieces: Seq<Seq<u8>>)
    ensures
        placed_run(file, offset, pieces) == placed(file, offset, run(pieces)),
    decreases pieces.len(),
{
    if pieces.len() > 0 {
        let front = pieces.drop_last();
        lemma_pieces_make_the_range(file, offset, front);
        let a = run(front);
        let b = pieces.last();
        if b.len() == 0 {
            assert(a + b =~= a);
        } else if a.len() == 0 {
            assert(a + b =~= b);
        } else {
            assert(placed(placed(file, offset, a), offset + a.len(), b) =~= placed(
                file,
                offset,
                a + b,
            ));
        }
    }
}

/// The bytes of chunk `i` of a file.
pub open spec fn chunk_of(content: Seq<u8>, i: nat, chunk_size: nat) -> Seq<u8> {
    content.subrange(
        chunk_offset(i, chunk_size) as int,
        (chunk_offset(i, chunk_size) + chunk_length(i, content.len(), chunk_size)) as int,
    )
}

/// A file after chunks of `content` were written to it, in the order given.
pub open spec fn assembled(
    file: Seq<u8>,
    content: Seq<u8>,
    chunk_size: nat,
    order: Seq<nat>,
) -> Seq<u8>
    decreases order.len(),
{
    if order.len() == 0 {
        file
    } else {
        placed(
            assembled(file, content, chunk_size, order.drop_last()),
            chunk_offset(order.last(), chunk_size),
            chunk_of(content, order.last(), chunk_size),
        )
    }
}

proof fn lemma_assembled(file: Seq<u8>, content: Seq<u8>, chunk_size: nat, order: Seq<nat>)
    requires
        chunk_size > 0,
        file.len() <= content.len(),
        forall|k: int|
            0 <= k < order.len() ==> #[trigger] order[k] < chunk_number(content.len(), chunk_size),
    ensures
        assembled(file, content, chunk_size, order).len() <= content.len(),
        forall|k: int, p: int|
            0 <= k < order.len() && #[trigger] in_chunk(p, order[k], content.len(), chunk_size)
                ==> p < assembled(file, content, chunk_size, order).len() && assembled(
                file,
                content,
                chunk_size,
                order,
            )[p] == content[p],
    decreases order.len(),
{
    if order.len() > 0 {
        let front = order.drop_last();
        let i = order.last();
        assert forall|k: int| 0 <= k < front.len() implies #[trigger] front[k] < chunk_number(
            content.len(),
            chunk_size,
        ) by {
            assert(front[k] == order[k]);
        }
        lemma_assembled(file, content, chunk_size, front);
        assert(order[order.len() - 1] == i);
        lemma_chunk_is_within(i, content.len(), chunk_size);
        let before = assembled(file, content, chunk_size, front);
        let after = assembled(file, content, chunk_size, order);
        assert forall|k: int, p: int|
            0 <= k < order.len() && #[trigger] in_chunk(
                p,
                order[k],
                content.len(),
                chunk_size,
            ) implies p < after.len() && after[p] == content[p] by {
            if k < front.len() {
                assert(in_chunk(p, front[k], content.len(), chunk_size));
                assert(0 <= p) by {
                    assert(chunk_offset(order[k], chunk_size) >= 0);
                }
            }
        }
    }
}

/// Once every chunk was written, the file is whole: in whatever order the chunks came, and however
/// often one of them was tried again.
pub proof fn lemma_chunks_make_the_file(
    file: Seq<u8>,
    content: Seq<u8>,
    chunk_size: nat,
    order: Seq<nat>,
)
    requires
        chunk_size > 0,
        file.len() <= content.len(),
        forall|k: int|
            0 <= k < order.len() ==> #[trigger] order[k] < chunk_number(content.len(), chunk_size),
        forall|i: nat|
            i < chunk_number(content.len(), chunk_size) ==> #[trigger] order.contains(i),
    ensures
        assembled(file, content, chunk_size, order) == content,
{
    let n = content.len();
    let whole = assembled(file, content, chunk_size, order);
    lemma_assembled(file, content, chunk_size, order);
    assert forall|p: int| 0 <= p < n implies p < whole.len() && whole[p] == content[p] by {
        lemma_chunks_tile(p, n, chunk_size);
        let i = (p / chunk_size as int) as nat;
        assert(order.contains(i));
        let k = choose|k: int| 0 <= k < order.len() && order[k] == i;
        assert(in_chunk(p, order[k], n, chunk_size));
    }
    if n > 0 {
        assert(whole[n - 1] == content[n - 1]);
    }
    assert(whole =~= content);
}

/// A file is cut exactly if it is longer than a chunk, more than one connection is there to take the
/// chunks, and they can be counted; and it makes the fewest chunks that hold it.
pub proof fn lemma_long_files_are_cut(
    size: u64,
    chunk_size: u64,
    tunnels: usize,
    long: bool,
    r: bool,
    n: u32,
)
    requires
        chunk_size > 0,
        size + chunk_size - 1 <= u64::MAX,
        call_ensures(is_large, (size, chunk_size, tunnels), long),
        call_ensures(should_chunk, (size, chunk_size, tunnels), r),
        call_ensures(count_chunks, (size, chunk_size), n),
    ensures
        long <==> size > chunk_size && tunnels >= 2,
        r <==> long && size <= chunk_size * u32::MAX,
        size <= chunk_size * u32::MAX ==> size <= n * chunk_size,
        0 < size <= chunk_size * u32::MAX ==> (n - 1) * chunk_size < size,
        size == 0 ==> n == 0,
{
    let c = chunk_size as nat;
    let k = chunk_number(size as nat, c);
    assert(k * c <= size + c - 1 < k * c + c) by (nonlinear_arith)
        requires
            k == (size + c - 1) as nat / c,
            c > 0,
            size >= 0,
    ;
    assert(k <= u32::MAX <==> size <= c * u32::MAX) by (nonlinear_arith)
        requires
            k * c <= size + c - 1 < k * c + c,
            c > 0,
    {
        if k <= u32::MAX {
            assert(k * c <= u32::MAX * c);
        } else {
            assert(k * c >= (u32::MAX + 1) * c);
        }
    }
    if k <= u32::MAX {
        assert(n == k);
        assert((n - 1) * chunk_size == n * chunk_size - chunk_size) by (nonlinear_arith);
        if size == 0 {
            assert(k == 0) by (nonlinear_arith)
                requires
                    k * c <= c - 1,
                    c > 0,
            ;
        }
    }
}

} // verus!
