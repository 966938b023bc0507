use crate::hashers::Hasher;
use vstd::arithmetic::div_mod::{lemma_fundamental_div_mod, lemma_fundamental_div_mod_converse};
use vstd::arithmetic::mul::lemma_mul_inequality;
use vstd::prelude::*;

verus! {

/// `a / b` rounded up.
pub open spec fn ceil_div(a: nat, b: nat) -> nat {
    if b == 0 {
        0
    } else {
        ((a + b - 1) as nat) / b
    }
}

/// The chunk size that fixed-size chunking picks for a stream of `len`
/// bytes and a target size of `target`: never more than the stream.
pub open spec fn fixed_size_for(len: nat, target: nat) -> nat {
    if target <= len {
        target
    } else {
        len
    }
}

/// The chunk size that count-based chunking picks for a stream of `len`
/// bytes split into `count` chunks: the remainder is not spread out.
pub open spec fn dynamic_size_for(len: nat, count: nat) -> nat {
    if count <= len {
        len / count
    } else {
        len
    }
}

/// Number of stream bytes in chunk `i` when a stream of `len` bytes is cut
/// into chunks of `size`.
pub open spec fn chunk_len(len: nat, size: nat, i: nat) -> nat {
    if i * size >= len {
        0
    } else if size <= len - i * size {
        size
    } else {
        (len - i * size) as nat
    }
}

/// The buffer of `size` bytes that holds `n` bytes of `content` from `start`
/// on, followed by zeros.
pub open spec fn padded(content: Seq<u8>, start: int, n: int, size: int) -> Seq<u8> {
    Seq::new(size as nat, |i: int| if i < n { content[start + i] } else { 0u8 })
}

/// Number of stream bytes in the first `k` chunks.
pub open spec fn covered(len: nat, size: nat, k: nat) -> nat {
    if k * size <= len {
        k * size
    } else {
        len
    }
}

/// The hashed buffer of chunk `i`: its bytes, zero-padded to the chunk size.
pub open spec fn chunk_bytes(content: Seq<u8>, size: nat, i: nat) -> Seq<u8> {
    padded(content, (i * size) as int, chunk_len(content.len(), size, i) as int, size as int)
}

/// The descriptors `(index, size, hash)` that chunking `content` into chunks
/// of `size` yields when every read succeeds and hands over all it can.
pub open spec fn expected_chunks<H: Hasher>(content: Seq<u8>, size: nat) -> Seq<
    (nat, nat, Seq<u8>),
> {
    Seq::new(
        ceil_div(content.len(), size),
        |i: int|
            (
                i as nat,
                chunk_len(content.len(), size, i as nat),
                H::spec_hash(chunk_bytes(content, size, i as nat)),
            ),
    )
}

/// The sum of the sizes of a sequence of descriptors.
pub open spec fn total_size(chunks: Seq<(nat, nat, Seq<u8>)>) -> nat
    decreases chunks.len(),
{
    if chunks.len() == 0 {
        0
    } else {
        total_size(chunks.drop_last()) + chunks.last().1
    }
}

/// The rounded-up quotient is the one count of chunks that covers `len`
/// bytes while each chunk but the last starts inside the stream.
pub proof fn lemma_ceil_div(len: nat, size: nat)
    requires
        size > 0,
    ensures
        ceil_div(len, size) * size >= len,
        ceil_div(len, size) == 0 || (ceil_div(len, size) - 1) * size < len,
        len > 0 ==> ceil_div(len, size) > 0,
        len == 0 ==> ceil_div(len, size) == 0,
{
    let c = ceil_div(len, size) as int;
    let s = size as int;
    let l = len as int;
    let m = l + s - 1;
    lemma_fundamental_div_mod(m, s);
    assert(c == m / s);
    assert(0 <= m % s < s);
    assert(c * s >= l) by (nonlinear_arith)
        requires
            m == s * c + m % s,
            m % s < s,
            m == l + s - 1,
    ;
    assert(c == 0 || (c - 1) * s < l) by (nonlinear_arith)
        requires
            m == s * c + m % s,
            0 <= m % s,
            m == l + s - 1,
    ;
    if c == 0 {
        assert(c * s == 0) by (nonlinear_arith)
            requires
                c == 0,
        ;
    }
}

/// A count `i` that covers `len` bytes, with chunk `i - 1` starting inside
/// the stream, is the rounded-up quotient.
pub proof fn lemma_ceil_div_unique(len: nat, size: nat, i: nat)
    requires
        size > 0,
        i * size >= len,
        i == 0 || (i - 1) * size < len,
    ensures
        i == ceil_div(len, size),
{
    let c = ceil_div(len, size);
    lemma_ceil_div(len, size);
    if i > c {
        lemma_mul_inequality(c as int, (i - 1) as int, size as int);
    } else if i < c {
        lemma_mul_inequality(i as int, (c - 1) as int, size as int);
    }
}

} // verus!

verus! {

/// The rounded-up quotient is the quotient, plus one where a remainder is left.
pub proof fn lemma_ceil_div_parts(len: nat, size: nat)
    requires
        size > 0,
    ensures
        ceil_div(len, size) == len / size + if len % size != 0 {
            1nat
        } else {
            0nat
        },
{
    let l = len as int;
    let s = size as int;
    let q = l / s;
    let rem = l % s;
    lemma_fundamental_div_mod(l, s);
    if rem != 0 {
        assert((q + 1) * s >= l && q * s < l) by (nonlinear_arith)
            requires
                l == s * q + rem,
                0 < rem < s,
        ;
        lemma_ceil_div_unique(len, size, (q + 1) as nat);
    } else {
        assert(q * s == l && (q == 0 || (q - 1) * s < l)) by (nonlinear_arith)
            requires
                l == s * q + rem,
                rem == 0,
                s > 0,
        ;
        lemma_ceil_div_unique(len, size, q as nat);
    }
}

/// Every chunk but the last is full; the last holds the remainder of the
/// division, or is full where nothing remains; past the last no byte is left.
pub proof fn lemma_chunk_sizes(len: nat, size: nat)
    requires
        0 < size,
        0 < len,
    ensures
        ceil_div(len, size) > 0,
        forall|i: nat| i + 1 < ceil_div(len, size) ==> #[trigger] chunk_len(len, size, i) == size,
        chunk_len(len, size, (ceil_div(len, size) - 1) as nat) == if len % size == 0 {
            size
        } else {
            len % size
        },
        chunk_len(len, size, (ceil_div(len, size) - 1) as nat) == len - size * (ceil_div(
            len,
            size,
        ) - 1),
        forall|i: nat| i >= ceil_div(len, size) ==> #[trigger] chunk_len(len, size, i) == 0,
{
    let c = ceil_div(len, size);
    lemma_ceil_div(len, size);
    lemma_ceil_div_parts(len, size);
    lemma_fundamental_div_mod(len as int, size as int);
    assert forall|i: nat| i + 1 < c implies #[trigger] chunk_len(len, size, i) == size by {
        lemma_mul_inequality((i + 1) as int, (c - 1) as int, size as int);
        assert((i + 1) * size == i * size + size) by (nonlinear_arith);
    }
    assert forall|i: nat| i >= c implies #[trigger] chunk_len(len, size, i) == 0 by {
        lemma_mul_inequality(c as int, i as int, size as int);
    }
    let q = len / size;
    let rem = len % size;
    assert((c - 1) * size == size * (c - 1)) by (nonlinear_arith);
    if rem == 0 {
        assert((c - 1) * size + size == len) by (nonlinear_arith)
            requires
                c == q,
                len == size * q,
        ;
    } else {
        assert((c - 1) * size + rem == len) by (nonlinear_arith)
            requires
                c == q + 1,
                len == size * q + rem,
        ;
    }
}

/// Fixed-size chunking: the chunk size is the smaller of the target and the
/// stream, a full pass yields the rounded-up quotient of chunks, all full but
/// the last, which holds the remainder.
pub proof fn lemma_fixed_chunking<H: Hasher>(content: Seq<u8>, target: nat)
    requires
        0 < target,
        0 < content.len(),
    ensures
        ({
            let len = content.len();
            let size = fixed_size_for(len, target);
            let chunks = expected_chunks::<H>(content, size);
            &&& size == if target <= len {
                target
            } else {
                len
            }
            &&& chunks.len() == ceil_div(len, size)
            &&& forall|i: int| 0 <= i < chunks.len() - 1 ==> #[trigger] chunks[i].1 == size
            &&& chunks.last().1 == if len % size == 0 {
                size
            } else {
                len % size
            }
        }),
{
    let len = content.len();
    let size = fixed_size_for(len, target);
    let chunks = expected_chunks::<H>(content, size);
    lemma_chunk_sizes(len, size);
    assert forall|i: int| 0 <= i < chunks.len() - 1 implies #[trigger] chunks[i].1 == size by {
        assert(chunk_len(len, size, i as nat) == size);
    }
}

/// Count-based chunking with no more chunks asked for than bytes: the chunk
/// size is the stream size divided by the count, rounded down; all chunks are
/// full but the last, which holds the remainder of the stream by that size.
pub proof fn lemma_dynamic_chunking<H: Hasher>(content: Seq<u8>, count: nat)
    requires
        0 < count <= content.len(),
    ensures
        ({
            let len = content.len();
            let size = dynamic_size_for(len, count);
            let chunks = expected_chunks::<H>(content, size);
            &&& size == len / count
            &&& 0 < size
            &&& chunks.len() == ceil_div(len, size)
            &&& forall|i: int| 0 <= i < chunks.len() - 1 ==> #[trigger] chunks[i].1 == size
            &&& chunks.last().1 == if len % size == 0 {
                size
            } else {
                len % size
            }
        }),
{
    let len = content.len();
    let size = dynamic_size_for(len, count);
    let chunks = expected_chunks::<H>(content, size);
    assert(len / count >= 1) by (nonlinear_arith)
        requires
            0 < count <= len,
    ;
    lemma_chunk_sizes(len, size);
    assert forall|i: int| 0 <= i < chunks.len() - 1 implies #[trigger] chunks[i].1 == size by {
        assert(chunk_len(len, size, i as nat) == size);
    }
}

/// The sizes of the first `k` chunks of a full pass add up to the bytes
/// those chunks cover.
proof fn lemma_prefix_total<H: Hasher>(content: Seq<u8>, size: nat, k: nat)
    requires
        0 < size,
        k <= ceil_div(content.len(), size),
    ensures
        total_size(expected_chunks::<H>(content, size).take(k as int)) == covered(
            content.len(),
            size,
            k,
        ),
    decreases k,
{
    let len = content.len();
    let chunks = expected_chunks::<H>(content, size);
    let c = chunks.len();
    lemma_ceil_div(len, size);
    if k == 0 {
        assert(chunks.take(0).len() == 0);
    } else {
        let j = (k - 1) as nat;
        lemma_prefix_total::<H>(content, size, j);
        assert(chunks.take(k as int).drop_last() =~= chunks.take(j as int));
        lemma_mul_inequality(j as int, (c - 1) as int, size as int);
        assert(k * size == j * size + size) by (nonlinear_arith)
            requires
                k == j + 1,
        ;
    }
}

/// The sizes of a full pass add up to the length of the stream.
pub proof fn lemma_sizes_cover<H: Hasher>(content: Seq<u8>, size: nat)
    requires
        0 < size,
    ensures
        total_size(expected_chunks::<H>(content, size)) == content.len(),
{
    let chunks = expected_chunks::<H>(content, size);
    lemma_ceil_div(content.len(), size);
    lemma_prefix_total::<H>(content, size, chunks.len());
    assert(chunks.take(chunks.len() as int) =~= chunks);
}

/// The indices of a full pass are 0, 1, 2, ... in order.
pub proof fn lemma_indices_dense<H: Hasher>(content: Seq<u8>, size: nat)
    ensures
        forall|i: int|
            0 <= i < expected_chunks::<H>(content, size).len() ==> #[trigger] expected_chunks::<H>(
                content,
                size,
            )[i].0 == i,
{
}

/// Two passes with the same parameters over the same bytes yield the same
/// descriptors.
pub proof fn lemma_deterministic<H: Hasher>(a: Seq<u8>, b: Seq<u8>, size: nat)
    requires
        a == b,
    ensures
        expected_chunks::<H>(a, size) == expected_chunks::<H>(b, size),
{
}

/// Editing bytes within chunk `k` only, without changing the length, leaves
/// every other chunk as it was, and chunk `k` keeps its index and size.
pub proof fn lemma_edit_within_chunk<H: Hasher>(a: Seq<u8>, b: Seq<u8>, size: nat, k: nat)
    requires
        0 < size,
        a.len() == b.len(),
        forall|p: int|
            0 <= p < a.len() && !(k * size <= p < (k + 1) * size) ==> a[p] == b[p],
    ensures
        ({
            let ca = expected_chunks::<H>(a, size);
            let cb = expected_chunks::<H>(b, size);
            &&& ca.len() == cb.len()
            &&& forall|i: int| 0 <= i < ca.len() && i != k ==> #[trigger] ca[i] == cb[i]
            &&& k < ca.len() ==> ca[k as int].0 == cb[k as int].0
            &&& k < ca.len() ==> ca[k as int].1 == cb[k as int].1
        }),
{
    let ca = expected_chunks::<H>(a, size);
    let cb = expected_chunks::<H>(b, size);
    let len = a.len();
    assert forall|i: int| 0 <= i < ca.len() && i != k implies #[trigger] ca[i] == cb[i] by {
        let n = chunk_len(len, size, i as nat) as int;
        let start = i * size;
        assert forall|j: int| 0 <= j < n implies #[trigger] a[start + j] == b[start + j] by {
            assert((i + 1) * size == i * size + size) by (nonlinear_arith);
            if i < k {
                lemma_mul_inequality(i + 1, k as int, size as int);
            } else {
                lemma_mul_inequality(k + 1 as int, i, size as int);
            }
        }
        assert(chunk_bytes(a, size, i as nat) =~= chunk_bytes(b, size, i as nat));
    }
}

/// Editing bytes only within the chunks whose indices are in `edited`,
/// without changing the length, leaves every other chunk as it was, and every
/// chunk keeps its index and size.
pub proof fn lemma_edit_within_chunks<H: Hasher>(
    a: Seq<u8>,
    b: Seq<u8>,
    size: nat,
    edited: Set<nat>,
)
    requires
        0 < size,
        a.len() == b.len(),
        forall|p: int| 0 <= p < a.len() && a[p] != b[p] ==> edited.contains((p / size as int) as nat),
    ensures
        ({
            let ca = expected_chunks::<H>(a, size);
            let cb = expected_chunks::<H>(b, size);
            &&& ca.len() == cb.len()
            &&& forall|i: int| 0 <= i < ca.len() ==> #[trigger] ca[i].0 == cb[i].0 && ca[i].1 == cb[i].1
            &&& forall|i: int|
                0 <= i < ca.len() && !edited.contains(i as nat) ==> #[trigger] ca[i] == cb[i]
        }),
{
    let ca = expected_chunks::<H>(a, size);
    let cb = expected_chunks::<H>(b, size);
    let len = a.len();
    assert forall|i: int| 0 <= i < ca.len() && !edited.contains(i as nat) implies #[trigger] ca[i]
        == cb[i] by {
        let n = chunk_len(len, size, i as nat) as int;
        let start = i * size;
        assert forall|j: int| 0 <= j < n implies #[trigger] a[start + j] == b[start + j] by {
            lemma_fundamental_div_mod_converse(start + j, size as int, i, j);
        }
        assert(chunk_bytes(a, size, i as nat) =~= chunk_bytes(b, size, i as nat));
    }
}

} // verus!
