//! Splitting a file into chunks, and why the chunks give the file back.

use crate::store::{assembled, complete};
use crate::wire::{Chunk, ChunkView};
use vstd::prelude::*;

verus! {

/// How many chunks of at most `chunk_size` bytes a file of `len` bytes
/// makes: `len / chunk_size`, rounded up.
pub open spec fn chunk_count(len: nat, chunk_size: nat) -> nat
    recommends
        chunk_size >= 1,
{
    if len == 0 {
        0
    } else {
        ((len - 1) / (chunk_size as int) + 1) as nat
    }
}

/// Where chunk `i` ends in a file of `len` bytes.
pub open spec fn chunk_end(len: nat, chunk_size: nat, i: nat) -> nat {
    if (i + 1) * chunk_size <= len {
        (i + 1) * chunk_size
    } else {
        len
    }
}

/// The bytes of chunk `i`: those from `i * chunk_size` up to the next
/// multiple of `chunk_size`, or up to the end of the file.
pub open spec fn chunk_payload(data: Seq<u8>, chunk_size: nat, i: nat) -> Seq<u8> {
    data.subrange((i * chunk_size) as int, chunk_end(data.len(), chunk_size, i) as int)
}

/// Whether a file of `len` bytes can be split into chunks of `chunk_size`
/// bytes and announced: a chunk holds at least one byte, and the length
/// fits the four bytes that a header has for it.
pub open spec fn splittable(len: nat, chunk_size: nat) -> bool {
    chunk_size >= 1 && len <= u32::MAX
}

/// A file has no more chunks than bytes.
pub proof fn lemma_chunk_count_at_most_len(len: nat, chunk_size: nat)
    requires
        chunk_size >= 1,
    ensures
        chunk_count(len, chunk_size) <= len,
{
    if len > 0 {
        let c = chunk_size as int;
        let q = (len - 1) / c;
        assert(q <= len - 1) by (nonlinear_arith)
            requires
                q == (len - 1) / c,
                c >= 1,
                len >= 1,
        ;
    }
}

/// Chunk `i` of a file starts inside the file when `i` is below the count.
pub proof fn lemma_chunk_bounds(len: nat, chunk_size: nat, i: nat)
    requires
        chunk_size >= 1,
        i < chunk_count(len, chunk_size),
    ensures
        i * chunk_size < len,
        i * chunk_size < chunk_end(len, chunk_size, i) <= len,
        chunk_end(len, chunk_size, i) - i * chunk_size <= chunk_size,
        i + 1 == chunk_count(len, chunk_size) <==> chunk_end(len, chunk_size, i) == len,
{
    let c = chunk_size as int;
    let q = (len - 1) / c;
    assert(q * c <= len - 1 < q * c + c) by (nonlinear_arith)
        requires
            q == (len - 1) / c,
            c >= 1,
            len >= 1,
    ;
    assert(i * c <= q * c) by (nonlinear_arith)
        requires
            0 <= i <= q,
            c >= 1,
    ;
    assert((i + 1) * c == i * c + c) by (nonlinear_arith);
    if i < q {
        assert((i + 1) * c <= q * c) by (nonlinear_arith)
            requires
                0 <= i + 1 <= q,
                c >= 1,
        ;
    }
}

/// The number of chunks is the least count whose chunks cover the file.
pub proof fn lemma_chunk_count_covers(len: nat, chunk_size: nat)
    requires
        chunk_size >= 1,
    ensures
        chunk_count(len, chunk_size) * chunk_size >= len,
        len > 0 ==> (chunk_count(len, chunk_size) - 1) * chunk_size < len,
{
    if len > 0 {
        let c = chunk_size as int;
        let q = (len - 1) / c;
        assert(q * c <= len - 1 < q * c + c) by (nonlinear_arith)
            requires
                q == (len - 1) / c,
                c >= 1,
                len >= 1,
        ;
        assert((q + 1) * c == q * c + c) by (nonlinear_arith);
    } else {
        assert(0 * chunk_size == 0) by (nonlinear_arith);
    }
}

/// Chunks joined in index order give the file back, up to where they end.
proof fn lemma_assembled_prefix(data: Seq<u8>, chunk_size: nat, chunks: Map<u32, Seq<u8>>, k: nat)
    requires
        chunk_size >= 1,
        k <= chunk_count(data.len(), chunk_size) <= u32::MAX,
        forall|i: u32|
            (i as nat) < chunk_count(data.len(), chunk_size) ==> #[trigger] chunks[i]
                == chunk_payload(data, chunk_size, i as nat),
    ensures
        k == 0 ==> assembled(chunks, k) == Seq::<u8>::empty(),
        k > 0 ==> assembled(chunks, k) == data.take(
            chunk_end(data.len(), chunk_size, (k - 1) as nat) as int,
        ),
    decreases k,
{
    if k > 0 {
        let i = (k - 1) as nat;
        lemma_assembled_prefix(data, chunk_size, chunks, i);
        lemma_chunk_bounds(data.len(), chunk_size, i);
        let end = chunk_end(data.len(), chunk_size, i) as int;
        assert(chunks[i as u32] == chunk_payload(data, chunk_size, i));
        if i == 0 {
            assert(0 * chunk_size == 0) by (nonlinear_arith);
            assert(assembled(chunks, i) =~= Seq::<u8>::empty());
            assert(assembled(chunks, k) =~= data.take(end));
        } else {
            lemma_chunk_bounds(data.len(), chunk_size, (i - 1) as nat);
            let mid = chunk_end(data.len(), chunk_size, (i - 1) as nat) as int;
            assert(mid == i * chunk_size);
            assert(assembled(chunks, k) =~= data.take(end));
        }
    }
}

/// Splitting a file and joining the chunks again, in index order, yields
/// the file: for every file, and for every chunk size of at least one byte
/// that leaves the indices within four bytes. The chunks may have come in
/// any order, any number of times: all that counts is what the store holds
/// under each index at the end.
pub proof fn lemma_split_then_assemble(data: Seq<u8>, chunk_size: nat, chunks: Map<u32, Seq<u8>>)
    requires
        chunk_size >= 1,
        chunk_count(data.len(), chunk_size) <= u32::MAX,
        forall|i: u32|
            (i as nat) < chunk_count(data.len(), chunk_size) ==> #[trigger] chunks.contains_key(i)
                && chunks[i] == chunk_payload(data, chunk_size, i as nat),
    ensures
        complete(chunks, chunk_count(data.len(), chunk_size)),
        assembled(chunks, chunk_count(data.len(), chunk_size)) == data,
{
    let total = chunk_count(data.len(), chunk_size);
    assert forall|i: u32| (i as nat) < total implies #[trigger] chunks[i] == chunk_payload(
        data,
        chunk_size,
        i as nat,
    ) by {
        assert(chunks.contains_key(i));
    }
    lemma_assembled_prefix(data, chunk_size, chunks, total);
    if total > 0 {
        lemma_chunk_bounds(data.len(), chunk_size, (total - 1) as nat);
        assert(data.take(data.len() as int) =~= data);
    } else {
        assert(data =~= Seq::<u8>::empty());
    }
}

/// Splits `data` into chunks of `chunk_size` bytes, the last one shorter if
/// the size does not divide the length. Chunk `i` of the result has index
/// `i`.
///
/// Gives `None` if `chunk_size` is zero, or if `data` is longer than the four
/// bytes of a header's file size can say.
pub fn split_chunks(data: &[u8], chunk_size: usize) -> (r: Option<Vec<Chunk>>)
    ensures
        r is Some <==> splittable(data@.len(), chunk_size as nat),
        r matches Some(chunks) ==> {
            &&& chunks@.len() == chunk_count(data@.len(), chunk_size as nat)
            &&& forall|i: int|
                0 <= i < chunks@.len() ==> (#[trigger] chunks@[i])@ == (ChunkView {
                    index: i as u32,
                    payload: chunk_payload(data@, chunk_size as nat, i as nat),
                })
        },
{
    if chunk_size == 0 {
        return None;
    }
    let len = data.len();
    if len > u32::MAX as usize {
        return None;
    }
    let total: usize = if len == 0 {
        0
    } else {
        (len - 1) / chunk_size + 1
    };
    proof {
        lemma_chunk_count_at_most_len(len as nat, chunk_size as nat);
    }
    let mut chunks: Vec<Chunk> = Vec::new();
    let mut start: usize = 0;
    let mut i: usize = 0;
    while i < total
        invariant
            chunk_size >= 1,
            len == data@.len(),
            total == chunk_count(len as nat, chunk_size as nat),
            total <= len <= u32::MAX,
            i <= total,
            i < total ==> start == i * chunk_size,
            chunks@.len() == i,
            forall|j: int|
                0 <= j < i ==> (#[trigger] chunks@[j])@ == (ChunkView {
                    index: j as u32,
                    payload: chunk_payload(data@, chunk_size as nat, j as nat),
                }),
        decreases total - i,
    {
        proof {
            lemma_chunk_bounds(len as nat, chunk_size as nat, i as nat);
            assert((i + 1) * chunk_size == i * chunk_size + chunk_size) by (nonlinear_arith);
        }
        let end: usize = if len - start <= chunk_size {
            len
        } else {
            start + chunk_size
        };
        assert(end == chunk_end(len as nat, chunk_size as nat, i as nat));
        let mut payload: Vec<u8> = Vec::new();
        let mut k: usize = start;
        while k < end
            invariant
                start <= k <= end <= data@.len(),
                payload@ == data@.subrange(start as int, k as int),
            decreases end - k,
        {
            payload.push(data[k]);
            k = k + 1;
            assert(payload@ =~= data@.subrange(start as int, k as int));
        }
        chunks.push(Chunk::of_parts(i as u32, payload));
        proof {
            if i + 1 < total {
                lemma_chunk_bounds(len as nat, chunk_size as nat, (i + 1) as nat);
            }
        }
        start = end;
        i = i + 1;
    }
    Some(chunks)
}

} // verus!
