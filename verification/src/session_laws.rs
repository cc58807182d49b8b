//! What holds of every transfer session.

use crate::digest::sha256;
use crate::session::{
    after_chunk, after_close, after_failure, after_header, after_next_frame, after_start,
    after_verify, chunk_of, collected, collecting_state, fresh, hash_matches, header_of,
    verified_bytes, Direction, FailureReason, SessionState, SessionView,
};
use crate::split::{chunk_count, chunk_payload, lemma_split_then_assemble};
use crate::store::complete;
use crate::wire::{ChunkView, HeaderView};
use vstd::prelude::*;

verus! {

/// Integrity: when the bytes a session has collected do not have the hash
/// its header announced, checking them ends the session as
/// `Failed(HashMismatch)` and hands out no bytes; and bytes that are handed
/// out always have the announced hash.
pub proof fn lemma_hash_mismatch_fails(s: SessionView)
    requires
        s.direction == Direction::Receive,
        s.state is Verifying,
        s.has_all_chunks(),
    ensures
        !hash_matches(s) ==> after_verify(s).state == SessionState::Failed(
            FailureReason::HashMismatch,
        ) && verified_bytes(s) is None,
        hash_matches(s) ==> after_verify(s).state == SessionState::Complete && verified_bytes(s)
            == Some(collected(s)),
        verified_bytes(s) matches Some(bytes) ==> Some(sha256(bytes)) == s.expected_hash(),
{
}

/// No session hands out bytes unless it is `Verifying`, and the only way to
/// `Complete` for a receiver is a hash that matches.
pub proof fn lemma_bytes_only_when_verified(s: SessionView)
    ensures
        verified_bytes(s) is Some <==> s.direction == Direction::Receive && s.state is Verifying
            && s.has_all_chunks() && hash_matches(s),
        verified_bytes(s) is Some <==> after_verify(s).state is Complete && !(s.state
            is Complete),
{
}

/// A session that has ended stays as it is, whatever comes.
pub proof fn lemma_ended_sessions_stay(
    s: SessionView,
    h: HeaderView,
    c: ChunkView,
    r: FailureReason,
)
    requires
        s.is_terminal(),
    ensures
        after_header(s, h) == s,
        after_chunk(s, c) == s,
        after_verify(s) == s,
        after_failure(s, r) == s,
        after_close(s) == s,
        after_next_frame(s) == s,
        verified_bytes(s) is None,
{
}

/// A connection that closes before the transfer is whole fails the
/// session with `ConnectionClosed`, and a session failed so hands out no
/// bytes, now or later.
pub proof fn lemma_close_before_whole_fails(s: SessionView)
    requires
        s.state is Pending || s.state is InProgress,
    ensures
        after_close(s).state == SessionState::Failed(FailureReason::ConnectionClosed),
        verified_bytes(after_close(s)) is None,
        after_verify(after_close(s)) == after_close(s),
{
}

/// What is true of every session that events can lead to: one that is
/// `Verifying` is a receiver that holds every chunk its header counts.
pub open spec fn sound(s: SessionView) -> bool {
    s.state is Verifying ==> s.direction == Direction::Receive && s.has_all_chunks()
}

/// A new session is sound, and every event keeps a sound session sound.
pub proof fn lemma_events_keep_sessions_sound(
    s: SessionView,
    h: HeaderView,
    c: ChunkView,
    r: FailureReason,
    data: Seq<u8>,
    chunk_size: nat,
)
    requires
        sound(s),
    ensures
        sound(fresh(s.id, s.direction)),
        sound(after_header(s, h)),
        sound(after_chunk(s, c)),
        sound(after_verify(s)),
        sound(after_failure(s, r)),
        sound(after_close(s)),
        sound(after_start(s, data, chunk_size)),
        sound(after_next_frame(s)),
{
}

/// The session after a run of chunk frames, taken one by one.
pub open spec fn after_chunks(s: SessionView, chunks: Seq<ChunkView>) -> SessionView
    decreases chunks.len(),
{
    if chunks.len() == 0 {
        s
    } else {
        after_chunk(after_chunks(s, chunks.drop_last()), chunks.last())
    }
}

/// Whether every chunk of `arrived` is a chunk of the file `data`.
pub open spec fn chunks_of_file(data: Seq<u8>, chunk_size: nat, arrived: Seq<ChunkView>) -> bool {
    forall|k: int|
        0 <= k < arrived.len() ==> (#[trigger] arrived[k].index as nat) < chunk_count(
            data.len(),
            chunk_size,
        ) && arrived[k] == chunk_of(data, chunk_size, arrived[k].index as nat)
}

/// Whether a chunk with index `i` occurs in `arrived`.
pub open spec fn arrives(arrived: Seq<ChunkView>, i: u32) -> bool {
    exists|k: int| 0 <= k < arrived.len() && #[trigger] arrived[k].index == i
}

/// Whether every chunk of the file `data` occurs in `arrived`.
pub open spec fn covers_file(data: Seq<u8>, chunk_size: nat, arrived: Seq<ChunkView>) -> bool {
    forall|i: u32|
        (i as nat) < chunk_count(data.len(), chunk_size) ==> #[trigger] arrives(arrived, i)
}

/// While chunks of a file arrive at a receiver that has the file's header,
/// the receiver holds chunks of the file only, holds each index that has
/// arrived until it had them all, and is `Verifying` exactly when it has
/// them all.
proof fn lemma_collecting_chunks(
    id: u64,
    data: Seq<u8>,
    chunk_size: nat,
    arrived: Seq<ChunkView>,
)
    requires
        chunk_size >= 1,
        chunk_count(data.len(), chunk_size) <= u32::MAX,
        chunks_of_file(data, chunk_size, arrived),
    ensures
        ({
            let start = after_header(fresh(id, Direction::Receive), header_of(data, chunk_size));
            let s = after_chunks(start, arrived);
            &&& s.id == id
            &&& s.direction == Direction::Receive
            &&& s.announced == Some(header_of(data, chunk_size))
            &&& s.state == collecting_state(s)
            &&& forall|i: u32| #[trigger]
                s.chunks.contains_key(i) ==> (i as nat) < chunk_count(data.len(), chunk_size)
                    && s.chunks[i] == chunk_payload(data, chunk_size, i as nat)
            &&& forall|k: int|
                0 <= k < arrived.len() ==> s.has_all_chunks() || s.chunks.contains_key(
                    #[trigger] arrived[k].index,
                )
        }),
    decreases arrived.len(),
{
    let start = after_header(fresh(id, Direction::Receive), header_of(data, chunk_size));
    if arrived.len() > 0 {
        let before = arrived.drop_last();
        lemma_collecting_chunks(id, data, chunk_size, before);
        let p = after_chunks(start, before);
        let s = after_chunks(start, arrived);
        assert(s == after_chunk(p, arrived.last()));
        assert forall|k: int| 0 <= k < arrived.len() implies s.has_all_chunks()
            || s.chunks.contains_key(#[trigger] arrived[k].index) by {
            if k < before.len() {
                assert(before[k] == arrived[k]);
            }
        }
    }
}

/// A transfer delivers: a receiver that is given the header of a file and
/// then chunks of that file, in any order and any number of times, as long
/// as each chunk comes at least once, ends up `Verifying`; checking the
/// hash then makes it `Complete` and hands out the file's bytes exactly.
pub proof fn lemma_transfer_delivers(
    id: u64,
    data: Seq<u8>,
    chunk_size: nat,
    arrived: Seq<ChunkView>,
)
    requires
        chunk_size >= 1,
        chunk_count(data.len(), chunk_size) <= u32::MAX,
        chunks_of_file(data, chunk_size, arrived),
        covers_file(data, chunk_size, arrived),
    ensures
        ({
            let start = after_header(fresh(id, Direction::Receive), header_of(data, chunk_size));
            let s = after_chunks(start, arrived);
            &&& s.state is Verifying
            &&& after_verify(s).state is Complete
            &&& verified_bytes(s) == Some(data)
        }),
{
    let total = chunk_count(data.len(), chunk_size);
    let start = after_header(fresh(id, Direction::Receive), header_of(data, chunk_size));
    let s = after_chunks(start, arrived);
    lemma_collecting_chunks(id, data, chunk_size, arrived);
    if !s.has_all_chunks() {
        assert forall|i: u32| (i as nat) < total implies #[trigger] s.chunks.contains_key(i) by {
            assert(arrives(arrived, i));
            let k = choose|k: int| 0 <= k < arrived.len() && #[trigger] arrived[k].index == i;
            assert(s.chunks.contains_key(arrived[k].index));
        }
    }
    assert(s.has_all_chunks());
    assert(header_of(data, chunk_size).total_chunks as nat == total);
    assert(complete(s.chunks, total));
    assert forall|i: u32| (i as nat) < total implies #[trigger] s.chunks.contains_key(i)
        && s.chunks[i] == chunk_payload(data, chunk_size, i as nat) by {
        assert(s.chunks.contains_key(i));
    }
    lemma_split_then_assemble(data, chunk_size, s.chunks);
}

/// While a chunk of the file is missing, the receiver does not leave
/// `InProgress` by itself: it waits.
pub proof fn lemma_receiver_waits_for_gaps(s: SessionView, c: ChunkView)
    requires
        s.is_collecting(),
        !(SessionView { chunks: s.chunks.insert(c.index, c.payload), ..s }).has_all_chunks(),
    ensures
        after_chunk(s, c).state is InProgress,
        verified_bytes(after_chunk(s, c)) is None,
{
}

} // verus!
