//! The whole way of a file: from the sender's frames, over a connection
//! that cuts them up as it likes, to the receiver's verified bytes.

use crate::handler::{accepted, drain, events_of_feed, EventView};
use crate::handler_laws::{
    events_of_feeds, fits_stream, joined, lemma_reads_may_split, lemma_stream_round_trip, settled,
    stream_of, well_ordered,
};
use crate::session::{
    after_chunk, after_header, after_verify, chunk_of, frame_count, fresh, header_of,
    transfer_frames, verified_bytes, Direction, SessionView,
};
use crate::session_laws::{
    after_chunks, arrives, chunks_of_file, covers_file, lemma_transfer_delivers,
};
use crate::digest::lemma_digest_len;
use crate::split::{chunk_count, lemma_chunk_bounds, lemma_chunk_count_at_most_len, splittable};
use crate::wire::{spec_encode_message, ChunkView, MessageView};
use vstd::prelude::*;

verus! {

/// The chunks of the file `data` from chunk `from` on, as messages.
pub open spec fn chunk_messages(data: Seq<u8>, chunk_size: nat, from: nat) -> Seq<MessageView> {
    Seq::new(
        (chunk_count(data.len(), chunk_size) - from) as nat,
        |i: int| MessageView::Chunk(chunk_of(data, chunk_size, (from + i) as nat)),
    )
}

/// The messages of the transfer of `data`: its header, then its chunks in
/// index order. Their encodings are the frames that a sender hands out.
pub open spec fn transfer_messages(data: Seq<u8>, chunk_size: nat) -> Seq<MessageView> {
    seq![MessageView::Header(header_of(data, chunk_size))] + chunk_messages(data, chunk_size, 0)
}

/// The session after a run of messages, taken one by one: a header and
/// chunks are received, requests are not the session's business.
pub open spec fn after_messages(s: SessionView, messages: Seq<MessageView>) -> SessionView
    decreases messages.len(),
{
    if messages.len() == 0 {
        s
    } else {
        let before = after_messages(s, messages.drop_last());
        match messages.last() {
            MessageView::Header(h) => after_header(before, h),
            MessageView::Chunk(c) => after_chunk(before, c),
            MessageView::Request(_) => before,
        }
    }
}

/// The chunks of a file can be written one after the other once the header
/// has gone.
proof fn lemma_chunks_are_well_ordered(data: Seq<u8>, chunk_size: nat, from: nat)
    requires
        splittable(data.len(), chunk_size),
        from <= chunk_count(data.len(), chunk_size),
    ensures
        well_ordered(chunk_messages(data, chunk_size, from), true),
    decreases chunk_count(data.len(), chunk_size) - from,
{
    let total = chunk_count(data.len(), chunk_size);
    let ms = chunk_messages(data, chunk_size, from);
    if from < total {
        lemma_chunks_are_well_ordered(data, chunk_size, from + 1);
        lemma_chunk_bounds(data.len(), chunk_size, from);
        assert(ms.drop_first() =~= chunk_messages(data, chunk_size, from + 1));
        assert(fits_stream(ms[0], true));
    }
}

/// The first `k` chunks of the file `data`, in index order.
pub open spec fn chunks_in_order(data: Seq<u8>, chunk_size: nat, k: nat) -> Seq<ChunkView> {
    Seq::new(k, |i: int| chunk_of(data, chunk_size, i as nat))
}

/// The chunk messages of a file, received in order after the header, are
/// the chunks of the file, each once.
proof fn lemma_messages_are_chunks(id: u64, data: Seq<u8>, chunk_size: nat, k: nat)
    requires
        k <= chunk_count(data.len(), chunk_size),
    ensures
        after_messages(
            fresh(id, Direction::Receive),
            transfer_messages(data, chunk_size).take(k as int + 1),
        ) == after_chunks(
            after_header(fresh(id, Direction::Receive), header_of(data, chunk_size)),
            chunks_in_order(data, chunk_size, k),
        ),
    decreases k,
{
    let start = fresh(id, Direction::Receive);
    let all = transfer_messages(data, chunk_size);
    let ms = all.take(k as int + 1);
    let chunks = chunks_in_order(data, chunk_size, k);
    if k == 0 {
        assert(ms.drop_last() =~= Seq::<MessageView>::empty());
        assert(ms.last() == MessageView::Header(header_of(data, chunk_size)));
        assert(after_messages(start, ms.drop_last()) == start);
        assert(after_messages(start, ms) == after_header(start, header_of(data, chunk_size)));
        assert(chunks =~= Seq::<ChunkView>::empty());
    } else {
        lemma_messages_are_chunks(id, data, chunk_size, (k - 1) as nat);
        assert(ms.drop_last() =~= all.take(k as int));
        assert(chunks.drop_last() =~= chunks_in_order(data, chunk_size, (k - 1) as nat));
        assert(ms.last() == MessageView::Chunk(chunk_of(data, chunk_size, (k - 1) as nat)));
        assert(chunks.last() == chunk_of(data, chunk_size, (k - 1) as nat));
        assert(after_messages(start, ms) == after_chunk(
            after_messages(start, ms.drop_last()),
            chunks.last(),
        ));
    }
}

/// The frames of a file, read by a handler in whatever pieces the
/// connection delivers them, are reported as the header and the chunks of
/// the file, in order.
pub proof fn lemma_handler_reports_transfer(
    connection: u64,
    data: Seq<u8>,
    chunk_size: nat,
    pieces: Seq<Seq<u8>>,
)
    requires
        splittable(data.len(), chunk_size),
        joined(pieces) == stream_of(transfer_messages(data, chunk_size)),
    ensures
        events_of_feeds(accepted(connection), pieces) == Seq::new(
            transfer_messages(data, chunk_size).len(),
            |i: int| EventView::Message(transfer_messages(data, chunk_size)[i]),
        ),
{
    let messages = transfer_messages(data, chunk_size);
    let h = accepted(connection);
    lemma_digest_len(data);
    lemma_chunks_are_well_ordered(data, chunk_size, 0);
    assert(messages.drop_first() =~= chunk_messages(data, chunk_size, 0));
    assert(fits_stream(messages[0], false));
    assert(well_ordered(messages, false));
    lemma_stream_round_trip(messages, false);
    assert(settled(h));
    lemma_reads_may_split(h, pieces);
    let stream = stream_of(messages);
    assert(h.pending + stream =~= stream);
    let d = drain(stream, false);
    assert(d.messages == messages);
    assert(!d.malformed);
    assert(events_of_feed(h, stream) =~= Seq::new(
        messages.len(),
        |i: int| EventView::Message(messages[i]),
    ));
}

/// A receiving session that is given the messages of a file, in order,
/// ends up `Verifying`, passes the check of its hash, and hands out the
/// bytes of the file exactly.
pub proof fn lemma_session_receives_transfer(id: u64, data: Seq<u8>, chunk_size: nat)
    requires
        splittable(data.len(), chunk_size),
    ensures
        ({
            let session = after_messages(
                fresh(id, Direction::Receive),
                transfer_messages(data, chunk_size),
            );
            &&& session.state is Verifying
            &&& after_verify(session).state is Complete
            &&& verified_bytes(session) == Some(data)
        }),
{
    let total = chunk_count(data.len(), chunk_size);
    let messages = transfer_messages(data, chunk_size);
    lemma_chunk_count_at_most_len(data.len(), chunk_size);
    let chunks = chunks_in_order(data, chunk_size, total);
    lemma_messages_are_chunks(id, data, chunk_size, total);
    assert(messages.take(total as int + 1) =~= messages);
    assert forall|i: u32| (i as nat) < total implies #[trigger] arrives(chunks, i) by {
        assert(chunks[i as int].index == i);
    }
    assert(chunks_of_file(data, chunk_size, chunks));
    assert(covers_file(data, chunk_size, chunks));
    lemma_transfer_delivers(id, data, chunk_size, chunks);
}

/// End to end: the frames of a file, written by a sender and read by a
/// handler in whatever pieces the connection delivers them, are reported
/// as the header and the chunks of the file, in order and with no byte
/// left over; and a receiving session that is given these messages ends
/// up `Verifying`, passes the check of its hash, and hands out the bytes
/// of the file exactly.
pub proof fn lemma_transfer_end_to_end(
    connection: u64,
    id: u64,
    data: Seq<u8>,
    chunk_size: nat,
    pieces: Seq<Seq<u8>>,
)
    requires
        splittable(data.len(), chunk_size),
        joined(pieces) == stream_of(transfer_messages(data, chunk_size)),
    ensures
        ({
            let messages = transfer_messages(data, chunk_size);
            let events = events_of_feeds(accepted(connection), pieces);
            let session = after_messages(fresh(id, Direction::Receive), messages);
            &&& events == Seq::new(messages.len(), |i: int| EventView::Message(messages[i]))
            &&& session.state is Verifying
            &&& after_verify(session).state is Complete
            &&& verified_bytes(session) == Some(data)
        }),
{
    lemma_handler_reports_transfer(connection, data, chunk_size, pieces);
    lemma_session_receives_transfer(id, data, chunk_size);
}

/// The bytes of a run of messages end with the bytes of its last message.
proof fn lemma_stream_ends_with_last(messages: Seq<MessageView>)
    requires
        messages.len() > 0,
    ensures
        stream_of(messages) == stream_of(messages.drop_last()) + spec_encode_message(
            messages.last(),
        ),
    decreases messages.len(),
{
    let first = spec_encode_message(messages[0]);
    let last = spec_encode_message(messages.last());
    if messages.len() == 1 {
        assert(messages.drop_first() =~= Seq::<MessageView>::empty());
        assert(messages.drop_last() =~= Seq::<MessageView>::empty());
        assert(stream_of(messages) =~= stream_of(messages.drop_last()) + last);
    } else {
        let inner = messages.drop_first();
        lemma_stream_ends_with_last(inner);
        assert(inner.drop_last() =~= messages.drop_last().drop_first());
        assert(inner.last() == messages.last());
        assert(messages.drop_last()[0] == messages[0]);
        assert(first + (stream_of(inner.drop_last()) + last) =~= (first + stream_of(
            inner.drop_last(),
        )) + last);
    }
}

/// The frames that a sender hands out for a file, joined, are the bytes of
/// the file's messages: a connection that delivers each frame as one piece
/// is one of the ways in which `lemma_transfer_end_to_end` holds.
pub proof fn lemma_frames_spell_the_stream(data: Seq<u8>, chunk_size: nat, k: nat)
    requires
        k <= frame_count(data.len(), chunk_size),
    ensures
        transfer_frames(data, chunk_size).len() == transfer_messages(data, chunk_size).len(),
        joined(transfer_frames(data, chunk_size).take(k as int)) == stream_of(
            transfer_messages(data, chunk_size).take(k as int),
        ),
        k == frame_count(data.len(), chunk_size) ==> joined(transfer_frames(data, chunk_size))
            == stream_of(transfer_messages(data, chunk_size)),
    decreases k,
{
    let frames = transfer_frames(data, chunk_size);
    let messages = transfer_messages(data, chunk_size);
    if k == 0 {
        assert(frames.take(0) =~= Seq::<Seq<u8>>::empty());
        assert(messages.take(0) =~= Seq::<MessageView>::empty());
    } else {
        lemma_frames_spell_the_stream(data, chunk_size, (k - 1) as nat);
        let some_frames = frames.take(k as int);
        let some_messages = messages.take(k as int);
        assert(some_frames.drop_last() =~= frames.take(k - 1));
        assert(some_messages.drop_last() =~= messages.take(k - 1));
        assert(some_frames.last() == spec_encode_message(some_messages.last()));
        lemma_stream_ends_with_last(some_messages);
    }
    if k == frame_count(data.len(), chunk_size) {
        assert(frames.take(k as int) =~= frames);
        assert(messages.take(k as int) =~= messages);
    }
}

} // verus!
