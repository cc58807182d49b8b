//! What holds of every connection handler: the messages it reports depend
//! on the bytes that came, not on how the reads cut them up.

use crate::handler::{
    accepted, after_feed, drain, events_of_feed, Drained, EventView, HandlerView,
};
use crate::wire::{
    spec_decode_message, spec_encode_chunk, spec_encode_message, Action, ChunkView, DecodeError,
    MessageView, HASH_LEN,
};
use crate::wire_laws::{
    lemma_decoded_length, lemma_message_decoding_is_stable, lemma_message_round_trip,
};
use vstd::prelude::*;

verus! {

/// What is left after draining is the start of a message that is not whole
/// yet, unless it is malformed; and draining it again gives nothing new.
pub proof fn lemma_drained_rest_waits(buf: Seq<u8>, header_seen: bool)
    ensures
        ({
            let d = drain(buf, header_seen);
            !d.malformed ==> spec_decode_message(d.rest, d.header_seen) == Err::<
                (MessageView, nat),
                DecodeError,
            >(DecodeError::TruncatedFrame)
        }),
    decreases buf.len(),
{
    match spec_decode_message(buf, header_seen) {
        Ok((m, n)) => {
            lemma_decoded_length(buf, header_seen);
            lemma_drained_rest_waits(buf.skip(n as int), header_seen || m is Header);
        },
        Err(_) => {},
    }
}

/// Draining a buffer and then, with more bytes, what was left of it, finds
/// the same messages as draining all the bytes at once.
pub proof fn lemma_drain_in_two(buf: Seq<u8>, more: Seq<u8>, header_seen: bool)
    ensures
        ({
            let d = drain(buf, header_seen);
            let all = drain(buf + more, header_seen);
            let e = drain(d.rest + more, d.header_seen);
            &&& d.malformed ==> all.malformed && all.messages == d.messages && all.header_seen
                == d.header_seen
            &&& !d.malformed ==> all == (Drained { messages: d.messages + e.messages, ..e })
        }),
    decreases buf.len(),
{
    let d = drain(buf, header_seen);
    match spec_decode_message(buf, header_seen) {
        Ok((m, n)) => {
            lemma_decoded_length(buf, header_seen);
            lemma_message_decoding_is_stable(buf, more, header_seen);
            let seen = header_seen || m is Header;
            lemma_drain_in_two(buf.skip(n as int), more, seen);
            assert((buf + more).skip(n as int) =~= buf.skip(n as int) + more);
            let tail = drain(buf.skip(n as int), seen);
            let all_tail = drain(buf.skip(n as int) + more, seen);
            if !tail.malformed {
                let e = drain(tail.rest + more, tail.header_seen);
                assert(seq![m] + (tail.messages + e.messages) =~= (seq![m] + tail.messages)
                    + e.messages);
            }
        },
        Err(DecodeError::TruncatedFrame) => {
            let e = drain(buf + more, header_seen);
            assert(d.messages + e.messages =~= e.messages);
        },
        Err(DecodeError::MalformedRequest) => {
            lemma_message_decoding_is_stable(buf, more, header_seen);
        },
    }
}

/// Whether a handler holds only the start of a message that is not whole
/// yet. Every handler that reads is like that between two reads.
pub open spec fn settled(h: HandlerView) -> bool {
    h.open ==> spec_decode_message(h.pending, h.header_seen) == Err::<
        (MessageView, nat),
        DecodeError,
    >(DecodeError::TruncatedFrame)
}

/// A handler is settled when its connection is accepted and stays so
/// through every read.
pub proof fn lemma_handlers_stay_settled(h: HandlerView, bytes: Seq<u8>, connection: u64)
    ensures
        settled(accepted(connection)),
        settled(after_feed(h, bytes)),
{
    if h.open {
        lemma_drained_rest_waits(h.pending + bytes, h.header_seen);
    }
}

/// Two reads give what one read of the same bytes gives: the same events
/// in the same order, and the same handler afterwards.
pub proof fn lemma_two_reads_are_one(h: HandlerView, a: Seq<u8>, b: Seq<u8>)
    ensures
        after_feed(after_feed(h, a), b) == after_feed(h, a + b),
        events_of_feed(h, a) + events_of_feed(after_feed(h, a), b) == events_of_feed(h, a + b),
{
    if h.open {
        lemma_drain_in_two(h.pending + a, b, h.header_seen);
        assert(h.pending + (a + b) =~= (h.pending + a) + b);
        let d = drain(h.pending + a, h.header_seen);
        let all = drain(h.pending + (a + b), h.header_seen);
        if d.malformed {
            assert(events_of_feed(h, a) + events_of_feed(after_feed(h, a), b) =~= events_of_feed(
                h,
                a + b,
            ));
        } else {
            let e = drain(d.rest + b, d.header_seen);
            assert(all.messages == d.messages + e.messages);
            assert(events_of_feed(h, a) + events_of_feed(after_feed(h, a), b) =~= events_of_feed(
                h,
                a + b,
            ));
        }
    } else {
        assert(events_of_feed(h, a) + events_of_feed(after_feed(h, a), b) =~= events_of_feed(
            h,
            a + b,
        ));
    }
}

/// The bytes of a run of reads, joined.
pub open spec fn joined(pieces: Seq<Seq<u8>>) -> Seq<u8>
    decreases pieces.len(),
{
    if pieces.len() == 0 {
        Seq::empty()
    } else {
        joined(pieces.drop_last()) + pieces.last()
    }
}

/// The handler after a run of reads.
pub open spec fn after_feeds(h: HandlerView, pieces: Seq<Seq<u8>>) -> HandlerView
    decreases pieces.len(),
{
    if pieces.len() == 0 {
        h
    } else {
        after_feed(after_feeds(h, pieces.drop_last()), pieces.last())
    }
}

/// The events of a run of reads, in order.
pub open spec fn events_of_feeds(h: HandlerView, pieces: Seq<Seq<u8>>) -> Seq<EventView>
    decreases pieces.len(),
{
    if pieces.len() == 0 {
        Seq::empty()
    } else {
        events_of_feeds(h, pieces.drop_last()) + events_of_feed(
            after_feeds(h, pieces.drop_last()),
            pieces.last(),
        )
    }
}

/// A read of no bytes changes nothing and reports nothing.
pub proof fn lemma_empty_read(h: HandlerView)
    requires
        settled(h),
    ensures
        after_feed(h, Seq::empty()) == h,
        events_of_feed(h, Seq::empty()) == Seq::<EventView>::empty(),
{
    if h.open {
        assert(h.pending + Seq::<u8>::empty() =~= h.pending);
        assert(events_of_feed(h, Seq::empty()) =~= Seq::<EventView>::empty());
    }
}

/// However the reads cut up the bytes of a stream, into however many
/// pieces, empty ones among them, the handler reports the events that one
/// read of all the bytes reports, and ends up the same.
pub proof fn lemma_reads_may_split(h: HandlerView, pieces: Seq<Seq<u8>>)
    requires
        settled(h),
    ensures
        after_feeds(h, pieces) == after_feed(h, joined(pieces)),
        events_of_feeds(h, pieces) == events_of_feed(h, joined(pieces)),
    decreases pieces.len(),
{
    if pieces.len() == 0 {
        lemma_empty_read(h);
    } else {
        lemma_reads_may_split(h, pieces.drop_last());
        lemma_two_reads_are_one(h, joined(pieces.drop_last()), pieces.last());
    }
}

/// Whether `m` can be written at a place in a stream where a header has
/// or has not passed: a request anywhere, a header first, a chunk after
/// the header.
pub open spec fn fits_stream(m: MessageView, header_seen: bool) -> bool {
    match m {
        MessageView::Request(q) => crate::wire::is_port(q.target_port) && q.action
            == Action::GetFile,
        MessageView::Header(h) => h.file_hash.len() == HASH_LEN && !header_seen,
        MessageView::Chunk(c) => c.payload.len() <= u32::MAX && header_seen,
    }
}

/// Whether each of `messages` can be written where it stands.
pub open spec fn well_ordered(messages: Seq<MessageView>, header_seen: bool) -> bool
    decreases messages.len(),
{
    if messages.len() == 0 {
        true
    } else {
        fits_stream(messages[0], header_seen) && well_ordered(
            messages.drop_first(),
            header_seen || messages[0] is Header,
        )
    }
}

/// The bytes of `messages`, written one after the other.
pub open spec fn stream_of(messages: Seq<MessageView>) -> Seq<u8>
    decreases messages.len(),
{
    if messages.len() == 0 {
        Seq::empty()
    } else {
        spec_encode_message(messages[0]) + stream_of(messages.drop_first())
    }
}

/// Whether a header has passed after `messages`.
pub open spec fn header_seen_after(messages: Seq<MessageView>, header_seen: bool) -> bool
    decreases messages.len(),
{
    if messages.len() == 0 {
        header_seen
    } else {
        header_seen_after(messages.drop_first(), header_seen || messages[0] is Header)
    }
}

/// What one side writes, the other side reads: the bytes of a run of
/// messages drain to those messages, in order, with no byte left over.
pub proof fn lemma_stream_round_trip(messages: Seq<MessageView>, header_seen: bool)
    requires
        well_ordered(messages, header_seen),
    ensures
        drain(stream_of(messages), header_seen) == (Drained {
            messages,
            rest: Seq::empty(),
            header_seen: header_seen_after(messages, header_seen),
            malformed: false,
        }),
    decreases messages.len(),
{
    if messages.len() == 0 {
        assert(drain(stream_of(messages), header_seen).messages =~= messages);
    } else {
        let m = messages[0];
        let rest = stream_of(messages.drop_first());
        let seen = header_seen || m is Header;
        lemma_message_round_trip(m, rest, header_seen);
        lemma_stream_round_trip(messages.drop_first(), seen);
        let n = spec_encode_message(m).len();
        lemma_decoded_length(stream_of(messages), header_seen);
        assert(stream_of(messages).skip(n as int) =~= rest);
        assert(seq![m] + messages.drop_first() =~= messages);
    }
}

/// One message, written alone, drains to itself.
pub proof fn lemma_one_message_drains(m: MessageView, header_seen: bool)
    requires
        fits_stream(m, header_seen),
    ensures
        drain(spec_encode_message(m), header_seen) == (Drained {
            messages: seq![m],
            rest: Seq::empty(),
            header_seen: header_seen || m is Header,
            malformed: false,
        }),
{
    let ms = seq![m];
    assert(ms.drop_first() =~= Seq::<MessageView>::empty());
    assert(well_ordered(ms.drop_first(), header_seen || m is Header));
    assert(well_ordered(ms, header_seen));
    lemma_stream_round_trip(ms, header_seen);
    assert(stream_of(ms.drop_first()) =~= Seq::<u8>::empty());
    assert(stream_of(ms) =~= spec_encode_message(m));
    assert(header_seen_after(ms.drop_first(), header_seen || m is Header) == (header_seen
        || m is Header));
}

/// Partial frames: a chunk frame that reaches a handler in pieces, cut
/// anywhere, is reported as the one chunk that the frame encodes, just as
/// if it had come whole, and leaves no byte behind.
pub proof fn lemma_chunk_in_pieces(connection: u64, c: ChunkView, pieces: Seq<Seq<u8>>)
    requires
        c.payload.len() <= u32::MAX,
        joined(pieces) == spec_encode_chunk(c),
    ensures
        ({
            let h = HandlerView { header_seen: true, ..accepted(connection) };
            &&& events_of_feeds(h, pieces) == seq![EventView::Message(MessageView::Chunk(c))]
            &&& events_of_feeds(h, pieces) == events_of_feed(h, spec_encode_chunk(c))
            &&& after_feeds(h, pieces) == h
        }),
{
    let h = HandlerView { header_seen: true, ..accepted(connection) };
    let m = MessageView::Chunk(c);
    let frame = spec_encode_message(m);
    assert(settled(h));
    lemma_reads_may_split(h, pieces);
    lemma_one_message_drains(m, true);
    lemma_feed_of_drained(h, frame);
}

/// What a read reports and leaves, said through what draining finds.
proof fn lemma_feed_of_drained(h: HandlerView, bytes: Seq<u8>)
    requires
        h.open,
        h.pending.len() == 0,
        !drain(bytes, h.header_seen).malformed,
    ensures
        after_feed(h, bytes) == (HandlerView {
            pending: drain(bytes, h.header_seen).rest,
            header_seen: drain(bytes, h.header_seen).header_seen,
            ..h
        }),
        events_of_feed(h, bytes).len() == drain(bytes, h.header_seen).messages.len(),
        forall|i: int|
            0 <= i < events_of_feed(h, bytes).len() ==> #[trigger] events_of_feed(h, bytes)[i]
                == EventView::Message(drain(bytes, h.header_seen).messages[i]),
{
    assert(h.pending + bytes =~= bytes);
}

} // verus!
