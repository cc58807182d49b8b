//! Connection handler: turns the bytes that one connection delivers, in
//! whatever pieces they come, into the messages they spell.
//!
//! The handler owns the connection's read buffer. The caller reads from the
//! socket and feeds what it got; the handler decodes every message that is
//! whole, keeps the bytes of one that is not, and says what came.

use crate::wire::{decode_message, spec_decode_message, DecodeError, Message, MessageView};
use crate::wire_laws::lemma_decoded_length;
use vstd::prelude::*;
use vstd::slice::slice_subrange;

verus! {

/// What a connection tells the router, as mathematics.
pub enum EventView {
    Message(MessageView),
    Malformed,
    PeerClosed,
}

/// What a connection tells the router.
#[derive(Debug, PartialEq, Eq)]
pub enum Event {
    /// A message arrived whole.
    Message(Message),
    /// The peer sent bytes that are no message; the connection is to be
    /// closed.
    Malformed,
    /// The peer closed the connection.
    PeerClosed,
}

impl View for Event {
    type V = EventView;

    open spec fn view(&self) -> EventView {
        match *self {
            Event::Message(m) => EventView::Message(m@),
            Event::Malformed => EventView::Malformed,
            Event::PeerClosed => EventView::PeerClosed,
        }
    }
}

/// What decoding a buffer as far as it goes gives.
pub struct Drained {
    /// The messages that were whole, in order.
    pub messages: Seq<MessageView>,
    /// The bytes after the last whole message.
    pub rest: Seq<u8>,
    /// Whether a header frame has passed by now.
    pub header_seen: bool,
    /// Whether `rest` cannot begin any message.
    pub malformed: bool,
}

/// Decodes messages from the start of `buf`, one after the other, until
/// what is left is the start of a message that is not whole yet, or is no
/// message at all.
pub open spec fn drain(buf: Seq<u8>, header_seen: bool) -> Drained
    decreases buf.len(),
{
    match spec_decode_message(buf, header_seen) {
        Ok((m, n)) => {
            proof {
                lemma_decoded_length(buf, header_seen);
            }
            let d = drain(buf.skip(n as int), header_seen || m is Header);
            Drained { messages: seq![m] + d.messages, ..d }
        },
        Err(DecodeError::TruncatedFrame) => Drained {
            messages: Seq::empty(),
            rest: buf,
            header_seen,
            malformed: false,
        },
        Err(DecodeError::MalformedRequest) => Drained {
            messages: Seq::empty(),
            rest: buf,
            header_seen,
            malformed: true,
        },
    }
}

/// What a handler is, as mathematics.
pub struct HandlerView {
    /// The connection's name in the router's table.
    pub connection: u64,
    /// The bytes that came and belong to no whole message yet.
    pub pending: Seq<u8>,
    /// Whether the connection's header frame has passed.
    pub header_seen: bool,
    /// Whether the handler still reads.
    pub open: bool,
}

/// A handler as it is when its connection is accepted.
pub open spec fn accepted(connection: u64) -> HandlerView {
    HandlerView { connection, pending: Seq::empty(), header_seen: false, open: true }
}

/// The handler after `bytes` came. A handler that has stopped reading
/// stays as it is; one that finds the bytes malformed stops reading and
/// drops what it held.
pub open spec fn after_feed(h: HandlerView, bytes: Seq<u8>) -> HandlerView {
    if h.open {
        let d = drain(h.pending + bytes, h.header_seen);
        if d.malformed {
            HandlerView { pending: Seq::empty(), header_seen: d.header_seen, open: false, ..h }
        } else {
            HandlerView { pending: d.rest, header_seen: d.header_seen, ..h }
        }
    } else {
        h
    }
}

/// The events that `bytes` give rise to: one for each message they make
/// whole, and `Malformed` after them if what follows is no message.
pub open spec fn events_of_feed(h: HandlerView, bytes: Seq<u8>) -> Seq<EventView> {
    if h.open {
        let d = drain(h.pending + bytes, h.header_seen);
        let messages = Seq::new(d.messages.len(), |i: int| EventView::Message(d.messages[i]));
        if d.malformed {
            messages.push(EventView::Malformed)
        } else {
            messages
        }
    } else {
        Seq::empty()
    }
}

/// The handler after the peer closed the connection.
pub open spec fn after_eof(h: HandlerView) -> HandlerView {
    HandlerView { pending: Seq::empty(), open: false, ..h }
}

/// The events that the end of the stream gives rise to: `PeerClosed`, once.
pub open spec fn events_of_eof(h: HandlerView) -> Seq<EventView> {
    if h.open {
        seq![EventView::PeerClosed]
    } else {
        Seq::empty()
    }
}

/// The views of a run of events.
pub open spec fn event_views(events: Seq<Event>) -> Seq<EventView> {
    Seq::new(events.len(), |i: int| events[i]@)
}

/// The read side of one connection.
#[derive(Debug)]
pub struct ConnectionHandler {
    connection: u64,
    pending: Vec<u8>,
    header_seen: bool,
    open: bool,
}

impl View for ConnectionHandler {
    type V = HandlerView;

    closed spec fn view(&self) -> HandlerView {
        HandlerView {
            connection: self.connection,
            pending: self.pending@,
            header_seen: self.header_seen,
            open: self.open,
        }
    }
}

impl ConnectionHandler {
    /// The handler of a connection that was just accepted.
    pub fn new(connection: u64) -> (h: ConnectionHandler)
        ensures
            h@ == accepted(connection),
    {
        ConnectionHandler { connection, pending: Vec::new(), header_seen: false, open: true }
    }

    /// The connection's name in the router's table.
    pub fn connection(&self) -> (c: u64)
        ensures
            c == self@.connection,
    {
        self.connection
    }

    /// Whether the handler still reads.
    pub fn is_open(&self) -> (b: bool)
        ensures
            b == self@.open,
    {
        self.open
    }

    /// How many bytes wait for the rest of their message.
    pub fn buffered(&self) -> (n: usize)
        ensures
            n == self@.pending.len(),
    {
        self.pending.len()
    }

    /// Takes the bytes of one read and gives the events they complete.
    ///
    /// The bytes are put after those that waited. Every message that is
    /// whole now is decoded, in order; the bytes of a message that is not
    /// whole yet wait for the next read. Bytes that are no message stop
    /// the handler: it reports `Malformed` and reads no more.
    pub fn feed(&mut self, bytes: &[u8]) -> (events: Vec<Event>)
        ensures
            final(self)@ == after_feed(old(self)@, bytes@),
            event_views(events@) == events_of_feed(old(self)@, bytes@),
    {
        let mut events: Vec<Event> = Vec::new();
        if !self.open {
            assert(event_views(events@) =~= events_of_feed(old(self)@, bytes@));
            return events;
        }
        let mut k: usize = 0;
        while k < bytes.len()
            invariant
                k <= bytes@.len(),
                self.pending@ == old(self).pending@ + bytes@.take(k as int),
                self.connection == old(self).connection,
                self.header_seen == old(self).header_seen,
                self.open == old(self).open,
            decreases bytes@.len() - k,
        {
            self.pending.push(bytes[k]);
            k = k + 1;
            assert(self.pending@ =~= old(self).pending@ + bytes@.take(k as int));
        }
        assert(bytes@.take(bytes@.len() as int) =~= bytes@);
        let ghost whole = self.pending@;
        let ghost first_seen = self.header_seen;
        let ghost goal = drain(whole, first_seen);
        let len = self.pending.len();
        let mut at: usize = 0;
        let mut malformed = false;
        let mut seen = self.header_seen;
        assert(whole.skip(0) =~= whole);
        loop
            invariant_except_break
                !malformed,
            invariant
                at <= len == whole.len(),
                self.pending@ == whole,
                goal == drain(whole, first_seen),
                ({
                    let d = drain(whole.skip(at as int), seen);
                    &&& goal.messages == Seq::new(events@.len(), |i: int| events@[i]@->Message_0)
                        + d.messages
                    &&& goal.rest == d.rest
                    &&& goal.header_seen == d.header_seen
                    &&& goal.malformed == d.malformed
                }),
                forall|i: int| 0 <= i < events@.len() ==> #[trigger] events@[i] is Message,
            ensures
                goal.messages == Seq::new(events@.len(), |i: int| events@[i]@->Message_0),
                goal.rest == whole.skip(at as int),
                goal.header_seen == seen,
                goal.malformed == malformed,
            decreases len - at,
        {
            let rest = slice_subrange(self.pending.as_slice(), at, len);
            assert(rest@ =~= whole.skip(at as int));
            match decode_message(rest, seen) {
                Ok((message, n)) => {
                    let ghost d = drain(whole.skip(at as int), seen);
                    proof {
                        lemma_decoded_length(rest@, seen);
                    }
                    let ghost before = Seq::new(events@.len(), |i: int| events@[i]@->Message_0);
                    let is_header = match &message {
                        Message::Header(_) => true,
                        _ => false,
                    };
                    let ghost m = message@;
                    events.push(Event::Message(message));
                    proof {
                        let next = drain(whole.skip(at as int).skip(n as int), seen || is_header);
                        assert(whole.skip(at as int).skip(n as int) =~= whole.skip(at + n));
                        assert(d.messages == seq![m] + next.messages);
                        assert(Seq::new(events@.len(), |i: int| events@[i]@->Message_0) =~= before
                            + seq![m]);
                        assert(goal.messages =~= Seq::new(
                            events@.len(),
                            |i: int| events@[i]@->Message_0,
                        ) + next.messages);
                    }
                    seen = seen || is_header;
                    at = at + n;
                },
                Err(DecodeError::TruncatedFrame) => {
                    let ghost d = drain(whole.skip(at as int), seen);
                    assert(d.messages =~= Seq::<MessageView>::empty());
                    assert(goal.messages =~= Seq::new(
                        events@.len(),
                        |i: int| events@[i]@->Message_0,
                    ));
                    break ;
                },
                Err(DecodeError::MalformedRequest) => {
                    let ghost d = drain(whole.skip(at as int), seen);
                    malformed = true;
                    assert(d.messages =~= Seq::<MessageView>::empty());
                    assert(goal.messages =~= Seq::new(
                        events@.len(),
                        |i: int| events@[i]@->Message_0,
                    ));
                    break ;
                },
            }
        }
        self.header_seen = seen;
        if malformed {
            self.pending = Vec::new();
            self.open = false;
            let ghost before = event_views(events@);
            events.push(Event::Malformed);
            assert(event_views(events@) =~= before.push(EventView::Malformed));
            assert(before =~= Seq::new(
                goal.messages.len(),
                |i: int| EventView::Message(goal.messages[i]),
            ));
        } else {
            let rest = self.pending.split_off(at);
            self.pending = rest;
            assert(self.pending@ =~= whole.skip(at as int));
            assert(event_views(events@) =~= Seq::new(
                goal.messages.len(),
                |i: int| EventView::Message(goal.messages[i]),
            ));
        }
        events
    }

    /// Tells the handler that the read returned no bytes: the peer has
    /// closed. The handler reports `PeerClosed`, once, and reads no more.
    pub fn end_of_stream(&mut self) -> (events: Vec<Event>)
        ensures
            final(self)@ == after_eof(old(self)@),
            event_views(events@) == events_of_eof(old(self)@),
    {
        let mut events: Vec<Event> = Vec::new();
        if self.open {
            events.push(Event::PeerClosed);
        }
        self.pending = Vec::new();
        self.open = false;
        assert(event_views(events@) =~= events_of_eof(old(self)@));
        events
    }
}

} // verus!
