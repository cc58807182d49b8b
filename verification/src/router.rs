//! Request router: the one owner of the session table.
//!
//! Every message, from the network or from the console, comes to the
//! router, which makes sessions, feeds them, and ends them. The router
//! decides; it does no reading or writing itself. Each of its methods takes
//! what has happened and gives back what is to be done, as a list of
//! `Action`s for the caller to carry out.

use crate::handler::{Event, EventView};
use crate::session::{
    after_chunk, after_close, after_failure, after_header, after_next_frame, after_start,
    after_verify, fresh, is_sending, next_frame_of, verdict_of, Direction, FailureReason,
    SessionState, SessionView, TransferSession, Verdict, VerdictView,
};
use crate::wire::{ChunkView, HeaderView, Message, MessageView, RequestView};
use vstd::prelude::*;

verus! {

/// Where a message came from.
#[derive(Clone, Copy, Debug, PartialEq, Eq, Structural)]
pub enum Origin {
    /// Typed at the console.
    Local,
    /// Received on the connection with this name.
    Network(u64),
}

/// What the router asks its caller to do, as mathematics.
pub enum ActionView {
    OpenTransfer { session: u64, target_port: Seq<char>, origin: Origin },
    SendFrame { session: u64, frame: Seq<u8> },
    Persist { session: u64, bytes: Seq<u8>, hash: Seq<u8> },
    Sent { session: u64 },
    Mismatch { session: u64, expected: Seq<u8>, computed: Seq<u8> },
    Failure { session: u64, reason: FailureReason },
    CloseConnection { connection: u64 },
}

/// What the router asks its caller to do.
#[derive(Debug, PartialEq, Eq)]
pub enum Action {
    /// Read the file and connect to the listener at `target_port`, then
    /// call `file_ready`, or `io_failed` if either cannot be done.
    OpenTransfer { session: u64, target_port: String, origin: Origin },
    /// Write `frame` to the session's connection, then call
    /// `frame_written`, or `io_failed` if the write fails.
    SendFrame { session: u64, frame: Vec<u8> },
    /// Write `bytes`, a file that was received whole and has the hash
    /// `hash`, under its final name.
    Persist { session: u64, bytes: Vec<u8>, hash: Vec<u8> },
    /// Note that the file was sent whole.
    Sent { session: u64 },
    /// Note the two hashes of a file that was received and is not the file
    /// that was announced. The failure of the session follows.
    Mismatch { session: u64, expected: Vec<u8>, computed: Vec<u8> },
    /// Note that the session failed, and why. Nothing is written under the
    /// final name.
    Failure { session: u64, reason: FailureReason },
    /// Close the connection.
    CloseConnection { connection: u64 },
}

impl View for Action {
    type V = ActionView;

    open spec fn view(&self) -> ActionView {
        match *self {
            Action::OpenTransfer { session, target_port, origin } => ActionView::OpenTransfer {
                session,
                target_port: target_port@,
                origin,
            },
            Action::SendFrame { session, frame } => ActionView::SendFrame {
                session,
                frame: frame@,
            },
            Action::Persist { session, bytes, hash } => ActionView::Persist {
                session,
                bytes: bytes@,
                hash: hash@,
            },
            Action::Sent { session } => ActionView::Sent { session },
            Action::Mismatch { session, expected, computed } => ActionView::Mismatch {
                session,
                expected: expected@,
                computed: computed@,
            },
            Action::Failure { session, reason } => ActionView::Failure { session, reason },
            Action::CloseConnection { connection } => ActionView::CloseConnection { connection },
        }
    }
}

/// The views of a list of actions.
pub open spec fn action_views(actions: Seq<Action>) -> Seq<ActionView> {
    Seq::new(actions.len(), |i: int| actions[i]@)
}

/// One row of the session table, as mathematics.
pub struct EntryView {
    pub session: SessionView,
    /// The connection that feeds the session, if it is a receiver.
    pub connection: Option<u64>,
    /// When something last happened to the session.
    pub last_activity: u64,
}

/// What a router is, as mathematics.
pub struct RouterView {
    /// The sessions that have not ended, oldest first.
    pub entries: Seq<EntryView>,
    /// The id that the next session gets.
    pub next_id: u64,
    /// How long a session may go without activity.
    pub timeout: u64,
    /// The size of the chunks that senders make.
    pub chunk_size: usize,
}

/// A router as it is when made.
pub open spec fn empty_router(timeout: u64, chunk_size: usize) -> RouterView {
    RouterView { entries: Seq::empty(), next_id: 0, timeout, chunk_size }
}

/// The place of the first entry whose session has the id `id`, or the
/// number of entries if there is none.
pub open spec fn session_index(entries: Seq<EntryView>, id: u64) -> int
    decreases entries.len(),
{
    if entries.len() == 0 {
        0
    } else if entries[0].session.id == id {
        0
    } else {
        1 + session_index(entries.drop_first(), id)
    }
}

/// The place of the first entry that the connection `connection` feeds, or
/// the number of entries if there is none.
pub open spec fn connection_index(entries: Seq<EntryView>, connection: u64) -> int
    decreases entries.len(),
{
    if entries.len() == 0 {
        0
    } else if entries[0].connection == Some(connection) {
        0
    } else {
        1 + connection_index(entries.drop_first(), connection)
    }
}

/// The actions that close the connection of an entry, if it has one.
pub open spec fn closing(connection: Option<u64>) -> Seq<ActionView> {
    match connection {
        Some(c) => seq![ActionView::CloseConnection { connection: c }],
        None => Seq::empty(),
    }
}

/// The note of the two hashes, where checking the hash found that they
/// differ.
pub open spec fn mismatch_note(s: SessionView) -> Seq<ActionView> {
    match verdict_of(s) {
        VerdictView::Mismatch { expected, computed } => seq![
            ActionView::Mismatch { session: s.id, expected, computed },
        ],
        _ => Seq::empty(),
    }
}

/// What becomes of an entry after an event: its hash is checked if it is
/// `Verifying`; if the session has ended, the entry leaves the table and
/// the result is reported; otherwise the entry stays, with `now` as the
/// time of its last activity.
pub open spec fn concluded(e: EntryView, now: u64) -> (Option<EntryView>, Seq<ActionView>) {
    let s = e.session;
    let t = after_verify(s);
    match t.state {
        SessionState::Complete => {
            match verdict_of(s) {
                VerdictView::Verified { bytes, hash } => (
                    None,
                    seq![ActionView::Persist { session: s.id, bytes, hash }],
                ),
                _ => (None, seq![ActionView::Sent { session: s.id }]),
            }
        },
        SessionState::Failed(reason) => (
            None,
            mismatch_note(s) + seq![ActionView::Failure { session: s.id, reason }] + closing(
                e.connection,
            ),
        ),
        _ => (Some(EntryView { session: t, last_activity: now, ..e }), Seq::empty()),
    }
}

/// The router after the session of entry `i` became `session`.
pub open spec fn with_session_at(r: RouterView, i: int, session: SessionView, now: u64) -> (
    RouterView,
    Seq<ActionView>,
) {
    let (kept, actions) = concluded(EntryView { session, ..r.entries[i] }, now);
    match kept {
        Some(e) => (RouterView { entries: r.entries.update(i, e), ..r }, actions),
        None => (RouterView { entries: r.entries.remove(i), ..r }, actions),
    }
}

/// The router after a new session was put at the end of its table.
pub open spec fn with_new_session(
    r: RouterView,
    direction: Direction,
    connection: Option<u64>,
    now: u64,
) -> RouterView {
    RouterView {
        entries: r.entries.push(
            EntryView { session: fresh(r.next_id, direction), connection, last_activity: now },
        ),
        next_id: (r.next_id + 1) as u64,
        ..r
    }
}

/// The router after a request: a sending session is made and the caller is
/// asked to open the transfer. A router that has run out of ids does
/// nothing.
pub open spec fn on_request(r: RouterView, origin: Origin, q: RequestView, now: u64) -> (
    RouterView,
    Seq<ActionView>,
) {
    if r.next_id == u64::MAX {
        (r, Seq::empty())
    } else {
        (
            with_new_session(r, Direction::Send, None, now),
            seq![
                ActionView::OpenTransfer {
                    session: r.next_id,
                    target_port: q.target_port,
                    origin,
                },
            ],
        )
    }
}

/// The router after a header frame on `connection`: the connection's
/// session takes it; if the connection has none, a receiving session is
/// made for it first.
pub open spec fn on_header(r: RouterView, connection: u64, h: HeaderView, now: u64) -> (
    RouterView,
    Seq<ActionView>,
) {
    let i = connection_index(r.entries, connection);
    if i < r.entries.len() {
        with_session_at(r, i, after_header(r.entries[i].session, h), now)
    } else if r.next_id == u64::MAX {
        (r, seq![ActionView::CloseConnection { connection }])
    } else {
        let grown = with_new_session(r, Direction::Receive, Some(connection), now);
        with_session_at(grown, i, after_header(grown.entries[i].session, h), now)
    }
}

/// The router after a chunk frame on `connection`: the connection's
/// session takes it. A chunk for which there is no session is dropped.
pub open spec fn on_chunk(r: RouterView, connection: u64, c: ChunkView, now: u64) -> (
    RouterView,
    Seq<ActionView>,
) {
    let i = connection_index(r.entries, connection);
    if i < r.entries.len() {
        with_session_at(r, i, after_chunk(r.entries[i].session, c), now)
    } else {
        (r, Seq::empty())
    }
}

/// The router after `connection` sent bytes that are no message: its
/// session fails with `MalformedRequest`, and the connection is closed.
pub open spec fn on_malformed(r: RouterView, connection: u64, now: u64) -> (
    RouterView,
    Seq<ActionView>,
) {
    let i = connection_index(r.entries, connection);
    if i < r.entries.len() {
        with_session_at(
            r,
            i,
            after_failure(r.entries[i].session, FailureReason::MalformedRequest),
            now,
        )
    } else {
        (r, seq![ActionView::CloseConnection { connection }])
    }
}

/// The router after the peer closed `connection`: a session that was not
/// whole yet fails with `ConnectionClosed`.
pub open spec fn on_peer_closed(r: RouterView, connection: u64, now: u64) -> (
    RouterView,
    Seq<ActionView>,
) {
    let i = connection_index(r.entries, connection);
    if i < r.entries.len() {
        with_session_at(r, i, after_close(r.entries[i].session), now)
    } else {
        (r, Seq::empty())
    }
}

/// The router after an event, and what is to be done about it.
///
/// A request makes a sending session, from whichever origin it comes.
/// Frames and the end of a stream mean something on a connection only:
/// from the console they are dropped.
pub open spec fn dispatched(r: RouterView, origin: Origin, event: EventView, now: u64) -> (
    RouterView,
    Seq<ActionView>,
) {
    match event {
        EventView::Message(MessageView::Request(q)) => on_request(r, origin, q, now),
        EventView::Message(MessageView::Header(h)) => match origin {
            Origin::Network(c) => on_header(r, c, h, now),
            Origin::Local => (r, Seq::empty()),
        },
        EventView::Message(MessageView::Chunk(k)) => match origin {
            Origin::Network(c) => on_chunk(r, c, k, now),
            Origin::Local => (r, Seq::empty()),
        },
        EventView::Malformed => match origin {
            Origin::Network(c) => on_malformed(r, c, now),
            Origin::Local => (r, Seq::empty()),
        },
        EventView::PeerClosed => match origin {
            Origin::Network(c) => on_peer_closed(r, c, now),
            Origin::Local => (r, Seq::empty()),
        },
    }
}

/// The router after the file of the sending session `id` was read: the
/// session starts and its first frame is to be written. If the file
/// cannot be sent, the session fails with `IOError`.
pub open spec fn on_file_ready(r: RouterView, id: u64, data: Seq<u8>, now: u64) -> (
    RouterView,
    Seq<ActionView>,
) {
    let i = session_index(r.entries, id);
    if i < r.entries.len() && r.entries[i].session.direction == Direction::Send
        && r.entries[i].session.state is Pending {
        let started = after_start(r.entries[i].session, data, r.chunk_size as nat);
        match next_frame_of(started) {
            Some(frame) => (
                RouterView {
                    entries: r.entries.update(
                        i,
                        EntryView {
                            session: after_next_frame(started),
                            last_activity: now,
                            ..r.entries[i]
                        },
                    ),
                    ..r
                },
                seq![ActionView::SendFrame { session: id, frame }],
            ),
            None => with_session_at(r, i, after_next_frame(started), now),
        }
    } else {
        (r, Seq::empty())
    }
}

/// The router after a frame of the sending session `id` was written: the
/// next frame is to be written, or, after the last, the session is
/// `Complete`.
pub open spec fn on_frame_written(r: RouterView, id: u64, now: u64) -> (
    RouterView,
    Seq<ActionView>,
) {
    let i = session_index(r.entries, id);
    if i < r.entries.len() && is_sending(r.entries[i].session) {
        let s = r.entries[i].session;
        match next_frame_of(s) {
            Some(frame) => (
                RouterView {
                    entries: r.entries.update(
                        i,
                        EntryView {
                            session: after_next_frame(s),
                            last_activity: now,
                            ..r.entries[i]
                        },
                    ),
                    ..r
                },
                seq![ActionView::SendFrame { session: id, frame }],
            ),
            None => with_session_at(r, i, after_next_frame(s), now),
        }
    } else {
        (r, Seq::empty())
    }
}

/// The router after the disk or the network failed the session `id`.
pub open spec fn on_io_failed(r: RouterView, id: u64, now: u64) -> (RouterView, Seq<ActionView>) {
    let i = session_index(r.entries, id);
    if i < r.entries.len() {
        with_session_at(r, i, after_failure(r.entries[i].session, FailureReason::IOError), now)
    } else {
        (r, Seq::empty())
    }
}

/// Whether an entry has gone without activity for `timeout` or longer at
/// the time `now`.
pub open spec fn is_stale(e: EntryView, now: u64, timeout: u64) -> bool {
    now >= e.last_activity && now - e.last_activity >= timeout
}

/// Whether an entry is to go: all of them go at shutdown, the stale ones
/// when time is checked.
pub open spec fn goes(e: EntryView, now: u64, timeout: u64, all: bool) -> bool {
    all || is_stale(e, now, timeout)
}

/// The entries that are left when every entry that is to go has gone.
pub open spec fn survivors(entries: Seq<EntryView>, now: u64, timeout: u64, all: bool) -> Seq<
    EntryView,
>
    decreases entries.len(),
{
    if entries.len() == 0 {
        Seq::empty()
    } else if goes(entries.last(), now, timeout, all) {
        survivors(entries.drop_last(), now, timeout, all)
    } else {
        survivors(entries.drop_last(), now, timeout, all).push(entries.last())
    }
}

/// The reports for every entry that is to go, failed with `reason`, oldest
/// session first.
pub open spec fn casualties(
    entries: Seq<EntryView>,
    now: u64,
    timeout: u64,
    all: bool,
    reason: FailureReason,
) -> Seq<ActionView>
    decreases entries.len(),
{
    if entries.len() == 0 {
        Seq::empty()
    } else if goes(entries.last(), now, timeout, all) {
        casualties(entries.drop_last(), now, timeout, all, reason) + seq![
            ActionView::Failure { session: entries.last().session.id, reason },
        ] + closing(entries.last().connection)
    } else {
        casualties(entries.drop_last(), now, timeout, all, reason)
    }
}

/// The router after the sessions that were idle for `timeout` or longer
/// have been failed with `Timeout` and evicted.
pub open spec fn expired(r: RouterView, now: u64) -> (RouterView, Seq<ActionView>) {
    (
        RouterView { entries: survivors(r.entries, now, r.timeout, false), ..r },
        casualties(r.entries, now, r.timeout, false, FailureReason::Timeout),
    )
}

/// The router after shutdown: every session in flight has failed with
/// `ConnectionClosed`, and the table is empty.
pub open spec fn shut_down(r: RouterView) -> (RouterView, Seq<ActionView>) {
    (
        RouterView { entries: survivors(r.entries, 0, r.timeout, true), ..r },
        casualties(r.entries, 0, r.timeout, true, FailureReason::ConnectionClosed),
    )
}

/// One row of the session table.
#[derive(Debug)]
struct Entry {
    session: TransferSession,
    connection: Option<u64>,
    last_activity: u64,
}

impl View for Entry {
    type V = EntryView;

    closed spec fn view(&self) -> EntryView {
        EntryView {
            session: self.session@,
            connection: self.connection,
            last_activity: self.last_activity,
        }
    }
}

/// The views of the rows of a table.
spec fn entry_views(entries: Seq<Entry>) -> Seq<EntryView> {
    Seq::new(entries.len(), |i: int| entries[i]@)
}

/// The owner of the session table.
#[derive(Debug)]
pub struct Router {
    entries: Vec<Entry>,
    next_id: u64,
    timeout: u64,
    chunk_size: usize,
}

impl View for Router {
    type V = RouterView;

    closed spec fn view(&self) -> RouterView {
        RouterView {
            entries: entry_views(self.entries@),
            next_id: self.next_id,
            timeout: self.timeout,
            chunk_size: self.chunk_size,
        }
    }
}

/// The first place at which a session has the id is the one that
/// `session_index` names.
pub proof fn lemma_session_index(entries: Seq<EntryView>, id: u64, i: int)
    requires
        0 <= i <= entries.len(),
        forall|j: int| 0 <= j < i ==> entries[j].session.id != id,
        i < entries.len() ==> entries[i].session.id == id,
    ensures
        session_index(entries, id) == i,
    decreases entries.len(),
{
    if entries.len() > 0 && i > 0 {
        let rest = entries.drop_first();
        assert forall|j: int| 0 <= j < i - 1 implies rest[j].session.id != id by {
            assert(rest[j] == entries[j + 1]);
        }
        lemma_session_index(rest, id, i - 1);
    }
}

/// The entry that `session_index` finds has the id that was looked for.
pub proof fn lemma_session_found(entries: Seq<EntryView>, id: u64)
    requires
        session_index(entries, id) < entries.len(),
    ensures
        0 <= session_index(entries, id),
        entries[session_index(entries, id)].session.id == id,
    decreases entries.len(),
{
    if entries.len() > 0 && entries[0].session.id != id {
        let rest = entries.drop_first();
        lemma_session_found(rest, id);
        assert(rest[session_index(rest, id)] == entries[session_index(rest, id) + 1]);
    }
}

/// The first place at which a connection feeds a session is the one that
/// `connection_index` names.
pub proof fn lemma_connection_index(entries: Seq<EntryView>, connection: u64, i: int)
    requires
        0 <= i <= entries.len(),
        forall|j: int| 0 <= j < i ==> entries[j].connection != Some(connection),
        i < entries.len() ==> entries[i].connection == Some(connection),
    ensures
        connection_index(entries, connection) == i,
    decreases entries.len(),
{
    if entries.len() > 0 && i > 0 {
        let rest = entries.drop_first();
        assert forall|j: int| 0 <= j < i - 1 implies rest[j].connection != Some(connection) by {
            assert(rest[j] == entries[j + 1]);
        }
        lemma_connection_index(rest, connection, i - 1);
    }
}

/// The entry that `connection_index` finds is fed by the connection that
/// was looked for.
pub proof fn lemma_connection_found(entries: Seq<EntryView>, connection: u64)
    ensures
        0 <= connection_index(entries, connection) <= entries.len(),
        connection_index(entries, connection) < entries.len() ==> entries[connection_index(
            entries,
            connection,
        )].connection == Some(connection),
    decreases entries.len(),
{
    if entries.len() > 0 && entries[0].connection != Some(connection) {
        let rest = entries.drop_first();
        lemma_connection_found(rest, connection);
        if connection_index(rest, connection) < rest.len() {
            assert(rest[connection_index(rest, connection)] == entries[connection_index(
                rest,
                connection,
            ) + 1]);
        }
    }
}

/// `session_index` names a place in the table or its end.
pub proof fn lemma_session_index_in_range(entries: Seq<EntryView>, id: u64)
    ensures
        0 <= session_index(entries, id) <= entries.len(),
    decreases entries.len(),
{
    if entries.len() > 0 && entries[0].session.id != id {
        lemma_session_index_in_range(entries.drop_first(), id);
    }
}

/// The actions that close the connection of an entry, if it has one.
fn push_closing(actions: &mut Vec<Action>, connection: Option<u64>)
    ensures
        action_views(final(actions)@) == action_views(old(actions)@) + closing(connection),
{
    match connection {
        Some(c) => {
            actions.push(Action::CloseConnection { connection: c });
        },
        None => {},
    }
    assert(action_views(actions@) =~= action_views(old(actions)@) + closing(connection));
}

/// Checks the hash of an entry that is `Verifying`, and sorts the entry:
/// kept, or ended with its reports.
fn conclude(entry: Entry, now: u64) -> (r: (Option<Entry>, Vec<Action>))
    ensures
        match r.0 {
            Some(e) => concluded(entry@, now).0 == Some(e@),
            None => concluded(entry@, now).0 is None,
        },
        action_views(r.1@) == concluded(entry@, now).1,
{
    let mut entry = entry;
    let ghost before = entry@;
    let mut actions: Vec<Action> = Vec::new();
    let id = entry.session.id();
    let verdict = entry.session.verify();
    match entry.session.state() {
        SessionState::Complete => {
            match verdict {
                Verdict::Verified { bytes, hash } => {
                    actions.push(Action::Persist { session: id, bytes, hash });
                },
                _ => {
                    actions.push(Action::Sent { session: id });
                },
            }
            assert(action_views(actions@) =~= concluded(before, now).1);
            (None, actions)
        },
        SessionState::Failed(reason) => {
            match verdict {
                Verdict::Mismatch { expected, computed } => {
                    actions.push(Action::Mismatch { session: id, expected, computed });
                },
                _ => {},
            }
            assert(action_views(actions@) =~= mismatch_note(before.session));
            actions.push(Action::Failure { session: id, reason });
            assert(action_views(actions@) =~= mismatch_note(before.session) + seq![
                ActionView::Failure { session: id, reason },
            ]);
            push_closing(&mut actions, entry.connection);
            assert(action_views(actions@) =~= concluded(before, now).1);
            (None, actions)
        },
        _ => {
            entry.last_activity = now;
            assert(action_views(actions@) =~= concluded(before, now).1);
            (Some(entry), actions)
        },
    }
}

impl Router {
    /// A router without sessions. A session that sees no activity for
    /// `timeout` units of the caller's clock is failed when `expire` is
    /// called; senders cut their files into chunks of `chunk_size` bytes.
    pub fn new(timeout: u64, chunk_size: usize) -> (r: Router)
        ensures
            r@ == empty_router(timeout, chunk_size),
    {
        let r = Router { entries: Vec::new(), next_id: 0, timeout, chunk_size };
        assert(r@.entries =~= Seq::<EntryView>::empty());
        r
    }

    /// How many sessions are in flight.
    pub fn session_count(&self) -> (n: usize)
        ensures
            n == self@.entries.len(),
    {
        self.entries.len()
    }

    /// The place of the session `id` in the table.
    fn find_session(&self, id: u64) -> (i: usize)
        ensures
            i == session_index(self@.entries, id),
            i <= self.entries@.len(),
    {
        let mut i: usize = 0;
        while i < self.entries.len()
            invariant
                i <= self.entries@.len(),
                forall|j: int| 0 <= j < i ==> self@.entries[j].session.id != id,
            decreases self.entries@.len() - i,
        {
            if self.entries[i].session.id() == id {
                proof {
                    lemma_session_index(self@.entries, id, i as int);
                }
                return i;
            }
            i = i + 1;
        }
        proof {
            lemma_session_index(self@.entries, id, i as int);
        }
        i
    }

    /// The place of the session that `connection` feeds in the table.
    fn find_connection(&self, connection: u64) -> (i: usize)
        ensures
            i == connection_index(self@.entries, connection),
            i <= self.entries@.len(),
    {
        let mut i: usize = 0;
        while i < self.entries.len()
            invariant
                i <= self.entries@.len(),
                forall|j: int| 0 <= j < i ==> self@.entries[j].connection != Some(connection),
            decreases self.entries@.len() - i,
        {
            let found = match self.entries[i].connection {
                Some(c) => c == connection,
                None => false,
            };
            if found {
                proof {
                    lemma_connection_index(self@.entries, connection, i as int);
                }
                return i;
            }
            i = i + 1;
        }
        proof {
            lemma_connection_index(self@.entries, connection, i as int);
        }
        i
    }

    /// The state of the session `id`, if it is in flight.
    pub fn state_of(&self, id: u64) -> (r: Option<SessionState>)
        ensures
            r is Some <==> session_index(self@.entries, id) < self@.entries.len(),
            r matches Some(s) ==> s == self@.entries[session_index(
                self@.entries,
                id,
            )].session.state,
    {
        let i = self.find_session(id);
        if i < self.entries.len() {
            Some(self.entries[i].session.state())
        } else {
            None
        }
    }

    /// The session that `connection` feeds, if there is one in flight.
    pub fn session_of(&self, connection: u64) -> (r: Option<u64>)
        ensures
            r is Some <==> connection_index(self@.entries, connection) < self@.entries.len(),
            r matches Some(id) ==> id == self@.entries[connection_index(
                self@.entries,
                connection,
            )].session.id,
    {
        let i = self.find_connection(connection);
        if i < self.entries.len() {
            Some(self.entries[i].session.id())
        } else {
            None
        }
    }

    /// Takes entry `i` out of the table.
    fn take_entry(&mut self, i: usize) -> (e: Entry)
        requires
            i < old(self)@.entries.len(),
        ensures
            e@ == old(self)@.entries[i as int],
            final(self)@ == (RouterView {
                entries: old(self)@.entries.remove(i as int),
                ..old(self)@
            }),
    {
        let e = self.entries.remove(i);
        assert(self@.entries =~= old(self)@.entries.remove(i as int));
        e
    }

    /// Puts back at place `i` an entry that was taken out from there and
    /// has seen an event since, unless its session has ended.
    fn settle(&mut self, i: usize, entry: Entry, now: u64) -> (actions: Vec<Action>)
        requires
            i <= old(self)@.entries.len(),
        ensures
            final(self)@ == (RouterView {
                entries: match concluded(entry@, now).0 {
                    Some(e) => old(self)@.entries.insert(i as int, e),
                    None => old(self)@.entries,
                },
                ..old(self)@
            }),
            action_views(actions@) == concluded(entry@, now).1,
    {
        let (kept, actions) = conclude(entry, now);
        match kept {
            Some(e) => {
                self.entries.insert(i, e);
                assert(self@.entries =~= old(self)@.entries.insert(i as int, e@));
            },
            None => {},
        }
        actions
    }
}

/// Taking an entry out and putting one back at the same place is changing
/// the entry; taking it out and putting none back is removing it.
proof fn lemma_settled_is_with_session_at(r: RouterView, i: int, e: EntryView, now: u64)
    requires
        0 <= i < r.entries.len(),
        e.connection == r.entries[i].connection,
        e.last_activity == r.entries[i].last_activity,
    ensures
        with_session_at(r, i, e.session, now) == (
            RouterView {
                entries: match concluded(e, now).0 {
                    Some(k) => r.entries.remove(i).insert(i, k),
                    None => r.entries.remove(i),
                },
                ..r
            },
            concluded(e, now).1,
        ),
{
    assert(e == EntryView { session: e.session, ..r.entries[i] });
    match concluded(e, now).0 {
        Some(k) => {
            assert(r.entries.remove(i).insert(i, k) =~= r.entries.update(i, k));
        },
        None => {},
    }
}

impl Router {
    /// Puts a new session at the end of the table.
    fn add_session(&mut self, direction: Direction, connection: Option<u64>, now: u64)
        requires
            old(self)@.next_id < u64::MAX,
        ensures
            final(self)@ == with_new_session(old(self)@, direction, connection, now),
    {
        let session = TransferSession::new(self.next_id, direction);
        self.entries.push(Entry { session, connection, last_activity: now });
        self.next_id = self.next_id + 1;
        assert(self@.entries =~= with_new_session(
            old(self)@,
            direction,
            connection,
            now,
        ).entries);
    }

    fn handle_request(&mut self, origin: Origin, target_port: String, now: u64) -> (actions: Vec<
        Action,
    >)
        ensures
            (final(self)@, action_views(actions@)) == on_request(
                old(self)@,
                origin,
                RequestView { action: crate::wire::Action::GetFile, target_port: target_port@ },
                now,
            ),
    {
        let mut actions: Vec<Action> = Vec::new();
        if self.next_id == u64::MAX {
            assert(action_views(actions@) =~= Seq::<ActionView>::empty());
            return actions;
        }
        let session = self.next_id;
        self.add_session(Direction::Send, None, now);
        actions.push(Action::OpenTransfer { session, target_port, origin });
        assert(action_views(actions@) =~= seq![
            ActionView::OpenTransfer { session, target_port: target_port@, origin },
        ]);
        actions
    }

    fn handle_header(&mut self, connection: u64, header: crate::wire::Header, now: u64) -> (actions:
        Vec<Action>)
        ensures
            (final(self)@, action_views(actions@)) == on_header(
                old(self)@,
                connection,
                header@,
                now,
            ),
    {
        let i = self.find_connection(connection);
        if i >= self.entries.len() {
            if self.next_id == u64::MAX {
                let mut actions: Vec<Action> = Vec::new();
                actions.push(Action::CloseConnection { connection });
                assert(action_views(actions@) =~= seq![
                    ActionView::CloseConnection { connection },
                ]);
                return actions;
            }
            self.add_session(Direction::Receive, Some(connection), now);
        }
        let ghost grown = self@;
        let mut entry = self.take_entry(i);
        entry.session.receive_header(header);
        proof {
            lemma_settled_is_with_session_at(grown, i as int, entry@, now);
        }
        self.settle(i, entry, now)
    }

    fn handle_chunk(&mut self, connection: u64, chunk: crate::wire::Chunk, now: u64) -> (actions:
        Vec<Action>)
        ensures
            (final(self)@, action_views(actions@)) == on_chunk(
                old(self)@,
                connection,
                chunk@,
                now,
            ),
    {
        let i = self.find_connection(connection);
        if i >= self.entries.len() {
            let actions: Vec<Action> = Vec::new();
            assert(action_views(actions@) =~= Seq::<ActionView>::empty());
            return actions;
        }
        let mut entry = self.take_entry(i);
        entry.session.receive_chunk(chunk);
        proof {
            lemma_settled_is_with_session_at(old(self)@, i as int, entry@, now);
        }
        self.settle(i, entry, now)
    }

    fn handle_malformed(&mut self, connection: u64, now: u64) -> (actions: Vec<Action>)
        ensures
            (final(self)@, action_views(actions@)) == on_malformed(old(self)@, connection, now),
    {
        let i = self.find_connection(connection);
        if i >= self.entries.len() {
            let mut actions: Vec<Action> = Vec::new();
            actions.push(Action::CloseConnection { connection });
            assert(action_views(actions@) =~= seq![ActionView::CloseConnection { connection }]);
            return actions;
        }
        let mut entry = self.take_entry(i);
        entry.session.fail(FailureReason::MalformedRequest);
        proof {
            lemma_settled_is_with_session_at(old(self)@, i as int, entry@, now);
        }
        self.settle(i, entry, now)
    }

    fn handle_peer_closed(&mut self, connection: u64, now: u64) -> (actions: Vec<Action>)
        ensures
            (final(self)@, action_views(actions@)) == on_peer_closed(old(self)@, connection, now),
    {
        let i = self.find_connection(connection);
        if i >= self.entries.len() {
            let actions: Vec<Action> = Vec::new();
            assert(action_views(actions@) =~= Seq::<ActionView>::empty());
            return actions;
        }
        let mut entry = self.take_entry(i);
        entry.session.connection_closed();
        proof {
            lemma_settled_is_with_session_at(old(self)@, i as int, entry@, now);
        }
        self.settle(i, entry, now)
    }

    /// Takes one event, from the console or from a connection, at the time
    /// `now` of the caller's clock, and says what is to be done.
    ///
    /// This is the one way in for messages. What the router does for each
    /// kind of event is what `dispatched` says.
    pub fn dispatch(&mut self, origin: Origin, event: Event, now: u64) -> (actions: Vec<Action>)
        ensures
            (final(self)@, action_views(actions@)) == dispatched(old(self)@, origin, event@, now),
    {
        match event {
            Event::Message(Message::Request(q)) => {
                let port = q.target_port().clone();
                self.handle_request(origin, port, now)
            },
            Event::Message(Message::Header(h)) => match origin {
                Origin::Network(c) => self.handle_header(c, h, now),
                Origin::Local => no_actions(),
            },
            Event::Message(Message::Chunk(k)) => match origin {
                Origin::Network(c) => self.handle_chunk(c, k, now),
                Origin::Local => no_actions(),
            },
            Event::Malformed => match origin {
                Origin::Network(c) => self.handle_malformed(c, now),
                Origin::Local => no_actions(),
            },
            Event::PeerClosed => match origin {
                Origin::Network(c) => self.handle_peer_closed(c, now),
                Origin::Local => no_actions(),
            },
        }
    }
}

/// Nothing to do.
fn no_actions() -> (actions: Vec<Action>)
    ensures
        action_views(actions@) == Seq::<ActionView>::empty(),
{
    let actions: Vec<Action> = Vec::new();
    assert(action_views(actions@) =~= Seq::<ActionView>::empty());
    actions
}

impl Router {
    /// Puts back at place `i` an entry of a sender that has handed out a
    /// frame, and asks for the frame to be written.
    fn keep_sending(&mut self, i: usize, entry: Entry, frame: Vec<u8>, now: u64) -> (actions: Vec<
        Action,
    >)
        requires
            i <= old(self)@.entries.len(),
        ensures
            final(self)@ == (RouterView {
                entries: old(self)@.entries.insert(
                    i as int,
                    EntryView { last_activity: now, ..entry@ },
                ),
                ..old(self)@
            }),
            action_views(actions@) == seq![
                ActionView::SendFrame { session: entry@.session.id, frame: frame@ },
            ],
    {
        let mut entry = entry;
        let session = entry.session.id();
        entry.last_activity = now;
        self.entries.insert(i, entry);
        assert(self@.entries =~= old(self)@.entries.insert(i as int, entry@));
        let mut actions: Vec<Action> = Vec::new();
        actions.push(Action::SendFrame { session, frame });
        assert(action_views(actions@) =~= seq![
            ActionView::SendFrame { session, frame: frame@ },
        ]);
        actions
    }

    /// Tells the router that the file of the sending session `session` has
    /// been read and its connection is open. The session starts, and the
    /// router asks for its first frame, the header, to be written. If the
    /// file cannot be sent, the session fails with `IOError`. For a
    /// session that is not a pending sender, nothing happens.
    pub fn file_ready(&mut self, session: u64, data: &[u8], now: u64) -> (actions: Vec<Action>)
        ensures
            (final(self)@, action_views(actions@)) == on_file_ready(
                old(self)@,
                session,
                data@,
                now,
            ),
    {
        let i = self.find_session(session);
        if i >= self.entries.len() {
            return no_actions();
        }
        let pending = match self.entries[i].session.direction() {
            Direction::Send => match self.entries[i].session.state() {
                SessionState::Pending => true,
                _ => false,
            },
            Direction::Receive => false,
        };
        if !pending {
            return no_actions();
        }
        proof {
            lemma_session_found(self@.entries, session);
        }
        let mut entry = self.take_entry(i);
        entry.session.start_send(data, self.chunk_size);
        let ghost started = entry@;
        match entry.session.next_frame() {
            Some(frame) => {
                let ghost r = old(self)@;
                let actions = self.keep_sending(i, entry, frame, now);
                assert(self@.entries =~= r.entries.update(
                    i as int,
                    EntryView {
                        session: after_next_frame(started.session),
                        last_activity: now,
                        ..r.entries[i as int]
                    },
                ));
                actions
            },
            None => {
                proof {
                    lemma_settled_is_with_session_at(old(self)@, i as int, entry@, now);
                }
                self.settle(i, entry, now)
            },
        }
    }

    /// Tells the router that the frame it last asked to be written for the
    /// session `session` has been written. The router asks for the next
    /// frame to be written; after the last one, the session is `Complete`
    /// and the router reports `Sent`. For a session that is not sending,
    /// nothing happens.
    pub fn frame_written(&mut self, session: u64, now: u64) -> (actions: Vec<Action>)
        ensures
            (final(self)@, action_views(actions@)) == on_frame_written(old(self)@, session, now),
    {
        let i = self.find_session(session);
        if i >= self.entries.len() {
            return no_actions();
        }
        let sending = match self.entries[i].session.direction() {
            Direction::Send => match self.entries[i].session.state() {
                SessionState::InProgress => true,
                _ => false,
            },
            Direction::Receive => false,
        };
        if !sending {
            return no_actions();
        }
        proof {
            lemma_session_found(self@.entries, session);
        }
        let mut entry = self.take_entry(i);
        let ghost before = entry@;
        match entry.session.next_frame() {
            Some(frame) => {
                let ghost r = old(self)@;
                let actions = self.keep_sending(i, entry, frame, now);
                assert(self@.entries =~= r.entries.update(
                    i as int,
                    EntryView {
                        session: after_next_frame(before.session),
                        last_activity: now,
                        ..r.entries[i as int]
                    },
                ));
                actions
            },
            None => {
                proof {
                    lemma_settled_is_with_session_at(old(self)@, i as int, entry@, now);
                }
                self.settle(i, entry, now)
            },
        }
    }

    /// Tells the router that the disk or the network failed the session
    /// `session`: the session fails with `IOError`.
    pub fn io_failed(&mut self, session: u64, now: u64) -> (actions: Vec<Action>)
        ensures
            (final(self)@, action_views(actions@)) == on_io_failed(old(self)@, session, now),
    {
        let i = self.find_session(session);
        if i >= self.entries.len() {
            return no_actions();
        }
        let mut entry = self.take_entry(i);
        entry.session.fail(FailureReason::IOError);
        proof {
            lemma_settled_is_with_session_at(old(self)@, i as int, entry@, now);
        }
        self.settle(i, entry, now)
    }

    /// Fails and evicts the entries that are to go, oldest first.
    fn evict(&mut self, now: u64, all: bool, reason: FailureReason) -> (actions: Vec<Action>)
        ensures
            final(self)@ == (RouterView {
                entries: survivors(old(self)@.entries, now, old(self)@.timeout, all),
                ..old(self)@
            }),
            action_views(actions@) == casualties(
                old(self)@.entries,
                now,
                old(self)@.timeout,
                all,
                reason,
            ),
    {
        let ghost all_entries = self@.entries;
        let ghost timeout = self.timeout;
        let mut actions: Vec<Action> = Vec::new();
        let mut i: usize = 0;
        let ghost mut done: int = 0;
        assert(all_entries.take(0) =~= Seq::<EntryView>::empty());
        assert(self@.entries =~= survivors(all_entries.take(0), now, timeout, all)
            + all_entries.skip(0));
        assert(action_views(actions@) =~= casualties(
            all_entries.take(0),
            now,
            timeout,
            all,
            reason,
        ));
        while i < self.entries.len()
            invariant
                0 <= done <= all_entries.len(),
                self.timeout == timeout,
                self.next_id == old(self).next_id,
                self.chunk_size == old(self).chunk_size,
                i == survivors(all_entries.take(done), now, timeout, all).len(),
                self@.entries.len() - i == all_entries.len() - done,
                self@.entries == survivors(all_entries.take(done), now, timeout, all)
                    + all_entries.skip(done),
                action_views(actions@) == casualties(
                    all_entries.take(done),
                    now,
                    timeout,
                    all,
                    reason,
                ),
            decreases all_entries.len() - done,
        {
            let ghost e = all_entries[done];
            let ghost before = all_entries.take(done);
            let ghost next = all_entries.take(done + 1);
            assert(self@.entries[i as int] == e);
            assert(next.drop_last() =~= before);
            assert(next.last() == e);
            assert(all_entries.skip(done) =~= seq![e] + all_entries.skip(done + 1));
            let ghost kept = survivors(before, now, timeout, all);
            let last = self.entries[i].last_activity;
            let goes_now = all || (now >= last && now - last >= self.timeout);
            assert(goes_now == goes(e, now, timeout, all));
            if goes_now {
                let ghost prev = self@.entries;
                let gone = self.entries.remove(i);
                assert(self@.entries =~= prev.remove(i as int));
                assert(prev.remove(i as int) =~= kept + all_entries.skip(done + 1));
                let ghost reported = action_views(actions@);
                actions.push(Action::Failure { session: gone.session.id(), reason });
                assert(action_views(actions@) =~= reported + seq![
                    ActionView::Failure { session: e.session.id, reason },
                ]);
                push_closing(&mut actions, gone.connection);
                assert(gone@ == e);
                assert(survivors(next, now, timeout, all) == kept);
                assert(self@.entries =~= kept + all_entries.skip(done + 1));
            } else {
                i = i + 1;
                assert(survivors(next, now, timeout, all) == kept.push(e));
                assert(self@.entries =~= kept.push(e) + all_entries.skip(done + 1));
            }
            proof {
                done = done + 1;
            }
        }
        assert(all_entries.take(done) =~= all_entries);
        assert(self@.entries =~= survivors(all_entries, now, timeout, all));
        actions
    }

    /// Fails every session that has seen no activity for the router's
    /// timeout or longer at the time `now`, with `Timeout`, and evicts it.
    pub fn expire(&mut self, now: u64) -> (actions: Vec<Action>)
        ensures
            (final(self)@, action_views(actions@)) == expired(old(self)@, now),
    {
        self.evict(now, false, FailureReason::Timeout)
    }

    /// Fails every session in flight with `ConnectionClosed` and empties
    /// the table: the process is going down.
    pub fn shutdown(&mut self) -> (actions: Vec<Action>)
        ensures
            (final(self)@, action_views(actions@)) == shut_down(old(self)@),
    {
        self.evict(0, true, FailureReason::ConnectionClosed)
    }
}

} // verus!
