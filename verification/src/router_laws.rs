//! What holds of every router, whatever events reach it.

use crate::digest::sha256;
use crate::handler::EventView;
use crate::router::{
    casualties, closing, concluded, connection_index, dispatched, empty_router, expired, is_stale,
    lemma_connection_found, lemma_session_index, lemma_session_index_in_range, on_file_ready,
    on_frame_written, on_io_failed, session_index, shut_down, survivors, with_new_session,
    with_session_at, ActionView, EntryView, Origin, RouterView,
};
use crate::session::{
    after_failure, after_next_frame, after_start, collected, hash_matches, is_sending,
    next_frame_of, verified_bytes, Direction, FailureReason, SessionView,
};
use crate::session_laws::sound;
use crate::wire::MessageView;
use vstd::prelude::*;

verus! {

/// Whether an action writes nothing that was not verified: a `Persist`
/// carries bytes that have the hash it names.
pub open spec fn is_honest(a: ActionView) -> bool {
    a matches ActionView::Persist { bytes, hash, .. } ==> sha256(bytes) == hash
}

/// Whether every action of a list is honest.
pub open spec fn all_honest(actions: Seq<ActionView>) -> bool {
    forall|k: int| 0 <= k < actions.len() ==> is_honest(#[trigger] actions[k])
}

/// Whether a list of actions asks for no file to be written.
pub open spec fn writes_no_file(actions: Seq<ActionView>) -> bool {
    forall|k: int| 0 <= k < actions.len() ==> !(#[trigger] actions[k] is Persist)
}

/// When an entry is sorted after an event, a file is written only if its
/// hash was checked and matched; a session whose hash does not match is
/// reported as failed with `HashMismatch`, leaves the table, and no file is
/// written for it.
pub proof fn lemma_concluded_is_honest(e: EntryView, now: u64)
    ensures
        all_honest(concluded(e, now).1),
        !writes_no_file(concluded(e, now).1) ==> verified_bytes(e.session) is Some
            && hash_matches(e.session),
        e.session.direction == Direction::Receive && e.session.state is Verifying
            && e.session.has_all_chunks() && !hash_matches(e.session) ==> {
            &&& concluded(e, now).0 is None
            &&& concluded(e, now).1 == seq![
                ActionView::Mismatch {
                    session: e.session.id,
                    expected: e.session.expected_hash()->0,
                    computed: sha256(collected(e.session)),
                },
                ActionView::Failure {
                    session: e.session.id,
                    reason: FailureReason::HashMismatch,
                },
            ] + closing(e.connection)
            &&& writes_no_file(concluded(e, now).1)
        },
{
    let actions = concluded(e, now).1;
    if e.session.direction == Direction::Receive && e.session.state is Verifying
        && e.session.has_all_chunks() && !hash_matches(e.session) {
        assert(actions =~= seq![
            ActionView::Mismatch {
                session: e.session.id,
                expected: e.session.expected_hash()->0,
                computed: sha256(collected(e.session)),
            },
            ActionView::Failure { session: e.session.id, reason: FailureReason::HashMismatch },
        ] + closing(e.connection));
    }
    assert forall|k: int| 0 <= k < actions.len() implies is_honest(#[trigger] actions[k]) by {}
    if !writes_no_file(actions) {
        let k = choose|k: int| 0 <= k < actions.len() && #[trigger] actions[k] is Persist;
        assert(actions[k] is Persist);
    }
}

/// Reports of failure write no file.
pub proof fn lemma_casualties_write_no_file(
    entries: Seq<EntryView>,
    now: u64,
    timeout: u64,
    all: bool,
    reason: FailureReason,
)
    ensures
        writes_no_file(casualties(entries, now, timeout, all, reason)),
    decreases entries.len(),
{
    if entries.len() > 0 {
        lemma_casualties_write_no_file(entries.drop_last(), now, timeout, all, reason);
    }
}

/// Integrity, for the whole router: whatever happens, the router asks for
/// a file to be written only with bytes whose hash is the one announced for
/// them.
pub proof fn lemma_router_is_honest(
    r: RouterView,
    origin: Origin,
    event: EventView,
    session: u64,
    data: Seq<u8>,
    now: u64,
)
    ensures
        all_honest(dispatched(r, origin, event, now).1),
        all_honest(on_file_ready(r, session, data, now).1),
        all_honest(on_frame_written(r, session, now).1),
        all_honest(on_io_failed(r, session, now).1),
        writes_no_file(expired(r, now).1),
        writes_no_file(shut_down(r).1),
{
    lemma_steps_are_honest(r, now);
    lemma_casualties_write_no_file(r.entries, now, r.timeout, false, FailureReason::Timeout);
    lemma_casualties_write_no_file(r.entries, 0, r.timeout, true, FailureReason::ConnectionClosed);
    match origin {
        Origin::Network(c) => {
            if connection_index(r.entries, c) >= r.entries.len() && r.next_id < u64::MAX {
                lemma_steps_are_honest(
                    with_new_session(r, Direction::Receive, Some(c), now),
                    now,
                );
            }
        },
        Origin::Local => {},
    }
}

/// Whatever the session of an entry becomes, what follows for the table is
/// honest.
proof fn lemma_steps_are_honest(r: RouterView, now: u64)
    ensures
        forall|i: int, s: SessionView| all_honest(#[trigger] with_session_at(r, i, s, now).1),
{
    assert forall|i: int, s: SessionView| all_honest(
        #[trigger] with_session_at(r, i, s, now).1,
    ) by {
        lemma_concluded_is_honest(EntryView { session: s, ..r.entries[i] }, now);
    }
}

/// Whether a session is still under way.
pub open spec fn in_flight(s: SessionView) -> bool {
    s.state is Pending || s.state is InProgress
}

/// Whether every session of the table is still under way: the router takes
/// a session out as soon as it ends, and checks a hash as soon as the last
/// chunk is there.
pub open spec fn nothing_lingers(r: RouterView) -> bool {
    forall|i: int| 0 <= i < r.entries.len() ==> in_flight((#[trigger] r.entries[i]).session)
}

/// An entry that is kept after an event holds a session that is still
/// under way.
pub proof fn lemma_kept_is_in_flight(e: EntryView, now: u64)
    requires
        sound(e.session),
    ensures
        concluded(e, now).0 matches Some(k) ==> in_flight(k.session),
{
}

/// What comes of a table where nothing lingers, when the session of entry
/// `i` has seen an event, is a table where nothing lingers.
proof fn lemma_step_leaves_nothing(r: RouterView, i: int, s: SessionView, now: u64)
    requires
        nothing_lingers(r),
        0 <= i < r.entries.len(),
        sound(s),
    ensures
        nothing_lingers(with_session_at(r, i, s, now).0),
{
    let e = EntryView { session: s, ..r.entries[i] };
    lemma_kept_is_in_flight(e, now);
    let after = with_session_at(r, i, s, now).0;
    assert forall|k: int| 0 <= k < after.entries.len() implies in_flight(
        (#[trigger] after.entries[k]).session,
    ) by {
        match concluded(e, now).0 {
            Some(kept) => {
                if k != i {
                    assert(after.entries[k] == r.entries[k]);
                }
            },
            None => {
                if k < i {
                    assert(after.entries[k] == r.entries[k]);
                } else {
                    assert(after.entries[k] == r.entries[k + 1]);
                }
            },
        }
    }
}

/// No leak: a router starts with an empty table, and whatever reaches it,
/// its table holds only sessions that are still under way. A session that
/// has ended, well or badly, is gone from the table with the report of its
/// end.
pub proof fn lemma_nothing_lingers(
    r: RouterView,
    origin: Origin,
    event: EventView,
    session: u64,
    data: Seq<u8>,
    now: u64,
)
    requires
        nothing_lingers(r),
    ensures
        nothing_lingers(empty_router(r.timeout, r.chunk_size)),
        nothing_lingers(dispatched(r, origin, event, now).0),
        nothing_lingers(on_file_ready(r, session, data, now).0),
        nothing_lingers(on_frame_written(r, session, now).0),
        nothing_lingers(on_io_failed(r, session, now).0),
        nothing_lingers(expired(r, now).0),
        nothing_lingers(shut_down(r).0),
{
    lemma_shutdown_empties_the_table(r);
    lemma_expiry_evicts_the_stale(r.entries, now, r.timeout);
    let kept = expired(r, now).0;
    assert forall|k: int| 0 <= k < kept.entries.len() implies in_flight(
        (#[trigger] kept.entries[k]).session,
    ) by {
        assert(kept.entries.contains(kept.entries[k]));
        let e = kept.entries[k];
        assert(r.entries.contains(e));
        let j = choose|j: int| 0 <= j < r.entries.len() && r.entries[j] == e;
        assert(in_flight(r.entries[j].session));
    }
    lemma_dispatch_leaves_nothing(r, origin, event, now);
    lemma_sender_steps_leave_nothing(r, session, data, now);
}

/// See `lemma_nothing_lingers`; this is its part on messages.
proof fn lemma_dispatch_leaves_nothing(r: RouterView, origin: Origin, event: EventView, now: u64)
    requires
        nothing_lingers(r),
    ensures
        nothing_lingers(dispatched(r, origin, event, now).0),
{
    let after = dispatched(r, origin, event, now).0;
    match origin {
        Origin::Local => {
            if event matches EventView::Message(MessageView::Request(q)) {
                lemma_new_session_leaves_nothing(r, Direction::Send, None, now);
            }
        },
        Origin::Network(c) => {
            let i = connection_index(r.entries, c);
            lemma_connection_found(r.entries, c);
            match event {
                EventView::Message(MessageView::Request(q)) => {
                    lemma_new_session_leaves_nothing(r, Direction::Send, None, now);
                },
                EventView::Message(MessageView::Header(h)) => {
                    if i < r.entries.len() {
                        lemma_step_leaves_nothing(
                            r,
                            i,
                            crate::session::after_header(r.entries[i].session, h),
                            now,
                        );
                    } else if r.next_id < u64::MAX {
                        let grown = with_new_session(r, Direction::Receive, Some(c), now);
                        lemma_new_session_leaves_nothing(r, Direction::Receive, Some(c), now);
                        lemma_step_leaves_nothing(
                            grown,
                            i,
                            crate::session::after_header(grown.entries[i].session, h),
                            now,
                        );
                    }
                },
                EventView::Message(MessageView::Chunk(k)) => {
                    if i < r.entries.len() {
                        lemma_step_leaves_nothing(
                            r,
                            i,
                            crate::session::after_chunk(r.entries[i].session, k),
                            now,
                        );
                    }
                },
                EventView::Malformed => {
                    if i < r.entries.len() {
                        lemma_step_leaves_nothing(
                            r,
                            i,
                            crate::session::after_failure(
                                r.entries[i].session,
                                FailureReason::MalformedRequest,
                            ),
                            now,
                        );
                    }
                },
                EventView::PeerClosed => {
                    if i < r.entries.len() {
                        lemma_step_leaves_nothing(
                            r,
                            i,
                            crate::session::after_close(r.entries[i].session),
                            now,
                        );
                    }
                },
            }
        },
    }
}

/// A new session is under way.
proof fn lemma_new_session_leaves_nothing(
    r: RouterView,
    direction: Direction,
    connection: Option<u64>,
    now: u64,
)
    requires
        nothing_lingers(r),
    ensures
        nothing_lingers(with_new_session(r, direction, connection, now)),
{
    let grown = with_new_session(r, direction, connection, now);
    assert forall|k: int| 0 <= k < grown.entries.len() implies in_flight(
        (#[trigger] grown.entries[k]).session,
    ) by {
        if k < r.entries.len() {
            assert(grown.entries[k] == r.entries[k]);
        }
    }
}

/// See `lemma_nothing_lingers`; this is its part on what senders are told.
proof fn lemma_sender_steps_leave_nothing(r: RouterView, session: u64, data: Seq<u8>, now: u64)
    requires
        nothing_lingers(r),
    ensures
        nothing_lingers(on_file_ready(r, session, data, now).0),
        nothing_lingers(on_frame_written(r, session, now).0),
        nothing_lingers(on_io_failed(r, session, now).0),
{
    let i = session_index(r.entries, session);
    lemma_session_index_in_range(r.entries, session);
    if i < r.entries.len() {
        let s = r.entries[i].session;
        lemma_step_leaves_nothing(r, i, after_failure(s, FailureReason::IOError), now);
        let started = after_start(s, data, r.chunk_size as nat);
        lemma_step_leaves_nothing(r, i, after_next_frame(started), now);
        lemma_step_leaves_nothing(r, i, after_next_frame(s), now);
        let ready = on_file_ready(r, session, data, now).0;
        assert forall|k: int| 0 <= k < ready.entries.len() implies in_flight(
            (#[trigger] ready.entries[k]).session,
        ) by {
            if s.direction == Direction::Send && s.state is Pending && next_frame_of(started)
                is Some {
                if k != i {
                    assert(ready.entries[k] == r.entries[k]);
                }
            }
        }
        let written = on_frame_written(r, session, now).0;
        assert forall|k: int| 0 <= k < written.entries.len() implies in_flight(
            (#[trigger] written.entries[k]).session,
        ) by {
            if is_sending(s) && next_frame_of(s) is Some {
                if k != i {
                    assert(written.entries[k] == r.entries[k]);
                }
            }
        }
    }
}

/// Idle sessions do not outlive their timeout: after time is checked, no
/// session that is left was idle for the timeout or longer, and every one
/// that was left out is reported as failed with `Timeout`.
pub proof fn lemma_expiry_evicts_the_stale(entries: Seq<EntryView>, now: u64, timeout: u64)
    ensures
        forall|e: EntryView| #[trigger]
            survivors(entries, now, timeout, false).contains(e) ==> entries.contains(e)
                && !is_stale(e, now, timeout),
        forall|i: int|
            0 <= i < entries.len() && is_stale(#[trigger] entries[i], now, timeout)
                ==> casualties(entries, now, timeout, false, FailureReason::Timeout).contains(
                ActionView::Failure {
                    session: entries[i].session.id,
                    reason: FailureReason::Timeout,
                },
            ),
        forall|i: int|
            0 <= i < entries.len() && !is_stale(#[trigger] entries[i], now, timeout)
                ==> survivors(entries, now, timeout, false).contains(entries[i]),
    decreases entries.len(),
{
    if entries.len() > 0 {
        let before = entries.drop_last();
        let last = entries.last();
        lemma_expiry_evicts_the_stale(before, now, timeout);
        let kept = survivors(entries, now, timeout, false);
        let reports = casualties(entries, now, timeout, false, FailureReason::Timeout);
        let kept_before = survivors(before, now, timeout, false);
        let reports_before = casualties(before, now, timeout, false, FailureReason::Timeout);
        assert forall|e: EntryView| #[trigger] kept.contains(e) implies entries.contains(e)
            && !is_stale(e, now, timeout) by {
            let k = choose|k: int| 0 <= k < kept.len() && kept[k] == e;
            if k < kept_before.len() {
                assert(kept_before[k] == e);
                assert(kept_before.contains(e));
                let j = choose|j: int| 0 <= j < before.len() && before[j] == e;
                assert(entries[j] == e);
            } else {
                assert(e == last);
                assert(entries[entries.len() - 1] == e);
            }
        }
        assert forall|i: int|
            0 <= i < entries.len() && is_stale(
                #[trigger] entries[i],
                now,
                timeout,
            ) implies reports.contains(
            ActionView::Failure { session: entries[i].session.id, reason: FailureReason::Timeout },
        ) by {
            let wanted = ActionView::Failure {
                session: entries[i].session.id,
                reason: FailureReason::Timeout,
            };
            if i < before.len() {
                assert(before[i] == entries[i]);
                assert(reports_before.contains(wanted));
                let k = choose|k: int| 0 <= k < reports_before.len() && reports_before[k] == wanted;
                assert(reports[k] == wanted);
            } else {
                assert(reports[reports_before.len() as int] == wanted);
            }
        }
        assert forall|i: int|
            0 <= i < entries.len() && !is_stale(
                #[trigger] entries[i],
                now,
                timeout,
            ) implies kept.contains(entries[i]) by {
            if i < before.len() {
                assert(before[i] == entries[i]);
                assert(kept_before.contains(entries[i]));
                let k = choose|k: int| 0 <= k < kept_before.len() && kept_before[k] == entries[i];
                assert(kept[k] == entries[i]);
            } else {
                assert(kept[kept.len() - 1] == entries[i]);
            }
        }
    }
}

/// Shutdown leaves no session behind.
pub proof fn lemma_shutdown_empties_the_table(r: RouterView)
    ensures
        shut_down(r).0.entries.len() == 0,
{
    lemma_all_go(r.entries, r.timeout);
}

proof fn lemma_all_go(entries: Seq<EntryView>, timeout: u64)
    ensures
        survivors(entries, 0, timeout, true).len() == 0,
    decreases entries.len(),
{
    if entries.len() > 0 {
        lemma_all_go(entries.drop_last(), timeout);
    }
}

/// Isolation: an event on one connection leaves the sessions of all
/// other connections as they were. A transfer that fails takes no other
/// transfer with it.
pub proof fn lemma_other_sessions_are_untouched(
    r: RouterView,
    connection: u64,
    event: EventView,
    now: u64,
    other: EntryView,
)
    requires
        r.entries.contains(other),
        other.connection != Some(connection),
    ensures
        dispatched(r, Origin::Network(connection), event, now).0.entries.contains(other),
{
    let j = choose|j: int| 0 <= j < r.entries.len() && r.entries[j] == other;
    let i = connection_index(r.entries, connection);
    lemma_connection_found(r.entries, connection);
    let after = dispatched(r, Origin::Network(connection), event, now).0;
    match event {
        EventView::Message(MessageView::Request(q)) => {
            if r.next_id < u64::MAX {
                assert(after.entries[j] == other);
            }
        },
        EventView::Message(MessageView::Header(h)) => {
            if i < r.entries.len() {
                lemma_step_keeps_others(
                    r,
                    i,
                    j,
                    crate::session::after_header(r.entries[i].session, h),
                    now,
                );
            } else if r.next_id < u64::MAX {
                let grown = with_new_session(r, Direction::Receive, Some(connection), now);
                assert(grown.entries[j] == other);
                lemma_step_keeps_others(
                    grown,
                    i,
                    j,
                    crate::session::after_header(grown.entries[i].session, h),
                    now,
                );
            }
        },
        EventView::Message(MessageView::Chunk(c)) => {
            if i < r.entries.len() {
                lemma_step_keeps_others(
                    r,
                    i,
                    j,
                    crate::session::after_chunk(r.entries[i].session, c),
                    now,
                );
            }
        },
        EventView::Malformed => {
            if i < r.entries.len() {
                lemma_step_keeps_others(
                    r,
                    i,
                    j,
                    crate::session::after_failure(
                        r.entries[i].session,
                        FailureReason::MalformedRequest,
                    ),
                    now,
                );
            }
        },
        EventView::PeerClosed => {
            if i < r.entries.len() {
                lemma_step_keeps_others(
                    r,
                    i,
                    j,
                    crate::session::after_close(r.entries[i].session),
                    now,
                );
            }
        },
    }
}

/// A change to entry `i` leaves entry `j` in the table.
proof fn lemma_step_keeps_others(r: RouterView, i: int, j: int, s: SessionView, now: u64)
    requires
        0 <= i < r.entries.len(),
        0 <= j < r.entries.len(),
        i != j,
    ensures
        with_session_at(r, i, s, now).0.entries.contains(r.entries[j]),
{
    let after = with_session_at(r, i, s, now).0;
    match concluded(EntryView { session: s, ..r.entries[i] }, now).0 {
        Some(e) => {
            assert(after.entries[j] == r.entries[j]);
        },
        None => {
            if j < i {
                assert(after.entries[j] == r.entries[j]);
            } else {
                assert(after.entries[j - 1] == r.entries[j]);
            }
        },
    }
}

/// A connection that closes before its transfer is whole: the session is
/// reported as failed with `ConnectionClosed`, leaves the table, and no
/// file is written.
pub proof fn lemma_dropped_connection_fails(r: RouterView, connection: u64, now: u64)
    requires
        connection_index(r.entries, connection) < r.entries.len(),
        ({
            let s = r.entries[connection_index(r.entries, connection)].session;
            s.state is Pending || s.state is InProgress
        }),
    ensures
        ({
            let i = connection_index(r.entries, connection);
            let (after, actions) = dispatched(
                r,
                Origin::Network(connection),
                EventView::PeerClosed,
                now,
            );
            &&& after.entries == r.entries.remove(i)
            &&& actions == seq![
                ActionView::Failure {
                    session: r.entries[i].session.id,
                    reason: FailureReason::ConnectionClosed,
                },
                ActionView::CloseConnection { connection },
            ]
            &&& writes_no_file(actions)
        }),
{
    lemma_connection_found(r.entries, connection);
    let i = connection_index(r.entries, connection);
    let actions = dispatched(r, Origin::Network(connection), EventView::PeerClosed, now).1;
    assert(actions =~= seq![
        ActionView::Failure {
            session: r.entries[i].session.id,
            reason: FailureReason::ConnectionClosed,
        },
        ActionView::CloseConnection { connection },
    ]);
}

/// Whether the sessions of the table carry their ids in rising order, all
/// below the id that the next session gets. No two sessions of such a
/// table share an id: the table is a mapping from ids to sessions.
pub open spec fn ids_in_order(r: RouterView) -> bool {
    &&& forall|i: int, j: int|
        0 <= i < j < r.entries.len() ==> (#[trigger] r.entries[i]).session.id < (
        #[trigger] r.entries[j]).session.id
    &&& forall|i: int|
        0 <= i < r.entries.len() ==> (#[trigger] r.entries[i]).session.id < r.next_id
}

/// In a table whose ids are in order, looking up the id of an entry finds
/// that entry and no other.
pub proof fn lemma_ids_are_unique(r: RouterView, i: int)
    requires
        ids_in_order(r),
        0 <= i < r.entries.len(),
    ensures
        session_index(r.entries, r.entries[i].session.id) == i,
{
    lemma_session_index(r.entries, r.entries[i].session.id, i);
}

/// A change to the session of entry `i` that keeps its id keeps the ids
/// in order.
proof fn lemma_step_keeps_order(r: RouterView, i: int, s: SessionView, now: u64)
    requires
        ids_in_order(r),
        0 <= i < r.entries.len(),
        s.id == r.entries[i].session.id,
    ensures
        ids_in_order(with_session_at(r, i, s, now).0),
{
    let e = EntryView { session: s, ..r.entries[i] };
    let after = with_session_at(r, i, s, now).0;
    match concluded(e, now).0 {
        Some(kept) => {
            assert forall|a: int, b: int| 0 <= a < b < after.entries.len() implies (
            #[trigger] after.entries[a]).session.id < (#[trigger] after.entries[b]).session.id by {
                assert(after.entries[a].session.id == r.entries[a].session.id);
                assert(after.entries[b].session.id == r.entries[b].session.id);
            }
            assert forall|a: int| 0 <= a < after.entries.len() implies (
            #[trigger] after.entries[a]).session.id < after.next_id by {
                assert(after.entries[a].session.id == r.entries[a].session.id);
            }
        },
        None => {
            assert forall|a: int| 0 <= a < after.entries.len() implies (
            #[trigger] after.entries[a]) == r.entries[if a < i {
                a
            } else {
                a + 1
            }] by {}
            assert forall|a: int, b: int| 0 <= a < b < after.entries.len() implies (
            #[trigger] after.entries[a]).session.id < (#[trigger] after.entries[b]).session.id by {
                let a0 = if a < i {
                    a
                } else {
                    a + 1
                };
                let b0 = if b < i {
                    b
                } else {
                    b + 1
                };
                assert(after.entries[a] == r.entries[a0]);
                assert(after.entries[b] == r.entries[b0]);
            }
        },
    }
}

/// A new session gets an id above all others.
proof fn lemma_new_session_keeps_order(
    r: RouterView,
    direction: Direction,
    connection: Option<u64>,
    now: u64,
)
    requires
        ids_in_order(r),
        r.next_id < u64::MAX,
    ensures
        ids_in_order(with_new_session(r, direction, connection, now)),
{
    let grown = with_new_session(r, direction, connection, now);
    assert forall|a: int, b: int| 0 <= a < b < grown.entries.len() implies (
    #[trigger] grown.entries[a]).session.id < (#[trigger] grown.entries[b]).session.id by {
        assert(grown.entries[a] == r.entries[a]);
        if b < r.entries.len() {
            assert(grown.entries[b] == r.entries[b]);
        }
    }
    assert forall|a: int| 0 <= a < grown.entries.len() implies (
    #[trigger] grown.entries[a]).session.id < grown.next_id by {
        if a < r.entries.len() {
            assert(grown.entries[a] == r.entries[a]);
        }
    }
}

/// The entries that are left after some have gone are entries that were
/// there, in the order in which they were there.
proof fn lemma_survivors_keep_order(
    entries: Seq<EntryView>,
    now: u64,
    timeout: u64,
    all: bool,
    bound: u64,
)
    requires
        forall|i: int, j: int|
            0 <= i < j < entries.len() ==> (#[trigger] entries[i]).session.id < (
            #[trigger] entries[j]).session.id,
        forall|i: int| 0 <= i < entries.len() ==> (#[trigger] entries[i]).session.id < bound,
    ensures
        ({
            let kept = survivors(entries, now, timeout, all);
            &&& forall|i: int, j: int|
                0 <= i < j < kept.len() ==> (#[trigger] kept[i]).session.id < (
                #[trigger] kept[j]).session.id
            &&& forall|i: int| 0 <= i < kept.len() ==> (#[trigger] kept[i]).session.id < bound
            &&& forall|i: int|
                0 <= i < kept.len() ==> exists|k: int|
                    0 <= k < entries.len() && entries[k] == #[trigger] kept[i]
        }),
    decreases entries.len(),
{
    if entries.len() > 0 {
        let before = entries.drop_last();
        let last = entries.last();
        assert forall|i: int, j: int| 0 <= i < j < before.len() implies (
        #[trigger] before[i]).session.id < (#[trigger] before[j]).session.id by {
            assert(before[i] == entries[i]);
            assert(before[j] == entries[j]);
        }
        assert forall|i: int| 0 <= i < before.len() implies (#[trigger] before[i]).session.id
            < last.session.id by {
            assert(before[i] == entries[i]);
            assert(last == entries[entries.len() - 1]);
        }
        lemma_survivors_keep_order(before, now, timeout, all, last.session.id);
        lemma_survivors_keep_order(before, now, timeout, all, bound);
        let kept_before = survivors(before, now, timeout, all);
        let kept = survivors(entries, now, timeout, all);
        assert forall|i: int| 0 <= i < kept.len() implies exists|k: int|
            0 <= k < entries.len() && entries[k] == #[trigger] kept[i] by {
            if i < kept_before.len() {
                assert(kept[i] == kept_before[i]);
                let k = choose|k: int| 0 <= k < before.len() && before[k] == kept_before[i];
                assert(entries[k] == kept[i]);
            } else {
                assert(entries[entries.len() - 1] == kept[i]);
            }
        }
        assert forall|i: int, j: int| 0 <= i < j < kept.len() implies (
        #[trigger] kept[i]).session.id < (#[trigger] kept[j]).session.id by {
            assert(kept[i] == kept_before[i]);
            if j < kept_before.len() {
                assert(kept[j] == kept_before[j]);
            }
        }
        assert forall|i: int| 0 <= i < kept.len() implies (#[trigger] kept[i]).session.id
            < bound by {
            if i < kept_before.len() {
                assert(kept[i] == kept_before[i]);
            }
        }
    }
}

/// The table stays a mapping: a router starts with its ids in order, and
/// whatever reaches it, they stay in order. Ids are never used twice.
pub proof fn lemma_ids_stay_in_order(
    r: RouterView,
    origin: Origin,
    event: EventView,
    session: u64,
    data: Seq<u8>,
    now: u64,
)
    requires
        ids_in_order(r),
    ensures
        ids_in_order(empty_router(r.timeout, r.chunk_size)),
        ids_in_order(dispatched(r, origin, event, now).0),
        ids_in_order(on_file_ready(r, session, data, now).0),
        ids_in_order(on_frame_written(r, session, now).0),
        ids_in_order(on_io_failed(r, session, now).0),
        ids_in_order(expired(r, now).0),
        ids_in_order(shut_down(r).0),
{
    lemma_survivors_keep_order(r.entries, now, r.timeout, false, r.next_id);
    lemma_survivors_keep_order(r.entries, 0, r.timeout, true, r.next_id);
    lemma_dispatch_keeps_order(r, origin, event, now);
    lemma_sender_steps_keep_order(r, session, data, now);
}

/// See `lemma_ids_stay_in_order`; this is its part on messages.
proof fn lemma_dispatch_keeps_order(r: RouterView, origin: Origin, event: EventView, now: u64)
    requires
        ids_in_order(r),
    ensures
        ids_in_order(dispatched(r, origin, event, now).0),
{
    match event {
        EventView::Message(MessageView::Request(q)) => {
            if r.next_id < u64::MAX {
                lemma_new_session_keeps_order(r, Direction::Send, None, now);
            }
        },
        _ => {
            match origin {
                Origin::Network(c) => {
                    lemma_connection_event_keeps_order(r, c, event, now);
                },
                Origin::Local => {},
            }
        },
    }
}

/// See `lemma_ids_stay_in_order`; this is its part on what a connection
/// delivers.
proof fn lemma_connection_event_keeps_order(r: RouterView, c: u64, event: EventView, now: u64)
    requires
        ids_in_order(r),
        !(event matches EventView::Message(MessageView::Request(_))),
    ensures
        ids_in_order(dispatched(r, Origin::Network(c), event, now).0),
{
    let i = connection_index(r.entries, c);
    lemma_connection_found(r.entries, c);
    if i < r.entries.len() {
        let s = r.entries[i].session;
        match event {
            EventView::Message(MessageView::Header(h)) => {
                lemma_step_keeps_order(r, i, crate::session::after_header(s, h), now);
            },
            EventView::Message(MessageView::Chunk(k)) => {
                lemma_step_keeps_order(r, i, crate::session::after_chunk(s, k), now);
            },
            EventView::Malformed => {
                lemma_step_keeps_order(
                    r,
                    i,
                    after_failure(s, FailureReason::MalformedRequest),
                    now,
                );
            },
            EventView::PeerClosed => {
                lemma_step_keeps_order(r, i, crate::session::after_close(s), now);
            },
            _ => {},
        }
    } else {
        match event {
            EventView::Message(MessageView::Header(h)) => {
                if r.next_id < u64::MAX {
                    let grown = with_new_session(r, Direction::Receive, Some(c), now);
                    lemma_new_session_keeps_order(r, Direction::Receive, Some(c), now);
                    lemma_step_keeps_order(
                        grown,
                        i,
                        crate::session::after_header(grown.entries[i].session, h),
                        now,
                    );
                }
            },
            _ => {},
        }
    }
}

/// See `lemma_ids_stay_in_order`; this is its part on what senders are
/// told.
proof fn lemma_sender_steps_keep_order(r: RouterView, session: u64, data: Seq<u8>, now: u64)
    requires
        ids_in_order(r),
    ensures
        ids_in_order(on_file_ready(r, session, data, now).0),
        ids_in_order(on_frame_written(r, session, now).0),
        ids_in_order(on_io_failed(r, session, now).0),
{
    let i = session_index(r.entries, session);
    lemma_session_index_in_range(r.entries, session);
    if i < r.entries.len() {
        let s = r.entries[i].session;
        lemma_step_keeps_order(r, i, after_failure(s, FailureReason::IOError), now);
        let started = after_start(s, data, r.chunk_size as nat);
        lemma_step_keeps_order(r, i, after_next_frame(started), now);
        lemma_step_keeps_order(r, i, after_next_frame(s), now);
        let ready = on_file_ready(r, session, data, now).0;
        if s.direction == Direction::Send && s.state is Pending && next_frame_of(started)
            is Some {
            lemma_update_keeps_order(r, i, after_next_frame(started), now);
        }
        if is_sending(s) && next_frame_of(s) is Some {
            lemma_update_keeps_order(r, i, after_next_frame(s), now);
        }
    }
}

/// Putting a session with the same id in the place of entry `i` keeps
/// the ids in order.
proof fn lemma_update_keeps_order(r: RouterView, i: int, s: SessionView, now: u64)
    requires
        ids_in_order(r),
        0 <= i < r.entries.len(),
        s.id == r.entries[i].session.id,
    ensures
        ids_in_order(
            RouterView {
                entries: r.entries.update(
                    i,
                    EntryView { session: s, last_activity: now, ..r.entries[i] },
                ),
                ..r
            },
        ),
{
    let after = RouterView {
        entries: r.entries.update(i, EntryView { session: s, last_activity: now, ..r.entries[i] }),
        ..r
    };
    assert forall|a: int, b: int| 0 <= a < b < after.entries.len() implies (
    #[trigger] after.entries[a]).session.id < (#[trigger] after.entries[b]).session.id by {
        assert(after.entries[a].session.id == r.entries[a].session.id);
        assert(after.entries[b].session.id == r.entries[b].session.id);
    }
    assert forall|a: int| 0 <= a < after.entries.len() implies (
    #[trigger] after.entries[a]).session.id < after.next_id by {
        assert(after.entries[a].session.id == r.entries[a].session.id);
    }
}

} // verus!
