use p2p_transfer::console::command_event;
use p2p_transfer::digest::content_hash;
use p2p_transfer::handler::{ConnectionHandler, Event};
use p2p_transfer::router::{Action, Origin, Router};
use p2p_transfer::session::{FailureReason, SessionState};
use p2p_transfer::wire::{encode_chunk, encode_header, Chunk, Header, Message};

fn header_for(data: &[u8], total_chunks: u32) -> Header {
    Header::new(total_chunks, data.len() as u32, content_hash(data)).unwrap()
}

fn chunk(index: u32, payload: &[u8]) -> Chunk {
    Chunk::new(index, payload.to_vec()).unwrap()
}

fn deliver(router: &mut Router, handler: &mut ConnectionHandler, bytes: &[u8], now: u64) -> Vec<Action> {
    let origin = Origin::Network(handler.connection());
    let mut actions = Vec::new();
    for event in handler.feed(bytes) {
        actions.extend(router.dispatch(origin, event, now));
    }
    actions
}

#[test]
fn end_to_end_transfer_is_persisted() {
    let mut router = Router::new(30, 4096);
    let mut handler = ConnectionHandler::new(9000);
    let data = b"AAAABBBBCCCC";
    assert!(deliver(&mut router, &mut handler, &encode_header(&header_for(data, 3)), 1).is_empty());
    let session = router.session_of(9000).unwrap();
    assert_eq!(router.state_of(session), Some(SessionState::InProgress));
    assert!(deliver(&mut router, &mut handler, &encode_chunk(&chunk(0, b"AAAA")), 2).is_empty());
    assert!(deliver(&mut router, &mut handler, &encode_chunk(&chunk(1, b"BBBB")), 3).is_empty());
    let actions = deliver(&mut router, &mut handler, &encode_chunk(&chunk(2, b"CCCC")), 4);
    assert_eq!(
        actions,
        vec![Action::Persist { session, bytes: data.to_vec(), hash: content_hash(data) }]
    );
    assert_eq!(router.session_count(), 0);
    assert_eq!(router.state_of(session), None);
    assert_eq!(router.session_of(9000), None);
}

#[test]
fn connection_drop_fails_the_session_and_writes_nothing() {
    let mut router = Router::new(30, 4096);
    let mut handler = ConnectionHandler::new(5);
    let mut stream = encode_header(&header_for(b"AAAABBBBCCCC", 3));
    stream.extend(encode_chunk(&chunk(0, b"AAAA")));
    assert!(deliver(&mut router, &mut handler, &stream, 1).is_empty());
    let session = router.session_of(5).unwrap();
    let mut actions = Vec::new();
    for event in handler.end_of_stream() {
        actions.extend(router.dispatch(Origin::Network(5), event, 2));
    }
    assert_eq!(
        actions,
        vec![
            Action::Failure { session, reason: FailureReason::ConnectionClosed },
            Action::CloseConnection { connection: 5 },
        ]
    );
    assert_eq!(router.session_count(), 0);
}

#[test]
fn hash_mismatch_is_reported_and_nothing_is_persisted() {
    let mut router = Router::new(30, 4096);
    let mut handler = ConnectionHandler::new(5);
    let mut stream = encode_header(&header_for(b"AAAABBBB", 2));
    stream.extend(encode_chunk(&chunk(0, b"AAAA")));
    stream.extend(encode_chunk(&chunk(1, b"BBBX")));
    let actions = deliver(&mut router, &mut handler, &stream, 1);
    assert_eq!(
        actions,
        vec![
            Action::Mismatch {
                session: 0,
                expected: content_hash(b"AAAABBBB"),
                computed: content_hash(b"AAAABBBX"),
            },
            Action::Failure { session: 0, reason: FailureReason::HashMismatch },
            Action::CloseConnection { connection: 5 },
        ]
    );
    assert_eq!(router.session_count(), 0);
}

#[test]
fn garbage_fails_the_session_and_closes_the_connection() {
    let mut router = Router::new(30, 4096);
    let mut handler = ConnectionHandler::new(5);
    let mut stream = encode_header(&header_for(b"AAAA", 1));
    stream.extend(b"Hello World");
    let actions = deliver(&mut router, &mut handler, &stream, 1);
    assert_eq!(
        actions,
        vec![
            Action::Failure { session: 0, reason: FailureReason::MalformedRequest },
            Action::CloseConnection { connection: 5 },
        ]
    );
    let mut fresh = ConnectionHandler::new(6);
    assert_eq!(
        deliver(&mut router, &mut fresh, b"Hello World", 2),
        vec![Action::CloseConnection { connection: 6 }]
    );
}

#[test]
fn sessions_of_different_connections_do_not_mix() {
    let mut router = Router::new(30, 4096);
    let mut first = ConnectionHandler::new(1);
    let mut second = ConnectionHandler::new(2);
    deliver(&mut router, &mut first, &encode_header(&header_for(b"AAAABBBB", 2)), 1);
    deliver(&mut router, &mut second, &encode_header(&header_for(b"CCCCDDDD", 2)), 1);
    deliver(&mut router, &mut first, &encode_chunk(&chunk(0, b"AAAA")), 2);
    deliver(&mut router, &mut second, &encode_chunk(&chunk(1, b"DDDD")), 2);
    assert_eq!(router.session_count(), 2);
    let broken = router.dispatch(Origin::Network(1), Event::Malformed, 3);
    assert_eq!(broken.len(), 2);
    assert_eq!(router.session_count(), 1);
    let actions = deliver(&mut router, &mut second, &encode_chunk(&chunk(0, b"CCCC")), 4);
    assert_eq!(
        actions,
        vec![Action::Persist { session: 1, bytes: b"CCCCDDDD".to_vec(), hash: content_hash(b"CCCCDDDD") }]
    );
}

#[test]
fn request_starts_a_sender_that_sends_frame_by_frame() {
    let mut router = Router::new(30, 4);
    let event = command_event("GET_FILE9001").unwrap();
    let actions = router.dispatch(Origin::Local, event, 10);
    assert_eq!(
        actions,
        vec![Action::OpenTransfer { session: 0, target_port: "9001".to_string(), origin: Origin::Local }]
    );
    assert_eq!(router.state_of(0), Some(SessionState::Pending));
    let mut written = Vec::new();
    let mut actions = router.file_ready(0, b"AAAABBBBCC", 11);
    loop {
        match actions.pop() {
            Some(Action::SendFrame { session: 0, frame }) => {
                assert!(actions.is_empty());
                written.extend(frame);
                actions = router.frame_written(0, 12);
            }
            Some(Action::Sent { session: 0 }) => break,
            other => panic!("unexpected: {other:?}"),
        }
    }
    assert_eq!(router.session_count(), 0);
    let mut receiver = Router::new(30, 4);
    let mut handler = ConnectionHandler::new(77);
    let done = deliver(&mut receiver, &mut handler, &written, 1);
    assert_eq!(
        done,
        vec![Action::Persist { session: 0, bytes: b"AAAABBBBCC".to_vec(), hash: content_hash(b"AAAABBBBCC") }]
    );
}

#[test]
fn request_from_the_network_starts_a_sender_too() {
    let mut router = Router::new(30, 4);
    let mut handler = ConnectionHandler::new(3);
    let actions = deliver(&mut router, &mut handler, b"GET_FILE9000\n", 1);
    assert_eq!(
        actions,
        vec![Action::OpenTransfer { session: 0, target_port: "9000".to_string(), origin: Origin::Network(3) }]
    );
    assert_eq!(router.session_of(3), None);
}

#[test]
fn io_failure_fails_the_session() {
    let mut router = Router::new(30, 4);
    router.dispatch(Origin::Local, command_event("GET_FILE1").unwrap(), 1);
    assert_eq!(
        router.io_failed(0, 2),
        vec![Action::Failure { session: 0, reason: FailureReason::IOError }]
    );
    assert!(router.io_failed(0, 3).is_empty());
    assert!(router.file_ready(0, b"x", 3).is_empty());
    assert!(router.frame_written(0, 3).is_empty());
}

#[test]
fn sender_with_a_chunk_size_of_zero_fails_with_io_error() {
    let mut router = Router::new(30, 0);
    router.dispatch(Origin::Local, command_event("GET_FILE1").unwrap(), 1);
    assert_eq!(
        router.file_ready(0, b"abc", 2),
        vec![Action::Failure { session: 0, reason: FailureReason::IOError }]
    );
}

#[test]
fn idle_sessions_time_out() {
    let mut router = Router::new(30, 4096);
    let mut old = ConnectionHandler::new(1);
    let mut busy = ConnectionHandler::new(2);
    deliver(&mut router, &mut old, &encode_header(&header_for(b"AAAABBBB", 2)), 100);
    deliver(&mut router, &mut busy, &encode_header(&header_for(b"AAAABBBB", 2)), 100);
    deliver(&mut router, &mut busy, &encode_chunk(&chunk(0, b"AAAA")), 120);
    assert!(router.expire(129).is_empty());
    assert_eq!(
        router.expire(130),
        vec![
            Action::Failure { session: 0, reason: FailureReason::Timeout },
            Action::CloseConnection { connection: 1 },
        ]
    );
    assert_eq!(router.session_count(), 1);
    assert!(router.expire(149).is_empty());
    assert_eq!(router.expire(150).len(), 2);
    assert_eq!(router.session_count(), 0);
}

#[test]
fn shutdown_fails_every_session_in_flight() {
    let mut router = Router::new(30, 4096);
    let mut handler = ConnectionHandler::new(1);
    deliver(&mut router, &mut handler, &encode_header(&header_for(b"AAAABBBB", 2)), 1);
    router.dispatch(Origin::Local, command_event("GET_FILE1").unwrap(), 1);
    assert_eq!(
        router.shutdown(),
        vec![
            Action::Failure { session: 0, reason: FailureReason::ConnectionClosed },
            Action::CloseConnection { connection: 1 },
            Action::Failure { session: 1, reason: FailureReason::ConnectionClosed },
        ]
    );
    assert_eq!(router.session_count(), 0);
    assert!(router.shutdown().is_empty());
}

#[test]
fn frames_from_the_console_and_chunks_without_a_session_are_dropped() {
    let mut router = Router::new(30, 4096);
    let header = header_for(b"AAAA", 1);
    assert!(router.dispatch(Origin::Local, Event::Message(Message::Header(header)), 1).is_empty());
    assert!(router.dispatch(Origin::Local, Event::Message(Message::Chunk(chunk(0, b"AAAA"))), 1).is_empty());
    assert!(router.dispatch(Origin::Local, Event::Malformed, 1).is_empty());
    assert!(router.dispatch(Origin::Local, Event::PeerClosed, 1).is_empty());
    assert!(router.dispatch(Origin::Network(4), Event::Message(Message::Chunk(chunk(0, b"AAAA"))), 1).is_empty());
    assert!(router.dispatch(Origin::Network(4), Event::PeerClosed, 1).is_empty());
    assert_eq!(router.session_count(), 0);
}

#[test]
fn empty_file_is_persisted_on_its_header() {
    let mut router = Router::new(30, 4096);
    let mut handler = ConnectionHandler::new(1);
    let actions = deliver(&mut router, &mut handler, &encode_header(&header_for(b"", 0)), 1);
    assert_eq!(actions, vec![Action::Persist { session: 0, bytes: Vec::new(), hash: content_hash(b"") }]);
}
