use p2p_transfer::digest::content_hash;
use p2p_transfer::session::{Direction, FailureReason, SessionState, TransferSession, Verdict};
use p2p_transfer::wire::{decode_message, Chunk, Header, Message};

const HASH_OF_TWELVE: [u8; 32] = [0x97, 0xb9, 0x88, 0x39, 0x15, 0xd8, 0x5c, 0xfd, 0xd1, 0x80, 0xef, 0x55, 0x2b, 0x68, 0xa5, 0x83, 0xa7, 0x06, 0xe6, 0xde, 0xaf, 0x49, 0xdc, 0x56, 0x35, 0x3d, 0xd0, 0x58, 0xe2, 0xa8, 0xb2, 0xef];

fn header() -> Header {
    Header::new(3, 12, HASH_OF_TWELVE.to_vec()).unwrap()
}

fn chunk(index: u32, payload: &[u8]) -> Chunk {
    Chunk::new(index, payload.to_vec()).unwrap()
}

fn verified(bytes: Vec<u8>) -> Verdict {
    let hash = content_hash(&bytes);
    Verdict::Verified { bytes, hash }
}

#[test]
fn new_session_is_pending() {
    let session = TransferSession::new(7, Direction::Receive);
    assert_eq!(session.id(), 7);
    assert_eq!(session.direction(), Direction::Receive);
    assert_eq!(session.state(), SessionState::Pending);
    assert_eq!(session.total_chunks(), None);
    assert_eq!(session.file_size(), None);
    assert_eq!(session.expected_hash(), None);
    assert!(!session.is_terminal());
    assert_eq!(session.frames_left(), 0);
}

#[test]
fn receiver_completes_with_the_announced_bytes() {
    let mut session = TransferSession::new(1, Direction::Receive);
    session.receive_header(header());
    assert_eq!(session.state(), SessionState::InProgress);
    assert_eq!(session.total_chunks(), Some(3));
    assert_eq!(session.file_size(), Some(12));
    assert_eq!(session.expected_hash(), Some(&HASH_OF_TWELVE.to_vec()));
    session.receive_chunk(chunk(0, b"AAAA"));
    assert_eq!(session.state(), SessionState::InProgress);
    session.receive_chunk(chunk(1, b"BBBB"));
    assert_eq!(session.state(), SessionState::InProgress);
    assert_eq!(session.verify(), Verdict::Unchecked);
    assert_eq!(session.state(), SessionState::InProgress);
    session.receive_chunk(chunk(2, b"CCCC"));
    assert_eq!(session.state(), SessionState::Verifying);
    assert_eq!(session.verify(), verified(b"AAAABBBBCCCC".to_vec()));
    assert_eq!(session.state(), SessionState::Complete);
    assert!(session.is_terminal());
}

#[test]
fn receiver_takes_chunks_in_any_order_and_twice() {
    let mut session = TransferSession::new(1, Direction::Receive);
    session.receive_header(header());
    session.receive_chunk(chunk(2, b"CCCC"));
    session.receive_chunk(chunk(2, b"CCCC"));
    session.receive_chunk(chunk(0, b"xxxx"));
    assert_eq!(session.state(), SessionState::InProgress);
    assert!(!session.chunk_map().is_complete(3));
    session.receive_chunk(chunk(0, b"AAAA"));
    assert_eq!(session.state(), SessionState::InProgress);
    session.receive_chunk(chunk(1, b"BBBB"));
    assert_eq!(session.state(), SessionState::Verifying);
    assert_eq!(session.verify(), verified(b"AAAABBBBCCCC".to_vec()));
}

#[test]
fn receiver_stops_taking_chunks_once_it_has_them_all() {
    let mut session = TransferSession::new(1, Direction::Receive);
    session.receive_header(header());
    session.receive_chunk(chunk(1, b"BBBB"));
    session.receive_chunk(chunk(0, b"AAAA"));
    session.receive_chunk(chunk(2, b"CCCC"));
    assert_eq!(session.state(), SessionState::Verifying);
    session.receive_chunk(chunk(2, b"late"));
    assert_eq!(session.verify(), verified(b"AAAABBBBCCCC".to_vec()));
}

#[test]
fn chunks_may_come_before_the_header() {
    let mut session = TransferSession::new(1, Direction::Receive);
    session.receive_chunk(chunk(1, b"BBBB"));
    assert_eq!(session.state(), SessionState::InProgress);
    session.receive_chunk(chunk(0, b"AAAA"));
    session.receive_chunk(chunk(2, b"CCCC"));
    assert_eq!(session.state(), SessionState::InProgress);
    session.receive_header(header());
    assert_eq!(session.state(), SessionState::Verifying);
    assert_eq!(session.verify(), verified(b"AAAABBBBCCCC".to_vec()));
}

#[test]
fn hash_mismatch_fails_the_session_and_gives_no_bytes() {
    let mut session = TransferSession::new(1, Direction::Receive);
    session.receive_header(header());
    session.receive_chunk(chunk(0, b"AAAA"));
    session.receive_chunk(chunk(1, b"BBBB"));
    session.receive_chunk(chunk(2, b"CCCD"));
    assert_eq!(session.state(), SessionState::Verifying);
    assert_eq!(
        session.verify(),
        Verdict::Mismatch {
            expected: HASH_OF_TWELVE.to_vec(),
            computed: content_hash(b"AAAABBBBCCCD"),
        }
    );
    assert_eq!(session.state(), SessionState::Failed(FailureReason::HashMismatch));
    assert_eq!(session.verify(), Verdict::Unchecked);
    assert_eq!(session.state(), SessionState::Failed(FailureReason::HashMismatch));
}

#[test]
fn empty_file_is_verified_at_once() {
    let mut session = TransferSession::new(1, Direction::Receive);
    session.receive_header(Header::new(0, 0, content_hash(b"")).unwrap());
    assert_eq!(session.state(), SessionState::Verifying);
    assert_eq!(session.verify(), verified(Vec::new()));
    assert_eq!(session.state(), SessionState::Complete);
}

#[test]
fn second_header_is_not_taken() {
    let mut session = TransferSession::new(1, Direction::Receive);
    session.receive_header(header());
    session.receive_header(Header::new(1, 4, vec![0; 32]).unwrap());
    assert_eq!(session.total_chunks(), Some(3));
    assert_eq!(session.state(), SessionState::InProgress);
}

#[test]
fn closed_connection_fails_a_transfer_that_is_not_whole() {
    let mut session = TransferSession::new(1, Direction::Receive);
    session.receive_header(header());
    session.receive_chunk(chunk(0, b"AAAA"));
    session.connection_closed();
    assert_eq!(session.state(), SessionState::Failed(FailureReason::ConnectionClosed));
    session.receive_chunk(chunk(1, b"BBBB"));
    session.receive_chunk(chunk(2, b"CCCC"));
    assert_eq!(session.state(), SessionState::Failed(FailureReason::ConnectionClosed));
    assert_eq!(session.verify(), Verdict::Unchecked);
    let mut pending = TransferSession::new(2, Direction::Receive);
    pending.connection_closed();
    assert_eq!(pending.state(), SessionState::Failed(FailureReason::ConnectionClosed));
}

#[test]
fn closed_connection_leaves_a_whole_transfer_alone() {
    let mut session = TransferSession::new(1, Direction::Receive);
    session.receive_header(header());
    session.receive_chunk(chunk(0, b"AAAA"));
    session.receive_chunk(chunk(1, b"BBBB"));
    session.receive_chunk(chunk(2, b"CCCC"));
    session.connection_closed();
    assert_eq!(session.state(), SessionState::Verifying);
    assert_eq!(session.verify(), verified(b"AAAABBBBCCCC".to_vec()));
    session.connection_closed();
    assert_eq!(session.state(), SessionState::Complete);
}

#[test]
fn every_failure_reason_can_end_a_session() {
    for reason in [
        FailureReason::MalformedRequest,
        FailureReason::ConnectionClosed,
        FailureReason::HashMismatch,
        FailureReason::IOError,
        FailureReason::Timeout,
    ] {
        let mut session = TransferSession::new(1, Direction::Receive);
        session.fail(reason);
        assert_eq!(session.state(), SessionState::Failed(reason));
        session.fail(FailureReason::Timeout);
        assert_eq!(session.state(), SessionState::Failed(reason));
    }
}

#[test]
fn sender_hands_out_header_then_chunks_then_completes() {
    let mut session = TransferSession::new(3, Direction::Send);
    session.start_send(b"AAAABBBBCCCC", 4);
    assert_eq!(session.state(), SessionState::InProgress);
    assert_eq!(session.total_chunks(), Some(3));
    assert_eq!(session.expected_hash(), Some(&HASH_OF_TWELVE.to_vec()));
    assert_eq!(session.frames_left(), 4);
    let first = session.next_frame().unwrap();
    let mut expected = b"FILE\x00\x00\x00\x03\x00\x00\x00\x0c".to_vec();
    expected.extend(HASH_OF_TWELVE);
    assert_eq!(first, expected);
    assert_eq!(session.next_frame().unwrap(), b"FILE\x00\x00\x00\x00\x00\x00\x00\x04AAAA".to_vec());
    assert_eq!(session.next_frame().unwrap(), b"FILE\x00\x00\x00\x01\x00\x00\x00\x04BBBB".to_vec());
    assert_eq!(session.next_frame().unwrap(), b"FILE\x00\x00\x00\x02\x00\x00\x00\x04CCCC".to_vec());
    assert_eq!(session.state(), SessionState::InProgress);
    assert_eq!(session.next_frame(), None);
    assert_eq!(session.state(), SessionState::Complete);
    assert_eq!(session.next_frame(), None);
}

#[test]
fn sender_counts_chunks_by_rounding_up() {
    for (len, chunk_size, count) in [(0usize, 4usize, 0u32), (1, 4, 1), (4, 4, 1), (5, 4, 2), (4096, 4096, 1), (4097, 4096, 2), (10, 1, 10)] {
        let mut session = TransferSession::new(1, Direction::Send);
        session.start_send(&vec![9; len], chunk_size);
        assert_eq!(session.total_chunks(), Some(count));
        assert_eq!(session.frames_left(), count as usize + 1);
    }
}

#[test]
fn sender_fails_with_a_chunk_size_of_zero() {
    let mut session = TransferSession::new(1, Direction::Send);
    session.start_send(b"abc", 0);
    assert_eq!(session.state(), SessionState::Failed(FailureReason::IOError));
    assert_eq!(session.next_frame(), None);
}

#[test]
fn receiver_does_not_send_and_sender_does_not_receive() {
    let mut receiver = TransferSession::new(1, Direction::Receive);
    receiver.start_send(b"abc", 1);
    assert_eq!(receiver.state(), SessionState::Pending);
    assert_eq!(receiver.next_frame(), None);
    let mut sender = TransferSession::new(2, Direction::Send);
    sender.receive_header(header());
    sender.receive_chunk(chunk(0, b"AAAA"));
    assert_eq!(sender.state(), SessionState::Pending);
    assert_eq!(sender.total_chunks(), None);
}

#[test]
fn what_a_sender_sends_a_receiver_completes() {
    let data: Vec<u8> = (0..10_000u32).map(|i| (i % 251) as u8).collect();
    for chunk_size in [1usize, 7, 4096, 10_000, 20_000] {
        let mut sender = TransferSession::new(1, Direction::Send);
        sender.start_send(&data, chunk_size);
        let mut receiver = TransferSession::new(2, Direction::Receive);
        let mut header_seen = false;
        while let Some(frame) = sender.next_frame() {
            let (message, used) = decode_message(&frame, header_seen).unwrap();
            assert_eq!(used, frame.len());
            match message {
                Message::Header(h) => {
                    header_seen = true;
                    receiver.receive_header(h);
                }
                Message::Chunk(c) => receiver.receive_chunk(c),
                Message::Request(_) => panic!("a sender sends no request"),
            }
        }
        assert_eq!(sender.state(), SessionState::Complete);
        assert_eq!(receiver.state(), SessionState::Verifying);
        assert_eq!(receiver.verify(), verified(data.clone()));
    }
}
