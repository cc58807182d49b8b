use p2p_transfer::handler::{ConnectionHandler, Event};
use p2p_transfer::wire::{encode_chunk, encode_header, encode_request, Action, Chunk, Header, Message, Request};

fn header() -> Header {
    Header::new(3, 12, vec![5; 32]).unwrap()
}

fn chunk(index: u32, payload: &[u8]) -> Chunk {
    Chunk::new(index, payload.to_vec()).unwrap()
}

fn past_header() -> ConnectionHandler {
    let mut handler = ConnectionHandler::new(1);
    assert_eq!(handler.feed(&encode_header(&header())), vec![Event::Message(Message::Header(header()))]);
    handler
}

#[test]
fn whole_chunk_frame_gives_its_chunk() {
    let mut handler = past_header();
    let frame = encode_chunk(&chunk(0, b"AAAA"));
    assert_eq!(handler.feed(&frame), vec![Event::Message(Message::Chunk(chunk(0, b"AAAA")))]);
    assert_eq!(handler.buffered(), 0);
}

#[test]
fn chunk_frame_split_anywhere_gives_the_same_chunk() {
    let frame = encode_chunk(&chunk(5, b"some payload bytes"));
    for cut in 0..=frame.len() {
        let mut handler = past_header();
        let mut events = handler.feed(&frame[..cut]);
        if cut < frame.len() {
            assert!(events.is_empty());
            assert_eq!(handler.buffered(), cut);
        }
        events.extend(handler.feed(&frame[cut..]));
        assert_eq!(events, vec![Event::Message(Message::Chunk(chunk(5, b"some payload bytes")))]);
        assert_eq!(handler.buffered(), 0);
    }
}

#[test]
fn chunk_frame_fed_byte_by_byte_gives_the_same_chunk() {
    let frame = encode_chunk(&chunk(1, b"BBBB"));
    let mut handler = past_header();
    let mut events = Vec::new();
    for byte in &frame {
        events.extend(handler.feed(&[*byte]));
    }
    assert_eq!(events, vec![Event::Message(Message::Chunk(chunk(1, b"BBBB")))]);
}

#[test]
fn one_read_may_hold_many_frames_and_the_start_of_another() {
    let mut stream = encode_header(&header());
    stream.extend(encode_chunk(&chunk(0, b"AAAA")));
    stream.extend(encode_chunk(&chunk(1, b"BBBB")));
    let last = encode_chunk(&chunk(2, b"CCCC"));
    stream.extend(&last[..7]);
    let mut handler = ConnectionHandler::new(4);
    assert_eq!(
        handler.feed(&stream),
        vec![
            Event::Message(Message::Header(header())),
            Event::Message(Message::Chunk(chunk(0, b"AAAA"))),
            Event::Message(Message::Chunk(chunk(1, b"BBBB"))),
        ]
    );
    assert_eq!(handler.buffered(), 7);
    assert_eq!(handler.feed(&last[7..]), vec![Event::Message(Message::Chunk(chunk(2, b"CCCC")))]);
}

#[test]
fn request_lines_are_decoded_one_by_one() {
    let mut handler = ConnectionHandler::new(2);
    let request = Request::new(Action::GetFile, "9001".to_string()).unwrap();
    let mut bytes = encode_request(&request);
    bytes.extend(b"GET_FILE90");
    assert_eq!(handler.feed(&bytes), vec![Event::Message(Message::Request(request))]);
    assert_eq!(handler.buffered(), 10);
    let second = Request::new(Action::GetFile, "9002".to_string()).unwrap();
    assert_eq!(handler.feed(b"02\n"), vec![Event::Message(Message::Request(second))]);
}

#[test]
fn garbage_stops_the_handler() {
    let mut handler = ConnectionHandler::new(3);
    let mut bytes = encode_request(&Request::new(Action::GetFile, "1".to_string()).unwrap());
    bytes.extend(b"Hello World");
    let events = handler.feed(&bytes);
    assert_eq!(events.len(), 2);
    assert!(matches!(events[0], Event::Message(Message::Request(_))));
    assert_eq!(events[1], Event::Malformed);
    assert!(!handler.is_open());
    assert_eq!(handler.buffered(), 0);
    assert!(handler.feed(b"GET_FILE1\n").is_empty());
}

#[test]
fn end_of_stream_is_reported_once() {
    let mut handler = ConnectionHandler::new(8);
    assert_eq!(handler.connection(), 8);
    assert!(handler.is_open());
    handler.feed(b"FIL");
    assert_eq!(handler.end_of_stream(), vec![Event::PeerClosed]);
    assert!(!handler.is_open());
    assert!(handler.end_of_stream().is_empty());
    assert!(handler.feed(b"E").is_empty());
}

#[test]
fn empty_read_changes_nothing() {
    let mut handler = past_header();
    handler.feed(b"FILE\x00");
    assert!(handler.feed(b"").is_empty());
    assert_eq!(handler.buffered(), 5);
}
