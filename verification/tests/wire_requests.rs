use p2p_transfer::wire::{
    decode_header, decode_message, decode_request, encode_header, encode_message, encode_request,
    parse_request, Action, Chunk, DecodeError, Header, Message, Request, GET_FILE, HASH_LEN,
    HEADER_LEN,
};

fn request(port: &str) -> Request {
    Request::new(Action::GetFile, port.to_string()).unwrap()
}

#[test]
fn parse_request_takes_keyword_and_port() {
    let parsed = parse_request("GET_FILE9000".to_string()).unwrap();
    assert_eq!(parsed.action(), Action::GetFile);
    assert_eq!(parsed.target_port(), "9000");
}

#[test]
fn parse_request_refuses_what_lacks_the_keyword() {
    for line in ["", "GET", "GET_FIL", "get_file9000", "PUT_FILE9000", " GET_FILE9000", "FILE9000"] {
        assert_eq!(parse_request(line.to_string()), Err(DecodeError::MalformedRequest), "{line}");
    }
}

#[test]
fn parse_request_refuses_an_empty_port() {
    assert_eq!(parse_request(GET_FILE.to_string()), Err(DecodeError::MalformedRequest));
}

#[test]
fn parse_request_refuses_a_port_that_is_not_digits() {
    for line in ["GET_FILEabc", "GET_FILE90a0", "GET_FILE9000 ", "GET_FILE-1", "GET_FILE9000\n", "GET_FILE９０"] {
        assert_eq!(parse_request(line.to_string()), Err(DecodeError::MalformedRequest), "{line}");
    }
}

#[test]
fn request_new_holds_the_invariant() {
    assert!(Request::new(Action::GetFile, "0".to_string()).is_some());
    assert!(Request::new(Action::GetFile, "".to_string()).is_none());
    assert!(Request::new(Action::GetFile, "12x".to_string()).is_none());
    assert!(Request::new(Action::GetFile, "é".to_string()).is_none());
}

#[test]
fn request_line_has_the_documented_layout() {
    assert_eq!(encode_request(&request("9000")), b"GET_FILE9000\n".to_vec());
}

#[test]
fn request_line_decodes_to_the_request_it_encodes() {
    let line = encode_request(&request("65535"));
    let (back, used) = decode_request(&line).unwrap();
    assert_eq!(back, request("65535"));
    assert_eq!(used, line.len());
}

#[test]
fn request_line_leaves_what_follows_it() {
    let (back, used) = decode_request(b"GET_FILE80\nGET_FILE81\n").unwrap();
    assert_eq!(back, request("80"));
    assert_eq!(used, 11);
}

#[test]
fn request_line_without_newline_is_truncated() {
    for part in ["", "G", "GET_", "GET_FILE", "GET_FILE9", "GET_FILE9000"] {
        assert_eq!(decode_request(part.as_bytes()), Err(DecodeError::TruncatedFrame), "{part}");
    }
}

#[test]
fn request_line_that_breaks_the_grammar_is_malformed() {
    for bad in ["X", "GET_FILX", "GET_FILE\n", "GET_FILEx\n", "GET_FILE90 \n", "GET_FILE90\r\n"] {
        assert_eq!(decode_request(bad.as_bytes()), Err(DecodeError::MalformedRequest), "{bad}");
    }
}

#[test]
fn header_frame_has_the_documented_layout() {
    let header = Header::new(3, 12, vec![0xab; HASH_LEN]).unwrap();
    let frame = encode_header(&header);
    assert_eq!(frame.len(), HEADER_LEN);
    assert_eq!(&frame[..4], b"FILE");
    assert_eq!(&frame[4..8], &[0, 0, 0, 3]);
    assert_eq!(&frame[8..12], &[0, 0, 0, 12]);
    assert_eq!(&frame[12..], &[0xab; 32]);
}

#[test]
fn header_frame_decodes_to_the_header_it_encodes() {
    let hash: Vec<u8> = (0..32).collect();
    let header = Header::new(0xdead_beef, 0x0102_0304, hash.clone()).unwrap();
    let frame = encode_header(&header);
    assert_eq!(&frame[4..12], &[0xde, 0xad, 0xbe, 0xef, 1, 2, 3, 4]);
    let (back, used) = decode_header(&frame).unwrap();
    assert_eq!(used, HEADER_LEN);
    assert_eq!(back.total_chunks(), 0xdead_beef);
    assert_eq!(back.file_size(), 0x0102_0304);
    assert_eq!(back.file_hash(), &hash);
    assert_eq!(back, header);
}

#[test]
fn header_needs_a_whole_hash() {
    assert!(Header::new(1, 1, vec![0; 31]).is_none());
    assert!(Header::new(1, 1, vec![0; 33]).is_none());
    assert!(Header::new(1, 1, Vec::new()).is_none());
}

#[test]
fn header_frame_cut_short_is_truncated() {
    let frame = encode_header(&Header::new(1, 2, vec![7; 32]).unwrap());
    for cut in 0..frame.len() {
        assert_eq!(decode_header(&frame[..cut]), Err(DecodeError::TruncatedFrame));
    }
    assert_eq!(decode_header(b"FIL_"), Err(DecodeError::MalformedRequest));
}

#[test]
fn first_frame_is_the_header_and_later_frames_are_chunks() {
    let header = Header::new(1, 32, vec![1; 32]).unwrap();
    let bytes = encode_header(&header);
    assert_eq!(decode_message(&bytes, false), Ok((Message::Header(header), 44)));
    match decode_message(&bytes, true) {
        Ok((Message::Chunk(chunk), used)) => {
            assert_eq!(chunk.index(), 1);
            assert_eq!(chunk.payload().len(), 32);
            assert_eq!(used, 44);
        }
        other => panic!("not a chunk: {other:?}"),
    }
}

#[test]
fn message_decoder_tells_requests_from_frames() {
    let line = encode_message(&Message::Request(request("7")));
    assert_eq!(decode_message(&line, false), Ok((Message::Request(request("7")), 10)));
    assert_eq!(decode_message(&line, true), Ok((Message::Request(request("7")), 10)));
    let chunk = Chunk::new(2, b"xy".to_vec()).unwrap();
    let frame = encode_message(&Message::Chunk(chunk.clone()));
    assert_eq!(decode_message(&frame, true), Ok((Message::Chunk(chunk), 14)));
    assert_eq!(decode_message(&frame, false), Err(DecodeError::TruncatedFrame));
}

#[test]
fn message_decoder_asks_for_more_on_nothing_and_refuses_garbage() {
    assert_eq!(decode_message(b"", false), Err(DecodeError::TruncatedFrame));
    assert_eq!(decode_message(b"Hello World", false), Err(DecodeError::MalformedRequest));
    assert_eq!(decode_message(b"Hello World", true), Err(DecodeError::MalformedRequest));
    assert_eq!(decode_message(b"GOT", true), Err(DecodeError::MalformedRequest));
}

#[test]
fn clones_are_equal() {
    let chunk = Chunk::new(9, vec![1, 2, 3]).unwrap();
    assert_eq!(chunk.clone(), chunk);
    let header = Header::new(1, 3, vec![0; 32]).unwrap();
    assert_eq!(header.clone(), header);
    let message = Message::Request(request("1"));
    assert_eq!(message.clone(), message);
}
