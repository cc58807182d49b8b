use p2p_transfer::wire::{decode_chunk, encode_chunk, Chunk, DecodeError};

#[test]
fn chunk_frame_has_the_documented_layout() {
    let chunk = Chunk::new(1, b"BBBB".to_vec()).unwrap();
    let frame = encode_chunk(&chunk);
    assert_eq!(frame, b"FILE\x00\x00\x00\x01\x00\x00\x00\x04BBBB".to_vec());
}

#[test]
fn chunk_frame_decodes_to_the_chunk_it_encodes() {
    let chunk = Chunk::new(0x01020304, vec![9, 8, 7]).unwrap();
    let frame = encode_chunk(&chunk);
    let (back, used) = decode_chunk(&frame).unwrap();
    assert_eq!(back, chunk);
    assert_eq!(used, frame.len());
}

#[test]
fn chunk_frame_cut_short_is_truncated() {
    let frame = encode_chunk(&Chunk::new(7, b"payload".to_vec()).unwrap());
    for cut in 0..frame.len() {
        assert_eq!(decode_chunk(&frame[..cut]), Err(DecodeError::TruncatedFrame));
    }
}

#[test]
fn chunk_frame_without_its_tag_is_malformed() {
    assert_eq!(decode_chunk(b"FILX"), Err(DecodeError::MalformedRequest));
    assert_eq!(decode_chunk(b"G"), Err(DecodeError::MalformedRequest));
}
