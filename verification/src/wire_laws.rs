//! What holds of the wire codec for every message and every buffer.

use crate::wire::{
    agrees, ascii_bytes, ascii_chars, be32, digits_end, file_tag, from_be32, is_digit,
    is_digit_char, is_port, is_request_line, keyword, keyword_chars, lemma_be32_decodes,
    lemma_be32_encodes, newline, spec_decode_chunk, spec_decode_header, spec_decode_message,
    spec_decode_request, spec_encode_chunk, spec_encode_header, spec_encode_message,
    spec_encode_request, spec_parse_request, Action, ChunkView, DecodeError, HeaderView,
    MessageView, RequestView, HASH_LEN, HEADER_LEN,
};
use vstd::prelude::*;

verus! {

/// A run of digits ends where `digits_end` says: every byte before that
/// place is a digit, and the byte at it, if there is one, is none.
pub proof fn lemma_digits_end_is_end(buf: Seq<u8>, at: int)
    requires
        0 <= at <= buf.len(),
    ensures
        at <= digits_end(buf, at) <= buf.len(),
        forall|j: int| at <= j < digits_end(buf, at) ==> is_digit(buf[j]),
        digits_end(buf, at) < buf.len() ==> !is_digit(buf[digits_end(buf, at)]),
    decreases buf.len() - at,
{
    if at < buf.len() && is_digit(buf[at]) {
        lemma_digits_end_is_end(buf, at + 1);
    }
}

/// A place that ends a run of digits is the one `digits_end` finds.
pub proof fn lemma_digits_end_unique(buf: Seq<u8>, at: int, end: int)
    requires
        0 <= at <= end <= buf.len(),
        forall|j: int| at <= j < end ==> is_digit(buf[j]),
        end < buf.len() ==> !is_digit(buf[end]),
    ensures
        digits_end(buf, at) == end,
    decreases end - at,
{
    if at < end {
        lemma_digits_end_unique(buf, at + 1, end);
    }
}

/// The text of a port and its bytes stand for each other.
pub proof fn lemma_port_bytes(port: Seq<char>)
    requires
        is_port(port),
    ensures
        ascii_bytes(port).len() == port.len(),
        forall|i: int| 0 <= i < port.len() ==> is_digit(#[trigger] ascii_bytes(port)[i]),
        ascii_chars(ascii_bytes(port)) == port,
{
    assert forall|i: int| 0 <= i < port.len() implies is_digit(#[trigger] ascii_bytes(port)[i])
        && (ascii_bytes(port)[i] as char) == port[i] by {
        assert(is_digit_char(port[i]));
    }
    assert(ascii_chars(ascii_bytes(port)) =~= port);
}

/// A chunk frame decodes to the chunk it encodes and takes exactly its own
/// bytes, whatever follows it in the buffer.
pub proof fn lemma_chunk_round_trip(c: ChunkView, rest: Seq<u8>)
    requires
        c.payload.len() <= u32::MAX,
    ensures
        spec_encode_chunk(c).len() == 12 + c.payload.len(),
        spec_decode_chunk(spec_encode_chunk(c) + rest) == Ok::<(ChunkView, nat), DecodeError>(
            (c, spec_encode_chunk(c).len()),
        ),
{
    reveal(spec_decode_chunk);
    let frame = spec_encode_chunk(c);
    let buf = frame + rest;
    let len = c.payload.len() as u32;
    lemma_be32_decodes(c.index);
    lemma_be32_decodes(len);
    assert(buf.subrange(4, 8) =~= be32(c.index));
    assert(buf.subrange(8, 12) =~= be32(len));
    assert(buf.subrange(12, 12 + len as int) =~= c.payload);
    assert(agrees(buf, file_tag()));
}

/// A header frame decodes to the header it encodes and takes exactly its
/// own bytes, whatever follows it in the buffer.
pub proof fn lemma_header_round_trip(h: HeaderView, rest: Seq<u8>)
    requires
        h.file_hash.len() == HASH_LEN,
    ensures
        spec_encode_header(h).len() == HEADER_LEN,
        spec_decode_header(spec_encode_header(h) + rest) == Ok::<(HeaderView, nat), DecodeError>(
            (h, HEADER_LEN as nat),
        ),
{
    reveal(spec_decode_header);
    let buf = spec_encode_header(h) + rest;
    lemma_be32_decodes(h.total_chunks);
    lemma_be32_decodes(h.file_size);
    assert(buf.subrange(4, 8) =~= be32(h.total_chunks));
    assert(buf.subrange(8, 12) =~= be32(h.file_size));
    assert(buf.subrange(12, 44) =~= h.file_hash);
    assert(agrees(buf, file_tag()));
}

/// A request line decodes to the request it encodes and takes exactly its
/// own bytes, whatever follows it in the buffer.
pub proof fn lemma_request_round_trip(q: RequestView, rest: Seq<u8>)
    requires
        is_port(q.target_port),
        q.action == Action::GetFile,
    ensures
        spec_encode_request(q).len() == 9 + q.target_port.len(),
        spec_decode_request(spec_encode_request(q) + rest) == Ok::<
            (RequestView, nat),
            DecodeError,
        >((q, spec_encode_request(q).len())),
{
    reveal(spec_decode_request);
    let line = spec_encode_request(q);
    let buf = line + rest;
    let end = 8 + q.target_port.len();
    lemma_port_bytes(q.target_port);
    assert(agrees(buf, keyword()));
    assert forall|j: int| 8 <= j < end implies is_digit(buf[j]) by {
        assert(buf[j] == ascii_bytes(q.target_port)[j - 8]);
    }
    assert(buf[end as int] == newline());
    lemma_digits_end_unique(buf, 8, end as int);
    assert(buf.subrange(8, end as int) =~= ascii_bytes(q.target_port));
}

/// A message decodes to itself: a request whatever the position, a header
/// as the first frame, a chunk after it.
pub proof fn lemma_message_round_trip(m: MessageView, rest: Seq<u8>, header_seen: bool)
    requires
        match m {
            MessageView::Request(q) => is_port(q.target_port) && q.action == Action::GetFile,
            MessageView::Header(h) => h.file_hash.len() == HASH_LEN && !header_seen,
            MessageView::Chunk(c) => c.payload.len() <= u32::MAX && header_seen,
        },
    ensures
        spec_decode_message(spec_encode_message(m) + rest, header_seen) == Ok::<
            (MessageView, nat),
            DecodeError,
        >((m, spec_encode_message(m).len())),
{
    let buf = spec_encode_message(m) + rest;
    match m {
        MessageView::Request(q) => {
            lemma_request_round_trip(q, rest);
            assert(buf[0] == keyword()[0]);
        },
        MessageView::Header(h) => {
            lemma_header_round_trip(h, rest);
            assert(buf[0] == file_tag()[0]);
        },
        MessageView::Chunk(c) => {
            lemma_chunk_round_trip(c, rest);
            assert(buf[0] == file_tag()[0]);
        },
    }
}

/// Every proper prefix of a chunk frame is reported as truncated: the codec
/// asks for more bytes and never mistakes a part of a frame for a frame or
/// for garbage.
pub proof fn lemma_chunk_prefix_is_truncated(c: ChunkView, k: int)
    requires
        c.payload.len() <= u32::MAX,
        0 <= k < spec_encode_chunk(c).len(),
    ensures
        spec_decode_chunk(spec_encode_chunk(c).take(k)) == Err::<(ChunkView, nat), DecodeError>(
            DecodeError::TruncatedFrame,
        ),
{
    reveal(spec_decode_chunk);
    let frame = spec_encode_chunk(c);
    let buf = frame.take(k);
    let len = c.payload.len() as u32;
    assert(agrees(buf, file_tag()));
    if k >= 12 {
        lemma_be32_decodes(len);
        assert(buf.subrange(8, 12) =~= be32(len));
    }
}

/// Every proper prefix of a header frame is reported as truncated.
pub proof fn lemma_header_prefix_is_truncated(h: HeaderView, k: int)
    requires
        h.file_hash.len() == HASH_LEN,
        0 <= k < spec_encode_header(h).len(),
    ensures
        spec_decode_header(spec_encode_header(h).take(k)) == Err::<(HeaderView, nat), DecodeError>(
            DecodeError::TruncatedFrame,
        ),
{
    reveal(spec_decode_header);
    let buf = spec_encode_header(h).take(k);
    assert(agrees(buf, file_tag()));
}

/// Every proper prefix of a request line is reported as truncated.
pub proof fn lemma_request_prefix_is_truncated(q: RequestView, k: int)
    requires
        is_port(q.target_port),
        0 <= k < spec_encode_request(q).len(),
    ensures
        spec_decode_request(spec_encode_request(q).take(k)) == Err::<
            (RequestView, nat),
            DecodeError,
        >(DecodeError::TruncatedFrame),
{
    reveal(spec_decode_request);
    let line = spec_encode_request(q);
    let buf = line.take(k);
    lemma_port_bytes(q.target_port);
    assert(agrees(buf, keyword()));
    if k >= 8 {
        assert forall|j: int| 8 <= j < k implies is_digit(buf[j]) by {
            assert(buf[j] == ascii_bytes(q.target_port)[j - 8]);
        }
        lemma_digits_end_unique(buf, 8, k);
    }
}

/// A message that was decoded took at least one byte and no more than the
/// buffer holds.
pub proof fn lemma_decoded_length(buf: Seq<u8>, header_seen: bool)
    ensures
        spec_decode_message(buf, header_seen) matches Ok((m, n)) ==> 0 < n <= buf.len(),
        spec_decode_chunk(buf) matches Ok((c, n)) ==> 12 <= n <= buf.len() && n == 12
            + c.payload.len() && c.payload.len() <= u32::MAX,
        spec_decode_header(buf) matches Ok((h, n)) ==> n == 44 <= buf.len() && h.file_hash.len()
            == HASH_LEN,
        spec_decode_request(buf) matches Ok((q, n)) ==> 10 <= n <= buf.len() && is_port(
            q.target_port,
        ) && n == 9 + q.target_port.len() && q.action == Action::GetFile,
{
    reveal(spec_decode_chunk);
    reveal(spec_decode_header);
    reveal(spec_decode_request);
    if buf.len() >= 8 {
        lemma_digits_end_is_end(buf, 8);
        let end = digits_end(buf, 8);
        if end < buf.len() && end > 8 {
            let port = ascii_chars(buf.subrange(8, end));
            assert forall|i: int| 0 <= i < port.len() implies is_digit_char(#[trigger] port[i]) by {
                assert(is_digit(buf[8 + i]));
            }
        }
    }
}

/// What was decoded re-encodes to the very bytes it was decoded from: no
/// two buffers that differ in the bytes a message took decode to the same
/// message.
pub proof fn lemma_decoded_bytes(buf: Seq<u8>, header_seen: bool)
    ensures
        spec_decode_message(buf, header_seen) matches Ok((m, n)) ==> spec_encode_message(m)
            == buf.take(n as int),
{
    reveal(spec_decode_chunk);
    reveal(spec_decode_header);
    reveal(spec_decode_request);
    lemma_decoded_length(buf, header_seen);
    match spec_decode_message(buf, header_seen) {
        Ok((MessageView::Chunk(c), n)) => {
            lemma_be32_encodes(buf.subrange(4, 8));
            lemma_be32_encodes(buf.subrange(8, 12));
            assert(c.payload.len() as u32 == from_be32(buf.subrange(8, 12)));
            assert(spec_encode_chunk(c) =~= buf.take(n as int));
        },
        Ok((MessageView::Header(h), n)) => {
            lemma_be32_encodes(buf.subrange(4, 8));
            lemma_be32_encodes(buf.subrange(8, 12));
            assert(spec_encode_header(h) =~= buf.take(n as int));
        },
        Ok((MessageView::Request(q), n)) => {
            lemma_digits_end_is_end(buf, 8);
            assert(spec_encode_request(q) =~= buf.take(n as int));
        },
        Err(_) => {},
    }
}

/// More bytes after a buffer change nothing about a decoding that has
/// succeeded or has found the buffer malformed: only a truncated buffer
/// can decode differently once more bytes have come.
pub proof fn lemma_chunk_decoding_is_stable(buf: Seq<u8>, more: Seq<u8>)
    requires
        spec_decode_chunk(buf) != Err::<(ChunkView, nat), DecodeError>(
            DecodeError::TruncatedFrame,
        ),
    ensures
        spec_decode_chunk(buf + more) == spec_decode_chunk(buf),
{
    reveal(spec_decode_chunk);
    let both = buf + more;
    if agrees(buf, file_tag()) {
        assert(agrees(both, file_tag()));
        assert(both.subrange(4, 8) =~= buf.subrange(4, 8));
        assert(both.subrange(8, 12) =~= buf.subrange(8, 12));
        let len = from_be32(buf.subrange(8, 12)) as nat;
        assert(both.subrange(12, 12 + len as int) =~= buf.subrange(12, 12 + len as int));
    } else {
        let i = choose|i: int|
            0 <= i < buf.len() && i < file_tag().len() && buf[i] != file_tag()[i];
        assert(both[i] == buf[i]);
    }
}

/// See `lemma_chunk_decoding_is_stable`; this is the same for headers.
pub proof fn lemma_header_decoding_is_stable(buf: Seq<u8>, more: Seq<u8>)
    requires
        spec_decode_header(buf) != Err::<(HeaderView, nat), DecodeError>(
            DecodeError::TruncatedFrame,
        ),
    ensures
        spec_decode_header(buf + more) == spec_decode_header(buf),
{
    reveal(spec_decode_header);
    let both = buf + more;
    if agrees(buf, file_tag()) {
        assert(agrees(both, file_tag()));
        assert(both.subrange(4, 8) =~= buf.subrange(4, 8));
        assert(both.subrange(8, 12) =~= buf.subrange(8, 12));
        assert(both.subrange(12, 44) =~= buf.subrange(12, 44));
    } else {
        let i = choose|i: int|
            0 <= i < buf.len() && i < file_tag().len() && buf[i] != file_tag()[i];
        assert(both[i] == buf[i]);
    }
}

/// See `lemma_chunk_decoding_is_stable`; this is the same for request
/// lines.
pub proof fn lemma_request_decoding_is_stable(buf: Seq<u8>, more: Seq<u8>)
    requires
        spec_decode_request(buf) != Err::<(RequestView, nat), DecodeError>(
            DecodeError::TruncatedFrame,
        ),
    ensures
        spec_decode_request(buf + more) == spec_decode_request(buf),
{
    reveal(spec_decode_request);
    let both = buf + more;
    if agrees(buf, keyword()) {
        assert(agrees(both, keyword()));
        lemma_digits_end_is_end(buf, 8);
        let end = digits_end(buf, 8);
        assert(end < buf.len());
        assert forall|j: int| 8 <= j < end implies is_digit(both[j]) by {
            assert(both[j] == buf[j]);
        }
        assert(both[end] == buf[end]);
        lemma_digits_end_unique(both, 8, end);
        assert(both.subrange(8, end) =~= buf.subrange(8, end));
    } else {
        let i = choose|i: int| 0 <= i < buf.len() && i < keyword().len() && buf[i] != keyword()[i];
        assert(both[i] == buf[i]);
    }
}

/// See `lemma_chunk_decoding_is_stable`; this is the same for messages of
/// any kind.
pub proof fn lemma_message_decoding_is_stable(buf: Seq<u8>, more: Seq<u8>, header_seen: bool)
    requires
        spec_decode_message(buf, header_seen) != Err::<(MessageView, nat), DecodeError>(
            DecodeError::TruncatedFrame,
        ),
    ensures
        spec_decode_message(buf + more, header_seen) == spec_decode_message(buf, header_seen),
{
    let both = buf + more;
    assert(buf.len() > 0);
    assert(both[0] == buf[0]);
    if buf[0] == keyword()[0] {
        lemma_request_decoding_is_stable(buf, more);
    } else if header_seen {
        lemma_chunk_decoding_is_stable(buf, more);
    } else {
        lemma_header_decoding_is_stable(buf, more);
    }
}

/// The console and the wire speak one grammar: a text is a command
/// exactly if its bytes, with a newline after them, are the request line of
/// the same request.
pub proof fn lemma_console_and_wire_agree(s: Seq<char>)
    requires
        is_request_line(s),
    ensures
        spec_parse_request(s) matches Ok(q) && {
            &&& spec_encode_request(q) == ascii_bytes(s) + seq![newline()]
            &&& spec_decode_request(ascii_bytes(s) + seq![newline()]) == Ok::<
                (RequestView, nat),
                DecodeError,
            >((q, (s.len() + 1) as nat))
        },
{
    let q = RequestView { action: Action::GetFile, target_port: s.skip(8) };
    assert forall|i: int| 0 <= i < 8 implies (#[trigger] s[i]) as u8 == keyword()[i] by {
        assert(s.take(8)[i] == keyword_chars()[i]);
    }
    assert(spec_encode_request(q) =~= ascii_bytes(s) + seq![newline()]);
    lemma_request_round_trip(q, Seq::empty());
    assert(spec_encode_request(q) + Seq::<u8>::empty() =~= spec_encode_request(q));
}

} // verus!
