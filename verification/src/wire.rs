//! Wire codec: the byte-exact form of the protocol's messages.
//!
//! Three units travel over a connection:
//!
//! * a request line: the keyword `GET_FILE`, the decimal digits of a port and
//!   a newline;
//! * a header frame: the tag `FILE`, a big-endian chunk count, a big-endian
//!   file size and a 32-byte content hash;
//! * a chunk frame: the tag `FILE`, a big-endian index, a big-endian payload
//!   length and the payload.
//!
//! Every function here is a pure transformation over buffers.

use vstd::prelude::*;
use vstd::string::StrSliceExecFns;
use vstd::string::StringExecFns;
use vstd::utf8::is_ascii_chars;

verus! {

/// Length in bytes of the content hash carried by a header frame.
pub const HASH_LEN: usize = 32;

/// Length in bytes of a header frame.
pub const HEADER_LEN: usize = 44;

/// Length in bytes of what precedes the payload in a chunk frame.
pub const CHUNK_PREFIX_LEN: usize = 12;

/// Length in bytes of the request keyword.
pub const KEYWORD_LEN: usize = 8;

/// The keyword that opens a request line.
pub const GET_FILE: &'static str = "GET_FILE";

/// The bytes of `GET_FILE`.
pub open spec fn keyword() -> Seq<u8> {
    seq![0x47u8, 0x45u8, 0x54u8, 0x5fu8, 0x46u8, 0x49u8, 0x4cu8, 0x45u8]
}

/// The bytes of `FILE`, which open header and chunk frames.
pub open spec fn file_tag() -> Seq<u8> {
    seq![0x46u8, 0x49u8, 0x4cu8, 0x45u8]
}

/// The byte of a newline, which ends a request line.
pub open spec fn newline() -> u8 {
    0x0au8
}

/// Whether `b` is an ASCII decimal digit.
pub open spec fn is_digit(b: u8) -> bool {
    0x30 <= b <= 0x39
}

/// The four bytes of a big-endian `u32`, most significant first.
pub open spec fn be32(x: u32) -> Seq<u8> {
    seq![
        (x / 0x100_0000) as u8,
        ((x / 0x1_0000) % 0x100) as u8,
        ((x / 0x100) % 0x100) as u8,
        (x % 0x100) as u8,
    ]
}

/// The number that the four big-endian bytes at the start of `b` stand for.
pub open spec fn from_be32(b: Seq<u8>) -> u32
    recommends
        b.len() >= 4,
{
    (b[0] * 0x100_0000 + b[1] * 0x1_0000 + b[2] * 0x100 + b[3]) as u32
}

/// Reading back the big-endian bytes of a number gives the number.
pub proof fn lemma_be32_decodes(x: u32)
    ensures
        be32(x).len() == 4,
        from_be32(be32(x)) == x,
{
    let q1 = x / 0x100;
    let q2 = q1 / 0x100;
    let q3 = q2 / 0x100;
    assert(x == q1 * 0x100 + x % 0x100);
    assert(q1 == q2 * 0x100 + q1 % 0x100);
    assert(q2 == q3 * 0x100 + q2 % 0x100);
    assert(q2 == x / 0x1_0000);
    assert(q3 == x / 0x100_0000);
    assert(q3 < 0x100);
}

/// Writing the number that four bytes stand for gives the bytes back.
pub proof fn lemma_be32_encodes(b: Seq<u8>)
    requires
        b.len() == 4,
    ensures
        be32(from_be32(b)) == b,
{
    let n = b[0] * 0x100_0000 + b[1] * 0x1_0000 + b[2] * 0x100 + b[3];
    assert(0 <= n <= 0xffff_ffff);
    let x = n as u32;
    assert(x % 0x100 == b[3]);
    assert(x / 0x100 == b[0] * 0x1_0000 + b[1] * 0x100 + b[2]);
    assert((x / 0x100) % 0x100 == b[2]);
    assert(x / 0x1_0000 == b[0] * 0x100 + b[1]);
    assert((x / 0x1_0000) % 0x100 == b[1]);
    assert(x / 0x100_0000 == b[0]);
    assert(be32(x) =~= b);
}

/// Appends the big-endian form of `x` to `out`.
pub fn put_be32(out: &mut Vec<u8>, x: u32)
    ensures
        final(out)@ == old(out)@ + be32(x),
{
    out.push((x / 0x100_0000) as u8);
    out.push(((x / 0x1_0000) % 0x100) as u8);
    out.push(((x / 0x100) % 0x100) as u8);
    out.push((x % 0x100) as u8);
    assert(out@ =~= old(out)@ + be32(x));
}

/// Reads the big-endian number in the four bytes of `buf` that start at `at`.
pub(crate) fn get_be32(buf: &[u8], at: usize) -> (x: u32)
    requires
        at + 4 <= buf@.len(),
    ensures
        x == from_be32(buf@.subrange(at as int, at + 4)),
{
    let b0: u32 = buf[at] as u32;
    let b1: u32 = buf[at + 1] as u32;
    let b2: u32 = buf[at + 2] as u32;
    let b3: u32 = buf[at + 3] as u32;
    b0 * 0x100_0000 + b1 * 0x1_0000 + b2 * 0x100 + b3
}

/// Why a buffer could not be decoded.
#[derive(Clone, Copy, Debug, PartialEq, Eq, Structural)]
pub enum DecodeError {
    /// The bytes cannot begin any message: the keyword or tag is absent, or
    /// a request line breaks the grammar.
    MalformedRequest,
    /// The bytes begin a message that is not all there yet; decoding again
    /// with more bytes may succeed.
    TruncatedFrame,
}

/// The kinds of request.
#[derive(Clone, Copy, Debug, PartialEq, Eq, Structural)]
pub enum Action {
    /// Asks for the file to be sent.
    GetFile,
}

/// What a chunk is, as mathematics.
pub struct ChunkView {
    pub index: u32,
    pub payload: Seq<u8>,
}

/// An indexed slice of a file's bytes, sent as one frame.
///
/// A chunk never changes once made, and its payload always fits the frame's
/// four-byte length field.
#[derive(Debug, PartialEq, Eq)]
pub struct Chunk {
    index: u32,
    payload: Vec<u8>,
}

impl View for Chunk {
    type V = ChunkView;

    closed spec fn view(&self) -> ChunkView {
        ChunkView { index: self.index, payload: self.payload@ }
    }
}

impl Clone for Chunk {
    fn clone(&self) -> (r: Chunk)
        ensures
            r@ == self@,
    {
        proof {
            use_type_invariant(self);
        }
        Chunk { index: self.index, payload: self.payload.clone() }
    }
}

impl Chunk {
    #[verifier::type_invariant]
    spec fn fits(&self) -> bool {
        self.payload@.len() <= u32::MAX
    }

    /// Makes a chunk, unless the payload is too long for a frame.
    pub fn new(index: u32, payload: Vec<u8>) -> (r: Option<Chunk>)
        ensures
            r is Some <==> payload@.len() <= u32::MAX,
            r matches Some(c) ==> c@ == (ChunkView { index, payload: payload@ }),
    {
        if payload.len() <= u32::MAX as usize {
            Some(Chunk { index, payload })
        } else {
            None
        }
    }

    /// Makes a chunk of a payload that is known to fit.
    pub(crate) fn of_parts(index: u32, payload: Vec<u8>) -> (c: Chunk)
        requires
            payload@.len() <= u32::MAX,
        ensures
            c@ == (ChunkView { index, payload: payload@ }),
    {
        Chunk { index, payload }
    }

    /// The chunk's position in the file, counted in chunks.
    pub fn index(&self) -> (i: u32)
        ensures
            i == self@.index,
    {
        self.index
    }

    /// The chunk's bytes.
    pub fn payload(&self) -> (p: &Vec<u8>)
        ensures
            p@ == self@.payload,
            p@.len() <= u32::MAX,
    {
        proof {
            use_type_invariant(self);
        }
        &self.payload
    }

    /// Gives up the chunk for its bytes.
    pub fn into_payload(self) -> (p: Vec<u8>)
        ensures
            p@ == self@.payload,
            p@.len() <= u32::MAX,
    {
        proof {
            use_type_invariant(&self);
        }
        self.payload
    }
}

/// The bytes of a chunk frame.
pub open spec fn spec_encode_chunk(c: ChunkView) -> Seq<u8> {
    file_tag() + be32(c.index) + be32(c.payload.len() as u32) + c.payload
}

/// Whether `buf` and `pat` hold the same byte wherever both have one: a
/// buffer shorter than the pattern agrees with it if it is a prefix of it.
pub open spec fn agrees(buf: Seq<u8>, pat: Seq<u8>) -> bool {
    forall|i: int| 0 <= i < buf.len() && i < pat.len() ==> buf[i] == pat[i]
}

/// The byte of `GET_FILE` at position `i`.
fn keyword_byte(i: usize) -> (b: u8)
    requires
        i < 8,
    ensures
        b == keyword()[i as int],
{
    if i == 0 {
        0x47
    } else if i == 1 {
        0x45
    } else if i == 2 {
        0x54
    } else if i == 3 {
        0x5f
    } else if i == 4 {
        0x46
    } else if i == 5 {
        0x49
    } else if i == 6 {
        0x4c
    } else {
        0x45
    }
}

/// Compares the start of `buf` with the keyword from its byte `from` on.
fn agrees_with_keyword(buf: &[u8], from: usize) -> (b: bool)
    requires
        from <= 8,
    ensures
        b == agrees(buf@, keyword().skip(from as int)),
{
    let ghost pat = keyword().skip(from as int);
    let mut i: usize = 0;
    while i < buf.len() && i < 8 - from
        invariant
            from <= 8,
            pat == keyword().skip(from as int),
            i <= buf@.len(),
            i <= 8 - from,
            forall|j: int| 0 <= j < i ==> buf@[j] == pat[j],
        decreases buf@.len() - i,
    {
        if buf[i] != keyword_byte(from + i) {
            return false;
        }
        i = i + 1;
    }
    true
}

/// `FILE` is how `GET_FILE` ends.
pub proof fn lemma_file_tag_in_keyword()
    ensures
        keyword().skip(4) == file_tag(),
        keyword().len() == 8,
        file_tag().len() == 4,
{
    assert(keyword().skip(4) =~= file_tag());
}

/// What decoding a chunk frame from the start of `buf` gives: the chunk and
/// the number of bytes it took, or the reason why there is none.
#[verifier::opaque]
pub open spec fn spec_decode_chunk(buf: Seq<u8>) -> Result<(ChunkView, nat), DecodeError> {
    if !agrees(buf, file_tag()) {
        Err(DecodeError::MalformedRequest)
    } else if buf.len() < 12 {
        Err(DecodeError::TruncatedFrame)
    } else {
        let len = from_be32(buf.subrange(8, 12)) as nat;
        if buf.len() < 12 + len {
            Err(DecodeError::TruncatedFrame)
        } else {
            Ok(
                (
                    ChunkView {
                        index: from_be32(buf.subrange(4, 8)),
                        payload: buf.subrange(12, 12 + len as int),
                    },
                    12 + len,
                ),
            )
        }
    }
}

/// Appends `FILE` to `out`.
fn put_file_tag(out: &mut Vec<u8>)
    ensures
        final(out)@ == old(out)@ + file_tag(),
{
    out.push(0x46);
    out.push(0x49);
    out.push(0x4c);
    out.push(0x45);
    assert(out@ =~= old(out)@ + file_tag());
}

/// Appends the bytes of `src` from `from` up to `to` to `out`.
pub(crate) fn put_bytes(out: &mut Vec<u8>, src: &[u8], from: usize, to: usize)
    requires
        from <= to <= src@.len(),
    ensures
        final(out)@ == old(out)@ + src@.subrange(from as int, to as int),
{
    let mut i: usize = from;
    while i < to
        invariant
            from <= i <= to <= src@.len(),
            out@ == old(out)@ + src@.subrange(from as int, i as int),
        decreases to - i,
    {
        out.push(src[i]);
        i = i + 1;
        assert(out@ =~= old(out)@ + src@.subrange(from as int, i as int));
    }
    assert(out@ =~= old(out)@ + src@.subrange(from as int, to as int));
}

/// Encodes a chunk as a frame.
pub fn encode_chunk(chunk: &Chunk) -> (out: Vec<u8>)
    ensures
        out@ == spec_encode_chunk(chunk@),
{
    let payload = chunk.payload();
    let mut out: Vec<u8> = Vec::new();
    put_file_tag(&mut out);
    put_be32(&mut out, chunk.index());
    put_be32(&mut out, payload.len() as u32);
    put_bytes(&mut out, payload.as_slice(), 0, payload.len());
    assert(payload@.subrange(0, payload@.len() as int) =~= payload@);
    assert(out@ =~= spec_encode_chunk(chunk@));
    out
}

/// Decodes the chunk frame at the start of `buf`.
///
/// On success the second component is the frame's length: the bytes after it
/// belong to what follows. `TruncatedFrame` says that `buf` holds the start
/// of a frame and not yet its end.
pub fn decode_chunk(buf: &[u8]) -> (r: Result<(Chunk, usize), DecodeError>)
    ensures
        match r {
            Ok((c, n)) => spec_decode_chunk(buf@) == Ok::<(ChunkView, nat), DecodeError>(
                (c@, n as nat),
            ),
            Err(e) => spec_decode_chunk(buf@) == Err::<(ChunkView, nat), DecodeError>(e),
        },
{
    proof {
        reveal(spec_decode_chunk);
    }
    proof {
        lemma_file_tag_in_keyword();
    }
    if !agrees_with_keyword(buf, 4) {
        return Err(DecodeError::MalformedRequest);
    }
    if buf.len() < CHUNK_PREFIX_LEN {
        return Err(DecodeError::TruncatedFrame);
    }
    let index = get_be32(buf, 4);
    let len = get_be32(buf, 8);
    if ((buf.len() - CHUNK_PREFIX_LEN) as u64) < len as u64 {
        return Err(DecodeError::TruncatedFrame);
    }
    let end: usize = CHUNK_PREFIX_LEN + len as usize;
    let mut payload: Vec<u8> = Vec::new();
    put_bytes(&mut payload, buf, CHUNK_PREFIX_LEN, end);
    assert(payload@ =~= buf@.subrange(12, 12 + len));
    Ok((Chunk::of_parts(index, payload), end))
}

/// The characters of `GET_FILE`.
pub open spec fn keyword_chars() -> Seq<char> {
    seq!['G', 'E', 'T', '_', 'F', 'I', 'L', 'E']
}

/// The constant `GET_FILE` spells the keyword.
pub proof fn lemma_keyword_spelled()
    ensures
        GET_FILE@ == keyword_chars(),
        ascii_bytes(keyword_chars()) == keyword(),
{
    reveal_strlit("GET_FILE");
    assert(GET_FILE@ =~= keyword_chars());
    assert(ascii_bytes(keyword_chars()) =~= keyword());
}

/// Whether `c` is an ASCII decimal digit.
pub open spec fn is_digit_char(c: char) -> bool {
    '0' <= c <= '9'
}

/// Whether `s` can be the port of a request: one decimal digit or more.
pub open spec fn is_port(s: Seq<char>) -> bool {
    &&& s.len() > 0
    &&& forall|i: int| 0 <= i < s.len() ==> is_digit_char(#[trigger] s[i])
}

/// The bytes of a text whose characters are all ASCII.
pub open spec fn ascii_bytes(s: Seq<char>) -> Seq<u8> {
    Seq::new(s.len(), |i: int| s[i] as u8)
}

/// The text that ASCII bytes spell.
pub open spec fn ascii_chars(b: Seq<u8>) -> Seq<char> {
    Seq::new(b.len(), |i: int| b[i] as char)
}

/// What a request is, as mathematics.
pub struct RequestView {
    pub action: Action,
    pub target_port: Seq<char>,
}

/// A parsed command: what is asked, and the port it names.
///
/// The port of a request is never empty and holds decimal digits only.
#[derive(Debug, PartialEq, Eq)]
pub struct Request {
    action: Action,
    target_port: String,
}

impl View for Request {
    type V = RequestView;

    closed spec fn view(&self) -> RequestView {
        RequestView { action: self.action, target_port: self.target_port@ }
    }
}

impl Clone for Request {
    fn clone(&self) -> (r: Request)
        ensures
            r@ == self@,
    {
        proof {
            use_type_invariant(self);
        }
        Request { action: self.action, target_port: self.target_port.clone() }
    }
}

/// Whether the text `s` holds decimal digits only, and at least one.
fn text_is_port(s: &str) -> (b: bool)
    ensures
        b == is_port(s@),
{
    if !s.is_ascii() {
        proof {
            if is_port(s@) {
                assert forall|i: int| 0 <= i < s@.len() implies '\0' <= #[trigger] s@[i]
                    <= '\u{7f}' by {
                    assert(is_digit_char(s@[i]));
                }
            }
        }
        return false;
    }
    broadcast use vstd::string::is_ascii_spec_bytes;
    broadcast use vstd::utf8::is_ascii_chars_nat_bound;

    let bytes = s.as_bytes();
    if bytes.len() == 0 {
        return false;
    }
    let mut i: usize = 0;
    while i < bytes.len()
        invariant
            i <= bytes@.len(),
            bytes@.len() == s@.len(),
            is_ascii_chars(s@),
            forall|j: int| 0 <= j < bytes@.len() ==> bytes@[j] == s@[j] as u8,
            forall|j: int| 0 <= j < i ==> is_digit_char(#[trigger] s@[j]),
        decreases bytes@.len() - i,
    {
        let b = bytes[i];
        assert((s@[i as int] as nat) < 128);
        if b < 0x30 || b > 0x39 {
            assert(!is_digit_char(s@[i as int]));
            return false;
        }
        assert(is_digit_char(s@[i as int]));
        i = i + 1;
    }
    true
}

impl Request {
    #[verifier::type_invariant]
    spec fn names_a_port(&self) -> bool {
        is_port(self.target_port@)
    }

    /// Makes a request, unless `target_port` is empty or holds anything
    /// other than decimal digits.
    pub fn new(action: Action, target_port: String) -> (r: Option<Request>)
        ensures
            r is Some <==> is_port(target_port@),
            r matches Some(q) ==> q@ == (RequestView { action, target_port: target_port@ }),
    {
        if text_is_port(target_port.as_str()) {
            Some(Request { action, target_port })
        } else {
            None
        }
    }

    /// Makes a request of a port that is known to be one.
    pub(crate) fn of_parts(action: Action, target_port: String) -> (q: Request)
        requires
            is_port(target_port@),
        ensures
            q@ == (RequestView { action, target_port: target_port@ }),
    {
        Request { action, target_port }
    }

    /// What the request asks for.
    pub fn action(&self) -> (a: Action)
        ensures
            a == self@.action,
    {
        self.action
    }

    /// The port the request names.
    pub fn target_port(&self) -> (p: &String)
        ensures
            p@ == self@.target_port,
            is_port(p@),
    {
        proof {
            use_type_invariant(self);
        }
        &self.target_port
    }
}

/// Whether the text `s` is a request: the keyword, then a port.
pub open spec fn is_request_line(s: Seq<char>) -> bool {
    &&& s.len() > 8
    &&& s.take(8) == keyword_chars()
    &&& is_port(s.skip(8))
}

/// What parsing the text `s` as a request gives.
pub open spec fn spec_parse_request(s: Seq<char>) -> Result<RequestView, DecodeError> {
    if is_request_line(s) {
        Ok(RequestView { action: Action::GetFile, target_port: s.skip(8) })
    } else {
        Err(DecodeError::MalformedRequest)
    }
}

/// A request holds ASCII characters only.
pub proof fn lemma_request_line_is_ascii(s: Seq<char>)
    requires
        is_request_line(s),
    ensures
        is_ascii_chars(s),
{
    assert forall|i: int| 0 <= i < s.len() implies '\0' <= #[trigger] s[i] <= '\u{7f}' by {
        if i < 8 {
            assert(s.take(8)[i] == keyword_chars()[i]);
        } else {
            assert(is_digit_char(s.skip(8)[i - 8]));
        }
    }
}

/// Parses one command, given without the newline that ended it.
///
/// A command is the keyword `GET_FILE` immediately followed by the decimal
/// digits of a port. Anything else is refused as `MalformedRequest`.
pub fn parse_request(input: String) -> (r: Result<Request, DecodeError>)
    ensures
        match r {
            Ok(q) => spec_parse_request(input@) == Ok::<RequestView, DecodeError>(q@),
            Err(e) => spec_parse_request(input@) == Err::<RequestView, DecodeError>(e),
        },
{
    let s = input.as_str();
    if !s.is_ascii() {
        proof {
            if is_request_line(s@) {
                lemma_request_line_is_ascii(s@);
            }
        }
        return Err(DecodeError::MalformedRequest);
    }
    broadcast use vstd::string::is_ascii_spec_bytes;
    broadcast use vstd::utf8::is_ascii_chars_nat_bound;

    let bytes = s.as_bytes();
    let n = bytes.len();
    if n <= KEYWORD_LEN {
        return Err(DecodeError::MalformedRequest);
    }
    if !agrees_with_keyword(bytes, 0) {
        proof {
            assert(keyword().skip(0) =~= keyword());
            if s@.take(8) == keyword_chars() {
                assert forall|i: int| 0 <= i < 8 implies bytes@[i] == keyword()[i] by {
                    assert(s@.take(8)[i] == keyword_chars()[i]);
                }
            }
        }
        return Err(DecodeError::MalformedRequest);
    }
    proof {
        assert(keyword().skip(0) =~= keyword());
        assert forall|i: int| 0 <= i < 8 implies s@[i] == keyword_chars()[i] by {
            assert((s@[i] as nat) < 128);
            assert(bytes@[i] == keyword()[i]);
        }
        assert(s@.take(8) =~= keyword_chars());
    }
    let port = s.substring_ascii(KEYWORD_LEN, n);
    assert(port@ =~= s@.skip(8));
    match Request::new(Action::GetFile, port.to_owned()) {
        Some(q) => Ok(q),
        None => Err(DecodeError::MalformedRequest),
    }
}

/// The bytes of a request line.
pub open spec fn spec_encode_request(q: RequestView) -> Seq<u8> {
    keyword() + ascii_bytes(q.target_port) + seq![newline()]
}

/// Where the run of decimal digits that starts at `at` ends: the position of
/// the first byte from `at` on that is no digit, or the length of `buf`.
pub open spec fn digits_end(buf: Seq<u8>, at: int) -> int
    decreases buf.len() - at,
{
    if 0 <= at < buf.len() && is_digit(buf[at]) {
        digits_end(buf, at + 1)
    } else {
        at
    }
}

/// What decoding a request line from the start of `buf` gives.
#[verifier::opaque]
pub open spec fn spec_decode_request(buf: Seq<u8>) -> Result<(RequestView, nat), DecodeError> {
    if !agrees(buf, keyword()) {
        Err(DecodeError::MalformedRequest)
    } else if buf.len() < 8 {
        Err(DecodeError::TruncatedFrame)
    } else {
        let end = digits_end(buf, 8);
        if end >= buf.len() {
            Err(DecodeError::TruncatedFrame)
        } else if end > 8 && buf[end] == newline() {
            Ok(
                (
                    RequestView {
                        action: Action::GetFile,
                        target_port: ascii_chars(buf.subrange(8, end)),
                    },
                    (end + 1) as nat,
                ),
            )
        } else {
            Err(DecodeError::MalformedRequest)
        }
    }
}

/// The one-character text of a decimal digit.
fn digit_text(b: u8) -> (s: &'static str)
    requires
        is_digit(b),
    ensures
        s@ == seq![b as char],
{
    proof {
        reveal_strlit("0");
        reveal_strlit("1");
        reveal_strlit("2");
        reveal_strlit("3");
        reveal_strlit("4");
        reveal_strlit("5");
        reveal_strlit("6");
        reveal_strlit("7");
        reveal_strlit("8");
        reveal_strlit("9");
    }
    let s = if b == 0x30 {
        "0"
    } else if b == 0x31 {
        "1"
    } else if b == 0x32 {
        "2"
    } else if b == 0x33 {
        "3"
    } else if b == 0x34 {
        "4"
    } else if b == 0x35 {
        "5"
    } else if b == 0x36 {
        "6"
    } else if b == 0x37 {
        "7"
    } else if b == 0x38 {
        "8"
    } else {
        "9"
    };
    assert(s@ =~= seq![b as char]);
    s
}

/// The text spelled by the decimal digits of `buf` from `from` up to `to`.
fn digits_text(buf: &[u8], from: usize, to: usize) -> (s: String)
    requires
        from <= to <= buf@.len(),
        forall|i: int| from <= i < to ==> is_digit(buf@[i]),
    ensures
        s@ == ascii_chars(buf@.subrange(from as int, to as int)),
{
    let mut s = String::new();
    let mut i: usize = from;
    while i < to
        invariant
            from <= i <= to <= buf@.len(),
            forall|j: int| from <= j < to ==> is_digit(buf@[j]),
            s@ == ascii_chars(buf@.subrange(from as int, i as int)),
        decreases to - i,
    {
        s.append(digit_text(buf[i]));
        i = i + 1;
        assert(s@ =~= ascii_chars(buf@.subrange(from as int, i as int)));
    }
    s
}

/// Encodes a request as a line.
pub fn encode_request(request: &Request) -> (out: Vec<u8>)
    ensures
        out@ == spec_encode_request(request@),
{
    broadcast use vstd::string::is_ascii_spec_bytes;

    let port = request.target_port().as_str();
    proof {
        assert forall|i: int| 0 <= i < port@.len() implies '\0' <= #[trigger] port@[i]
            <= '\u{7f}' by {
            assert(is_digit_char(port@[i]));
        }
        assert(vstd::string::is_ascii(port));
    }
    let digits = port.as_bytes();
    assert(digits@ =~= ascii_bytes(port@));
    let mut out: Vec<u8> = Vec::new();
    let mut i: usize = 0;
    while i < 8
        invariant
            i <= 8,
            out@ == keyword().take(i as int),
        decreases 8 - i,
    {
        out.push(keyword_byte(i));
        i = i + 1;
        assert(out@ =~= keyword().take(i as int));
    }
    assert(keyword().take(8) =~= keyword());
    put_bytes(&mut out, digits, 0, digits.len());
    assert(digits@.subrange(0, digits@.len() as int) =~= digits@);
    out.push(0x0a);
    assert(out@ =~= spec_encode_request(request@));
    out
}

/// Decodes the request line at the start of `buf`.
///
/// `TruncatedFrame` says that `buf` holds the start of a request line and not
/// yet its newline.
pub fn decode_request(buf: &[u8]) -> (r: Result<(Request, usize), DecodeError>)
    ensures
        match r {
            Ok((q, n)) => spec_decode_request(buf@) == Ok::<(RequestView, nat), DecodeError>(
                (q@, n as nat),
            ),
            Err(e) => spec_decode_request(buf@) == Err::<(RequestView, nat), DecodeError>(e),
        },
{
    proof {
        reveal(spec_decode_request);
    }
    if !agrees_with_keyword(buf, 0) {
        assert(keyword().skip(0) =~= keyword());
        return Err(DecodeError::MalformedRequest);
    }
    assert(keyword().skip(0) =~= keyword());
    if buf.len() < KEYWORD_LEN {
        return Err(DecodeError::TruncatedFrame);
    }
    let mut end: usize = KEYWORD_LEN;
    while end < buf.len() && buf[end] >= 0x30 && buf[end] <= 0x39
        invariant
            8 <= end <= buf@.len(),
            digits_end(buf@, 8) == digits_end(buf@, end as int),
            forall|j: int| 8 <= j < end ==> is_digit(buf@[j]),
        decreases buf@.len() - end,
    {
        end = end + 1;
    }
    assert(digits_end(buf@, 8) == end);
    if end >= buf.len() {
        return Err(DecodeError::TruncatedFrame);
    }
    if end == KEYWORD_LEN || buf[end] != 0x0a {
        return Err(DecodeError::MalformedRequest);
    }
    let port = digits_text(buf, KEYWORD_LEN, end);
    proof {
        let digits = buf@.subrange(8, end as int);
        assert forall|i: int| 0 <= i < port@.len() implies is_digit_char(#[trigger] port@[i]) by {
            assert(is_digit(digits[i]));
        }
    }
    Ok((Request::of_parts(Action::GetFile, port), end + 1))
}

/// What a header is, as mathematics.
pub struct HeaderView {
    pub total_chunks: u32,
    pub file_size: u32,
    pub file_hash: Seq<u8>,
}

/// What a sender announces before the first chunk: how many chunks follow,
/// how many bytes they hold together, and the hash of those bytes.
///
/// The hash of a header is always `HASH_LEN` bytes long.
#[derive(Debug, PartialEq, Eq)]
pub struct Header {
    total_chunks: u32,
    file_size: u32,
    file_hash: Vec<u8>,
}

impl View for Header {
    type V = HeaderView;

    closed spec fn view(&self) -> HeaderView {
        HeaderView {
            total_chunks: self.total_chunks,
            file_size: self.file_size,
            file_hash: self.file_hash@,
        }
    }
}

impl Clone for Header {
    fn clone(&self) -> (r: Header)
        ensures
            r@ == self@,
    {
        proof {
            use_type_invariant(self);
        }
        Header {
            total_chunks: self.total_chunks,
            file_size: self.file_size,
            file_hash: self.file_hash.clone(),
        }
    }
}

impl Header {
    #[verifier::type_invariant]
    spec fn hash_is_whole(&self) -> bool {
        self.file_hash@.len() == HASH_LEN
    }

    /// Makes a header, unless `file_hash` is not `HASH_LEN` bytes long.
    pub fn new(total_chunks: u32, file_size: u32, file_hash: Vec<u8>) -> (r: Option<Header>)
        ensures
            r is Some <==> file_hash@.len() == HASH_LEN,
            r matches Some(h) ==> h@ == (HeaderView {
                total_chunks,
                file_size,
                file_hash: file_hash@,
            }),
    {
        if file_hash.len() == HASH_LEN {
            Some(Header { total_chunks, file_size, file_hash })
        } else {
            None
        }
    }

    /// Makes a header of a hash that is known to be whole.
    pub(crate) fn of_parts(total_chunks: u32, file_size: u32, file_hash: Vec<u8>) -> (h: Header)
        requires
            file_hash@.len() == HASH_LEN,
        ensures
            h@ == (HeaderView { total_chunks, file_size, file_hash: file_hash@ }),
    {
        Header { total_chunks, file_size, file_hash }
    }

    /// How many chunks make up the file.
    pub fn total_chunks(&self) -> (n: u32)
        ensures
            n == self@.total_chunks,
    {
        self.total_chunks
    }

    /// How many bytes the file holds.
    pub fn file_size(&self) -> (n: u32)
        ensures
            n == self@.file_size,
    {
        self.file_size
    }

    /// The hash of the file's bytes.
    pub fn file_hash(&self) -> (h: &Vec<u8>)
        ensures
            h@ == self@.file_hash,
            h@.len() == HASH_LEN,
    {
        proof {
            use_type_invariant(self);
        }
        &self.file_hash
    }
}

/// The bytes of a header frame.
pub open spec fn spec_encode_header(h: HeaderView) -> Seq<u8> {
    file_tag() + be32(h.total_chunks) + be32(h.file_size) + h.file_hash
}

/// What decoding a header frame from the start of `buf` gives.
#[verifier::opaque]
pub open spec fn spec_decode_header(buf: Seq<u8>) -> Result<(HeaderView, nat), DecodeError> {
    if !agrees(buf, file_tag()) {
        Err(DecodeError::MalformedRequest)
    } else if buf.len() < 44 {
        Err(DecodeError::TruncatedFrame)
    } else {
        Ok(
            (
                HeaderView {
                    total_chunks: from_be32(buf.subrange(4, 8)),
                    file_size: from_be32(buf.subrange(8, 12)),
                    file_hash: buf.subrange(12, 44),
                },
                44,
            ),
        )
    }
}

/// Encodes a header as a frame.
pub fn encode_header(header: &Header) -> (out: Vec<u8>)
    ensures
        out@ == spec_encode_header(header@),
{
    let hash = header.file_hash();
    let mut out: Vec<u8> = Vec::new();
    put_file_tag(&mut out);
    put_be32(&mut out, header.total_chunks());
    put_be32(&mut out, header.file_size());
    put_bytes(&mut out, hash.as_slice(), 0, hash.len());
    assert(hash@.subrange(0, hash@.len() as int) =~= hash@);
    assert(out@ =~= spec_encode_header(header@));
    out
}

/// Decodes the header frame at the start of `buf`.
pub fn decode_header(buf: &[u8]) -> (r: Result<(Header, usize), DecodeError>)
    ensures
        match r {
            Ok((h, n)) => spec_decode_header(buf@) == Ok::<(HeaderView, nat), DecodeError>(
                (h@, n as nat),
            ),
            Err(e) => spec_decode_header(buf@) == Err::<(HeaderView, nat), DecodeError>(e),
        },
{
    proof {
        reveal(spec_decode_header);
    }
    proof {
        lemma_file_tag_in_keyword();
    }
    if !agrees_with_keyword(buf, 4) {
        return Err(DecodeError::MalformedRequest);
    }
    if buf.len() < HEADER_LEN {
        return Err(DecodeError::TruncatedFrame);
    }
    let total_chunks = get_be32(buf, 4);
    let file_size = get_be32(buf, 8);
    let mut hash: Vec<u8> = Vec::new();
    put_bytes(&mut hash, buf, 12, HEADER_LEN);
    assert(hash@ =~= buf@.subrange(12, 44));
    Ok((Header::of_parts(total_chunks, file_size, hash), HEADER_LEN))
}

/// What a message is, as mathematics.
pub enum MessageView {
    Request(RequestView),
    Header(HeaderView),
    Chunk(ChunkView),
}

/// One decoded unit of the protocol.
#[derive(Debug, PartialEq, Eq)]
pub enum Message {
    /// A request line.
    Request(Request),
    /// The frame that announces a transfer.
    Header(Header),
    /// One chunk of a transfer.
    Chunk(Chunk),
}

impl View for Message {
    type V = MessageView;

    open spec fn view(&self) -> MessageView {
        match *self {
            Message::Request(q) => MessageView::Request(q@),
            Message::Header(h) => MessageView::Header(h@),
            Message::Chunk(c) => MessageView::Chunk(c@),
        }
    }
}

impl Clone for Message {
    fn clone(&self) -> (r: Message)
        ensures
            r@ == self@,
    {
        match self {
            Message::Request(q) => Message::Request(q.clone()),
            Message::Header(h) => Message::Header(h.clone()),
            Message::Chunk(c) => Message::Chunk(c.clone()),
        }
    }
}

/// The bytes of a message.
pub open spec fn spec_encode_message(m: MessageView) -> Seq<u8> {
    match m {
        MessageView::Request(q) => spec_encode_request(q),
        MessageView::Header(h) => spec_encode_header(h),
        MessageView::Chunk(c) => spec_encode_chunk(c),
    }
}

/// What decoding one message from the start of `buf` gives.
///
/// A buffer that opens with `G` is read as a request line. Header and chunk
/// frames open with the same tag, so which of the two is read goes by
/// position: the first frame of a connection is its header, and
/// `header_seen` says whether that frame has passed.
pub open spec fn spec_decode_message(buf: Seq<u8>, header_seen: bool) -> Result<
    (MessageView, nat),
    DecodeError,
> {
    if buf.len() == 0 {
        Err(DecodeError::TruncatedFrame)
    } else if buf[0] == keyword()[0] {
        match spec_decode_request(buf) {
            Ok((q, n)) => Ok((MessageView::Request(q), n)),
            Err(e) => Err(e),
        }
    } else if header_seen {
        match spec_decode_chunk(buf) {
            Ok((c, n)) => Ok((MessageView::Chunk(c), n)),
            Err(e) => Err(e),
        }
    } else {
        match spec_decode_header(buf) {
            Ok((h, n)) => Ok((MessageView::Header(h), n)),
            Err(e) => Err(e),
        }
    }
}

/// Encodes a message.
pub fn encode_message(message: &Message) -> (out: Vec<u8>)
    ensures
        out@ == spec_encode_message(message@),
{
    match message {
        Message::Request(q) => encode_request(q),
        Message::Header(h) => encode_header(h),
        Message::Chunk(c) => encode_chunk(c),
    }
}

/// Decodes the message at the start of `buf`.
///
/// On success the second component is the number of bytes the message took.
/// `TruncatedFrame` asks for more bytes; `MalformedRequest` says that no
/// further byte can turn `buf` into a message.
pub fn decode_message(buf: &[u8], header_seen: bool) -> (r: Result<(Message, usize), DecodeError>)
    ensures
        match r {
            Ok((m, n)) => spec_decode_message(buf@, header_seen) == Ok::<
                (MessageView, nat),
                DecodeError,
            >((m@, n as nat)),
            Err(e) => spec_decode_message(buf@, header_seen) == Err::<
                (MessageView, nat),
                DecodeError,
            >(e),
        },
{
    if buf.len() == 0 {
        return Err(DecodeError::TruncatedFrame);
    }
    if buf[0] == 0x47 {
        match decode_request(buf) {
            Ok((q, n)) => Ok((Message::Request(q), n)),
            Err(e) => Err(e),
        }
    } else if header_seen {
        match decode_chunk(buf) {
            Ok((c, n)) => Ok((Message::Chunk(c), n)),
            Err(e) => Err(e),
        }
    } else {
        match decode_header(buf) {
            Ok((h, n)) => Ok((Message::Header(h), n)),
            Err(e) => Err(e),
        }
    }
}

} // verus!
