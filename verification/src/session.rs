//! Transfer session: the life of one file transfer, from its start to
//! `Complete` or `Failed`.
//!
//! A session is a state machine. Each event has a spec function that gives
//! the session after the event, and a method that does what the function
//! says. An event that the state has no use for leaves the session as it
//! is.

use crate::digest::{content_hash, sha256};
use crate::split::{
    chunk_count, chunk_payload, lemma_chunk_count_at_most_len, split_chunks, splittable,
};
use crate::store::{assembled, complete, ChunkStore};
use crate::wire::{
    encode_chunk, encode_header, spec_encode_chunk, spec_encode_header, Chunk, ChunkView, Header,
    HeaderView, HASH_LEN,
};
use vstd::prelude::*;

verus! {

/// Which way the file goes.
#[derive(Clone, Copy, Debug, PartialEq, Eq, Structural)]
pub enum Direction {
    /// This side reads the file and sends its chunks.
    Send,
    /// This side collects the chunks and checks the file.
    Receive,
}

/// Why a session failed.
#[derive(Clone, Copy, Debug, PartialEq, Eq, Structural)]
pub enum FailureReason {
    /// The peer sent bytes that are no message.
    MalformedRequest,
    /// The peer hung up before the transfer was whole.
    ConnectionClosed,
    /// The bytes received do not have the hash that was announced.
    HashMismatch,
    /// The disk or the network failed on this side.
    IOError,
    /// Nothing happened for too long.
    Timeout,
}

/// Where a session stands.
#[derive(Clone, Copy, Debug, PartialEq, Eq, Structural)]
pub enum SessionState {
    /// Made, and nothing has happened yet.
    Pending,
    /// Chunks are being received or sent.
    InProgress,
    /// Every chunk has arrived; the hash is still to be checked.
    Verifying,
    /// The transfer is done and the file is good.
    Complete,
    /// The transfer is over and there is no file.
    Failed(FailureReason),
}

/// What a session is, as mathematics.
pub struct SessionView {
    pub id: u64,
    pub direction: Direction,
    pub state: SessionState,
    /// What the header says, once it is known.
    pub announced: Option<HeaderView>,
    /// The chunks received so far.
    pub chunks: Map<u32, Seq<u8>>,
    /// The frames still to be handed out for sending, the next one first.
    pub outbound: Seq<Seq<u8>>,
}

impl SessionView {
    /// The number of chunks, once it is known.
    pub open spec fn total_chunks(self) -> Option<u32> {
        match self.announced {
            Some(h) => Some(h.total_chunks),
            None => None,
        }
    }

    /// The size of the file in bytes, once it is known.
    pub open spec fn file_size(self) -> Option<u32> {
        match self.announced {
            Some(h) => Some(h.file_size),
            None => None,
        }
    }

    /// The hash the file must have, once it is known.
    pub open spec fn expected_hash(self) -> Option<Seq<u8>> {
        match self.announced {
            Some(h) => Some(h.file_hash),
            None => None,
        }
    }

    /// Whether the session has ended.
    pub open spec fn is_terminal(self) -> bool {
        self.state is Complete || self.state is Failed
    }

    /// Whether the session still takes in what a peer sends.
    pub open spec fn is_collecting(self) -> bool {
        self.direction == Direction::Receive && (self.state is Pending
            || self.state is InProgress)
    }

    /// Whether every chunk that the header counts has arrived.
    pub open spec fn has_all_chunks(self) -> bool {
        self.announced matches Some(h) && complete(self.chunks, h.total_chunks as nat)
    }

    /// The session in another state, all else equal.
    pub open spec fn with_state(self, state: SessionState) -> SessionView {
        SessionView { state, ..self }
    }
}

/// A session as it is when made.
pub open spec fn fresh(id: u64, direction: Direction) -> SessionView {
    SessionView {
        id,
        direction,
        state: SessionState::Pending,
        announced: None,
        chunks: Map::empty(),
        outbound: Seq::empty(),
    }
}

/// The state of a collecting session that holds what `s` holds: `Verifying`
/// once no chunk is missing, `InProgress` until then.
pub open spec fn collecting_state(s: SessionView) -> SessionState {
    if s.has_all_chunks() {
        SessionState::Verifying
    } else {
        SessionState::InProgress
    }
}

/// The session after a header frame. A collecting session without a header
/// takes it; any other session stays as it is.
pub open spec fn after_header(s: SessionView, h: HeaderView) -> SessionView {
    if s.is_collecting() && s.announced is None {
        let t = SessionView { announced: Some(h), ..s };
        t.with_state(collecting_state(t))
    } else {
        s
    }
}

/// The session after a chunk frame. A collecting session stores the chunk
/// under its index; any other session stays as it is.
pub open spec fn after_chunk(s: SessionView, c: ChunkView) -> SessionView {
    if s.is_collecting() {
        let t = SessionView { chunks: s.chunks.insert(c.index, c.payload), ..s };
        t.with_state(collecting_state(t))
    } else {
        s
    }
}

/// The file that a session in `Verifying` has collected.
pub open spec fn collected(s: SessionView) -> Seq<u8> {
    assembled(s.chunks, s.announced->0.total_chunks as nat)
}

/// Whether checking the hash of what `s` collected will succeed.
pub open spec fn hash_matches(s: SessionView) -> bool {
    s.announced matches Some(h) && sha256(collected(s)) == h.file_hash
}

/// The session after the hash was checked: `Complete` if the collected
/// bytes have the announced hash, `Failed(HashMismatch)` if not. Only a
/// session in `Verifying` that holds all its chunks is checked.
pub open spec fn after_verify(s: SessionView) -> SessionView {
    if s.direction == Direction::Receive && s.state is Verifying && s.has_all_chunks() {
        if hash_matches(s) {
            s.with_state(SessionState::Complete)
        } else {
            s.with_state(SessionState::Failed(FailureReason::HashMismatch))
        }
    } else {
        s
    }
}

/// What checking the hash finds, as mathematics.
pub enum VerdictView {
    Unchecked,
    Verified { bytes: Seq<u8>, hash: Seq<u8> },
    Mismatch { expected: Seq<u8>, computed: Seq<u8> },
}

/// What checking the hash of `s` finds: nothing, unless `s` is `Verifying`
/// and holds all its chunks; else the file and its hash, if the hash of
/// the collected bytes is the announced one; else the two hashes that
/// differ.
pub open spec fn verdict_of(s: SessionView) -> VerdictView {
    if s.direction == Direction::Receive && s.state is Verifying && s.has_all_chunks() {
        if hash_matches(s) {
            VerdictView::Verified { bytes: collected(s), hash: s.announced->0.file_hash }
        } else {
            VerdictView::Mismatch {
                expected: s.announced->0.file_hash,
                computed: sha256(collected(s)),
            }
        }
    } else {
        VerdictView::Unchecked
    }
}

/// The bytes that checking the hash hands out: those of the file, if and
/// only if the check makes the session `Complete`.
pub open spec fn verified_bytes(s: SessionView) -> Option<Seq<u8>> {
    match verdict_of(s) {
        VerdictView::Verified { bytes, .. } => Some(bytes),
        _ => None,
    }
}

/// The session after `reason` struck it: failed, unless it had ended.
pub open spec fn after_failure(s: SessionView, reason: FailureReason) -> SessionView {
    if s.is_terminal() {
        s
    } else {
        s.with_state(SessionState::Failed(reason))
    }
}

/// The session after its connection closed. A transfer that was not whole
/// yet fails; one that is being verified or has ended stays as it is.
pub open spec fn after_close(s: SessionView) -> SessionView {
    if s.state is Pending || s.state is InProgress {
        s.with_state(SessionState::Failed(FailureReason::ConnectionClosed))
    } else {
        s
    }
}

/// The header that announces the file `data` in chunks of `chunk_size`.
pub open spec fn header_of(data: Seq<u8>, chunk_size: nat) -> HeaderView {
    HeaderView {
        total_chunks: chunk_count(data.len(), chunk_size) as u32,
        file_size: data.len() as u32,
        file_hash: sha256(data),
    }
}

/// Chunk `i` of the file `data`.
pub open spec fn chunk_of(data: Seq<u8>, chunk_size: nat, i: nat) -> ChunkView {
    ChunkView { index: i as u32, payload: chunk_payload(data, chunk_size, i) }
}

/// Frame number `n` of the transfer of `data`: the header first, then the
/// chunks in index order.
pub open spec fn frame_at(data: Seq<u8>, chunk_size: nat, n: nat) -> Seq<u8> {
    if n == 0 {
        spec_encode_header(header_of(data, chunk_size))
    } else {
        spec_encode_chunk(chunk_of(data, chunk_size, (n - 1) as nat))
    }
}

/// How many frames the transfer of a file of `len` bytes takes.
pub open spec fn frame_count(len: nat, chunk_size: nat) -> nat {
    chunk_count(len, chunk_size) + 1
}

/// The frames of the transfer of `data`, in the order in which they are
/// sent.
pub open spec fn transfer_frames(data: Seq<u8>, chunk_size: nat) -> Seq<Seq<u8>> {
    Seq::new(frame_count(data.len(), chunk_size), |n: int| frame_at(data, chunk_size, n as nat))
}

/// The session after it was given the file to send. A pending sender
/// starts; if the file cannot be split and announced, it fails with
/// `IOError`. Any other session stays as it is.
pub open spec fn after_start(s: SessionView, data: Seq<u8>, chunk_size: nat) -> SessionView {
    if s.direction == Direction::Send && s.state is Pending {
        if splittable(data.len(), chunk_size) {
            SessionView {
                state: SessionState::InProgress,
                announced: Some(header_of(data, chunk_size)),
                outbound: transfer_frames(data, chunk_size),
                ..s
            }
        } else {
            s.with_state(SessionState::Failed(FailureReason::IOError))
        }
    } else {
        s
    }
}

/// Whether the session is sending.
pub open spec fn is_sending(s: SessionView) -> bool {
    s.direction == Direction::Send && s.state is InProgress
}

/// The frame that a sending session hands out next, if one is left.
pub open spec fn next_frame_of(s: SessionView) -> Option<Seq<u8>> {
    if is_sending(s) && s.outbound.len() > 0 {
        Some(s.outbound[0])
    } else {
        None
    }
}

/// The session after it was asked for its next frame: one frame further,
/// or `Complete` once every frame has been handed out.
pub open spec fn after_next_frame(s: SessionView) -> SessionView {
    if is_sending(s) {
        if s.outbound.len() > 0 {
            SessionView { outbound: s.outbound.drop_first(), ..s }
        } else {
            s.with_state(SessionState::Complete)
        }
    } else {
        s
    }
}

/// What checking the hash of a session found.
#[derive(Debug, PartialEq, Eq)]
pub enum Verdict {
    /// The session was not waiting for its hash to be checked.
    Unchecked,
    /// The file was received whole and has the hash that was announced
    /// for it.
    Verified {
        /// The file's bytes.
        bytes: Vec<u8>,
        /// The hash of the bytes, as announced and as computed.
        hash: Vec<u8>,
    },
    /// The bytes received do not have the hash that was announced.
    Mismatch {
        /// The hash that the header announced.
        expected: Vec<u8>,
        /// The hash of the bytes that came.
        computed: Vec<u8>,
    },
}

impl View for Verdict {
    type V = VerdictView;

    open spec fn view(&self) -> VerdictView {
        match *self {
            Verdict::Unchecked => VerdictView::Unchecked,
            Verdict::Verified { bytes, hash } => VerdictView::Verified {
                bytes: bytes@,
                hash: hash@,
            },
            Verdict::Mismatch { expected, computed } => VerdictView::Mismatch {
                expected: expected@,
                computed: computed@,
            },
        }
    }
}

/// The bookkeeping of one file transfer.
#[derive(Debug)]
pub struct TransferSession {
    id: u64,
    direction: Direction,
    state: SessionState,
    announced: Option<Header>,
    chunk_map: ChunkStore,
    /// The frames still to be sent, the last one first.
    queue: Vec<Vec<u8>>,
}

impl View for TransferSession {
    type V = SessionView;

    closed spec fn view(&self) -> SessionView {
        SessionView {
            id: self.id,
            direction: self.direction,
            state: self.state,
            announced: match self.announced {
                Some(h) => Some(h@),
                None => None,
            },
            chunks: self.chunk_map@,
            outbound: Seq::new(
                self.queue@.len(),
                |i: int| self.queue@[self.queue@.len() - 1 - i]@,
            ),
        }
    }
}

impl TransferSession {
    /// A session that has not begun.
    pub fn new(id: u64, direction: Direction) -> (s: TransferSession)
        ensures
            s@ == fresh(id, direction),
    {
        let s = TransferSession {
            id,
            direction,
            state: SessionState::Pending,
            announced: None,
            chunk_map: ChunkStore::new(),
            queue: Vec::new(),
        };
        assert(s@.outbound =~= Seq::<Seq<u8>>::empty());
        s
    }

    /// The session's name in the router's table.
    pub fn id(&self) -> (id: u64)
        ensures
            id == self@.id,
    {
        self.id
    }

    /// Which way the file goes.
    pub fn direction(&self) -> (d: Direction)
        ensures
            d == self@.direction,
    {
        self.direction
    }

    /// Where the session stands.
    pub fn state(&self) -> (s: SessionState)
        ensures
            s == self@.state,
    {
        self.state
    }

    /// Whether the session has ended.
    pub fn is_terminal(&self) -> (b: bool)
        ensures
            b == self@.is_terminal(),
    {
        match self.state {
            SessionState::Complete => true,
            SessionState::Failed(_) => true,
            _ => false,
        }
    }

    /// The number of chunks, once the header has said it.
    pub fn total_chunks(&self) -> (n: Option<u32>)
        ensures
            n == self@.total_chunks(),
    {
        match &self.announced {
            Some(h) => Some(h.total_chunks()),
            None => None,
        }
    }

    /// The size of the file in bytes, once the header has said it.
    pub fn file_size(&self) -> (n: Option<u32>)
        ensures
            n == self@.file_size(),
    {
        match &self.announced {
            Some(h) => Some(h.file_size()),
            None => None,
        }
    }

    /// The hash the file must have, once the header has said it.
    pub fn expected_hash(&self) -> (r: Option<&Vec<u8>>)
        ensures
            r is Some <==> self@.announced is Some,
            r matches Some(h) ==> Some(h@) == self@.expected_hash() && h@.len() == HASH_LEN,
    {
        match &self.announced {
            Some(h) => Some(h.file_hash()),
            None => None,
        }
    }

    /// The chunks received so far.
    pub fn chunk_map(&self) -> (m: &ChunkStore)
        ensures
            m@ == self@.chunks,
    {
        &self.chunk_map
    }

    /// The state that `collecting_state` gives for what the session holds.
    fn settled(&self) -> (s: SessionState)
        ensures
            s == collecting_state(self@),
    {
        match &self.announced {
            Some(h) => {
                if self.chunk_map.is_complete(h.total_chunks()) {
                    SessionState::Verifying
                } else {
                    SessionState::InProgress
                }
            },
            None => SessionState::InProgress,
        }
    }

    /// Whether the session still takes in what a peer sends.
    fn is_collecting(&self) -> (b: bool)
        ensures
            b == self@.is_collecting(),
    {
        match self.direction {
            Direction::Receive => match self.state {
                SessionState::Pending => true,
                SessionState::InProgress => true,
                _ => false,
            },
            Direction::Send => false,
        }
    }

    /// Takes the header of the transfer: from now on the session knows how
    /// many chunks to wait for and which hash they must have. If no chunk
    /// is missing, which is so at once for an empty file, the session goes
    /// to `Verifying`.
    pub fn receive_header(&mut self, header: Header)
        ensures
            final(self)@ == after_header(old(self)@, header@),
    {
        if self.is_collecting() && self.announced.is_none() {
            self.announced = Some(header);
            let next = self.settled();
            self.state = next;
        }
    }

    /// Takes one chunk and stores it under its index. If the header is
    /// known and no chunk is missing any more, the session goes to
    /// `Verifying`.
    pub fn receive_chunk(&mut self, chunk: Chunk)
        ensures
            final(self)@ == after_chunk(old(self)@, chunk@),
    {
        if self.is_collecting() {
            self.chunk_map.insert_chunk(chunk);
            let next = self.settled();
            self.state = next;
        }
    }

    /// Whether the session waits for its hash to be checked and holds all
    /// that the check needs.
    fn is_checkable(&self) -> (b: bool)
        ensures
            b == (self@.direction == Direction::Receive && self@.state is Verifying
                && self@.has_all_chunks()),
    {
        match self.direction {
            Direction::Receive => match self.state {
                SessionState::Verifying => match &self.announced {
                    Some(h) => self.chunk_map.is_complete(h.total_chunks()),
                    None => false,
                },
                _ => false,
            },
            Direction::Send => false,
        }
    }

    /// Compares the hash of the collected file with the announced one.
    fn check(&self) -> (r: Verdict)
        requires
            self@.direction == Direction::Receive,
            self@.state is Verifying,
            self@.has_all_chunks(),
        ensures
            r@ == verdict_of(self@),
    {
        match &self.announced {
            Some(h) => {
                match self.chunk_map.assemble(h.total_chunks()) {
                    Ok(bytes) => {
                        let computed = content_hash(bytes.as_slice());
                        if same_bytes(computed.as_slice(), h.file_hash().as_slice()) {
                            Verdict::Verified { bytes, hash: computed }
                        } else {
                            Verdict::Mismatch { expected: h.file_hash().clone(), computed }
                        }
                    },
                    Err(_) => Verdict::Unchecked,
                }
            },
            None => Verdict::Unchecked,
        }
    }

    /// Checks what was collected against the announced hash. A session in
    /// `Verifying` becomes `Complete` and hands out the file if the hash of
    /// the assembled bytes is the announced one; otherwise it becomes
    /// `Failed(HashMismatch)` and hands out the two hashes and no byte of
    /// the file. A session in another state is left as it is.
    pub fn verify(&mut self) -> (r: Verdict)
        ensures
            final(self)@ == after_verify(old(self)@),
            r@ == verdict_of(old(self)@),
    {
        if !self.is_checkable() {
            return Verdict::Unchecked;
        }
        let verdict = self.check();
        match &verdict {
            Verdict::Verified { .. } => {
                self.state = SessionState::Complete;
            },
            _ => {
                self.state = SessionState::Failed(FailureReason::HashMismatch);
            },
        }
        verdict
    }

    /// Ends the session with `reason`, unless it has ended already.
    pub fn fail(&mut self, reason: FailureReason)
        ensures
            final(self)@ == after_failure(old(self)@, reason),
    {
        if !self.is_terminal() {
            self.state = SessionState::Failed(reason);
        }
    }

    /// Tells the session that its connection has closed. A transfer that
    /// was not whole yet fails with `ConnectionClosed`.
    pub fn connection_closed(&mut self)
        ensures
            final(self)@ == after_close(old(self)@),
    {
        match self.state {
            SessionState::Pending => {
                self.state = SessionState::Failed(FailureReason::ConnectionClosed);
            },
            SessionState::InProgress => {
                self.state = SessionState::Failed(FailureReason::ConnectionClosed);
            },
            _ => {},
        }
    }
}

impl TransferSession {
    /// The frames that are still to be sent, counted.
    pub fn frames_left(&self) -> (n: usize)
        ensures
            n == self@.outbound.len(),
    {
        self.queue.len()
    }

    /// Gives a pending sender the file to send, in chunks of `chunk_size`
    /// bytes. The session computes the file's hash, lines up the header
    /// frame and the chunk frames, and goes to `InProgress`. If
    /// `chunk_size` is zero or the file too long to announce, it fails with
    /// `IOError`.
    pub fn start_send(&mut self, data: &[u8], chunk_size: usize)
        ensures
            final(self)@ == after_start(old(self)@, data@, chunk_size as nat),
    {
        match self.direction {
            Direction::Send => {},
            Direction::Receive => {
                return ;
            },
        }
        match self.state {
            SessionState::Pending => {},
            _ => {
                return ;
            },
        }
        let chunks = match split_chunks(data, chunk_size) {
            Some(chunks) => chunks,
            None => {
                self.state = SessionState::Failed(FailureReason::IOError);
                return ;
            },
        };
        proof {
            lemma_chunk_count_at_most_len(data@.len(), chunk_size as nat);
        }
        let total = chunks.len();
        let header = Header::of_parts(total as u32, data.len() as u32, content_hash(data));
        let ghost frames = transfer_frames(data@, chunk_size as nat);
        let mut queue: Vec<Vec<u8>> = Vec::new();
        let mut left: usize = total;
        while left > 0
            invariant
                left <= total,
                total == chunks@.len(),
                total == chunk_count(data@.len(), chunk_size as nat),
                total <= u32::MAX,
                frames == transfer_frames(data@, chunk_size as nat),
                forall|i: int|
                    0 <= i < chunks@.len() ==> (#[trigger] chunks@[i])@ == chunk_of(
                        data@,
                        chunk_size as nat,
                        i as nat,
                    ),
                queue@.len() == total - left,
                forall|k: int|
                    0 <= k < queue@.len() ==> (#[trigger] queue@[k])@ == frames[total - k],
            decreases left,
        {
            left = left - 1;
            let frame = encode_chunk(&chunks[left]);
            assert(frame@ == frames[left + 1]);
            queue.push(frame);
        }
        let first = encode_header(&header);
        assert(first@ == frames[0]);
        queue.push(first);
        self.announced = Some(header);
        self.queue = queue;
        self.state = SessionState::InProgress;
        assert(self@.outbound =~= frames);
    }

    /// Hands out the next frame to send. When a sending session has handed
    /// out its last frame, the next call ends it as `Complete`: the caller
    /// asks again only after it has written what it was given.
    pub fn next_frame(&mut self) -> (r: Option<Vec<u8>>)
        ensures
            final(self)@ == after_next_frame(old(self)@),
            match r {
                Some(frame) => next_frame_of(old(self)@) == Some(frame@),
                None => next_frame_of(old(self)@) is None,
            },
    {
        match self.direction {
            Direction::Send => {},
            Direction::Receive => {
                return None;
            },
        }
        match self.state {
            SessionState::InProgress => {},
            _ => {
                return None;
            },
        }
        let frame = self.queue.pop();
        match frame {
            Some(frame) => {
                assert(self@.outbound =~= old(self)@.outbound.drop_first());
                Some(frame)
            },
            None => {
                self.state = SessionState::Complete;
                None
            },
        }
    }
}

/// Whether two buffers hold the same bytes.
pub fn same_bytes(a: &[u8], b: &[u8]) -> (same: bool)
    ensures
        same == (a@ == b@),
{
    if a.len() != b.len() {
        return false;
    }
    let mut i: usize = 0;
    while i < a.len()
        invariant
            i <= a@.len(),
            a@.len() == b@.len(),
            forall|j: int| 0 <= j < i ==> a@[j] == b@[j],
        decreases a@.len() - i,
    {
        if a[i] != b[i] {
            return false;
        }
        i = i + 1;
    }
    assert(a@ =~= b@);
    true
}

} // verus!
