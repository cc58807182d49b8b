//! Chunk store: the chunks of one transfer, kept by index until the file is
//! whole.

use crate::wire::Chunk;
use std::collections::HashMap;
use vstd::prelude::*;

verus! {

broadcast use vstd::std_specs::hash::group_hash_axioms;

/// Why a store could not hand out a file.
#[derive(Clone, Copy, Debug, PartialEq, Eq, Structural)]
pub enum StoreError {
    /// A chunk of the file has not arrived yet.
    IncompleteTransfer,
}

/// Whether `chunks` holds every index below `total`, with no gap.
pub open spec fn complete(chunks: Map<u32, Seq<u8>>, total: nat) -> bool {
    forall|i: u32| (i as nat) < total ==> #[trigger] chunks.contains_key(i)
}

/// The payloads of the first `total` indices, one after the other in index
/// order.
pub open spec fn assembled(chunks: Map<u32, Seq<u8>>, total: nat) -> Seq<u8>
    decreases total,
{
    if total == 0 {
        Seq::empty()
    } else {
        assembled(chunks, (total - 1) as nat) + chunks[(total - 1) as u32]
    }
}

/// The chunks received so far, each under its index.
///
/// Its view is the map from index to payload. Arrival order leaves no
/// trace in it.
#[derive(Debug)]
pub struct ChunkStore {
    chunks: HashMap<u32, Vec<u8>>,
}

impl View for ChunkStore {
    type V = Map<u32, Seq<u8>>;

    closed spec fn view(&self) -> Map<u32, Seq<u8>> {
        Map::new(|k: u32| self.chunks@.contains_key(k), |k: u32| self.chunks@[k]@)
    }
}

impl ChunkStore {
    /// A store that holds nothing.
    pub fn new() -> (s: ChunkStore)
        ensures
            s@ == Map::<u32, Seq<u8>>::empty(),
    {
        let s = ChunkStore { chunks: HashMap::new() };
        assert(s@ =~= Map::<u32, Seq<u8>>::empty());
        s
    }

    /// Puts `payload` under `index`. A payload that was there before is
    /// overwritten: the last one written wins.
    pub fn insert(&mut self, index: u32, payload: Vec<u8>)
        ensures
            final(self)@ == old(self)@.insert(index, payload@),
    {
        self.chunks.insert(index, payload);
        assert(self@ =~= old(self)@.insert(index, payload@));
    }

    /// Puts a chunk under its index.
    pub fn insert_chunk(&mut self, chunk: Chunk)
        ensures
            final(self)@ == old(self)@.insert(chunk@.index, chunk@.payload),
    {
        let index = chunk.index();
        self.insert(index, chunk.into_payload());
    }

    /// Whether a chunk has arrived under `index`.
    pub fn contains(&self, index: u32) -> (b: bool)
        ensures
            b == self@.contains_key(index),
    {
        self.chunks.contains_key(&index)
    }

    /// The payload under `index`, if one has arrived.
    pub fn get(&self, index: u32) -> (r: Option<&Vec<u8>>)
        ensures
            r is Some <==> self@.contains_key(index),
            r matches Some(p) ==> p@ == self@[index],
    {
        self.chunks.get(&index)
    }

    /// Whether every index below `total_chunks` has arrived.
    pub fn is_complete(&self, total_chunks: u32) -> (b: bool)
        ensures
            b == complete(self@, total_chunks as nat),
    {
        let mut i: u32 = 0;
        while i < total_chunks
            invariant
                i <= total_chunks,
                forall|j: u32| j < i ==> #[trigger] self@.contains_key(j),
            decreases total_chunks - i,
        {
            if !self.chunks.contains_key(&i) {
                assert(!self@.contains_key(i));
                return false;
            }
            assert(self@.contains_key(i));
            i = i + 1;
        }
        true
    }

    /// The file: the payloads of the indices below `total_chunks`, joined
    /// in index order. Fails with `IncompleteTransfer` while one of them is
    /// missing.
    pub fn assemble(&self, total_chunks: u32) -> (r: Result<Vec<u8>, StoreError>)
        ensures
            r is Ok <==> complete(self@, total_chunks as nat),
            r matches Ok(bytes) ==> bytes@ == assembled(self@, total_chunks as nat),
            r matches Err(e) ==> e == StoreError::IncompleteTransfer,
    {
        let mut out: Vec<u8> = Vec::new();
        let mut i: u32 = 0;
        while i < total_chunks
            invariant
                i <= total_chunks,
                forall|j: u32| j < i ==> #[trigger] self@.contains_key(j),
                out@ == assembled(self@, i as nat),
            decreases total_chunks - i,
        {
            match self.chunks.get(&i) {
                Some(payload) => {
                    let ghost before = out@;
                    let mut k: usize = 0;
                    while k < payload.len()
                        invariant
                            k <= payload@.len(),
                            out@ == before + payload@.take(k as int),
                        decreases payload@.len() - k,
                    {
                        out.push(payload[k]);
                        k = k + 1;
                        assert(out@ =~= before + payload@.take(k as int));
                    }
                    assert(payload@.take(payload@.len() as int) =~= payload@);
                    assert(self@.contains_key(i));
                    assert(self@[i] == payload@);
                },
                None => {
                    assert(!self@.contains_key(i));
                    return Err(StoreError::IncompleteTransfer);
                },
            }
            i = i + 1;
        }
        Ok(out)
    }
}

/// Putting the same payload under the same index a second time changes
/// nothing.
pub proof fn lemma_insert_is_idempotent(chunks: Map<u32, Seq<u8>>, index: u32, payload: Seq<u8>)
    ensures
        chunks.insert(index, payload).insert(index, payload) == chunks.insert(index, payload),
{
    assert(chunks.insert(index, payload).insert(index, payload) =~= chunks.insert(index, payload));
}

/// Of two payloads put under one index, the later one stays, as if the
/// earlier had never come.
pub proof fn lemma_last_insert_wins(
    chunks: Map<u32, Seq<u8>>,
    index: u32,
    first: Seq<u8>,
    second: Seq<u8>,
)
    ensures
        chunks.insert(index, first).insert(index, second) == chunks.insert(index, second),
        chunks.insert(index, first).insert(index, second)[index] == second,
{
    assert(chunks.insert(index, first).insert(index, second) =~= chunks.insert(index, second));
}

/// Chunks under different indices do not disturb each other: the order in
/// which they arrive leaves the store the same.
pub proof fn lemma_insert_order_is_immaterial(
    chunks: Map<u32, Seq<u8>>,
    i: u32,
    p: Seq<u8>,
    j: u32,
    q: Seq<u8>,
)
    requires
        i != j,
    ensures
        chunks.insert(i, p).insert(j, q) == chunks.insert(j, q).insert(i, p),
{
    assert(chunks.insert(i, p).insert(j, q) =~= chunks.insert(j, q).insert(i, p));
}

/// The store after a run of inserts, each an index and a payload.
pub open spec fn after_inserts(
    chunks: Map<u32, Seq<u8>>,
    inserts: Seq<(u32, Seq<u8>)>,
) -> Map<u32, Seq<u8>>
    decreases inserts.len(),
{
    if inserts.len() == 0 {
        chunks
    } else {
        after_inserts(chunks, inserts.drop_last()).insert(inserts.last().0, inserts.last().1)
    }
}

/// Whether the index `i` is among `inserts`.
pub open spec fn was_inserted(inserts: Seq<(u32, Seq<u8>)>, i: u32) -> bool {
    exists|k: int| 0 <= k < inserts.len() && (#[trigger] inserts[k]).0 == i
}

/// A store holds an index exactly if it held it before or it was inserted
/// since.
pub proof fn lemma_held_iff_inserted(
    chunks: Map<u32, Seq<u8>>,
    inserts: Seq<(u32, Seq<u8>)>,
    i: u32,
)
    ensures
        after_inserts(chunks, inserts).contains_key(i) <==> chunks.contains_key(i) || was_inserted(
            inserts,
            i,
        ),
    decreases inserts.len(),
{
    if inserts.len() > 0 {
        let before = inserts.drop_last();
        lemma_held_iff_inserted(chunks, before, i);
        if was_inserted(before, i) {
            let k = choose|k: int| 0 <= k < before.len() && (#[trigger] before[k]).0 == i;
            assert(inserts[k].0 == i);
        }
        if inserts.last().0 == i {
            assert(inserts[inserts.len() - 1].0 == i);
        }
        if was_inserted(inserts, i) && inserts.last().0 != i {
            let k = choose|k: int| 0 <= k < inserts.len() && (#[trigger] inserts[k]).0 == i;
            assert(before[k].0 == i);
        }
    }
}

/// Completeness: a store that started empty is complete for a total
/// exactly if every index below the total has been inserted, whatever else
/// was inserted, in whatever order, however often. One index that never
/// came, wherever the gap lies, makes it incomplete.
pub proof fn lemma_complete_iff_all_inserted(inserts: Seq<(u32, Seq<u8>)>, total: nat)
    ensures
        complete(after_inserts(Map::empty(), inserts), total) <==> forall|i: u32|
            (i as nat) < total ==> #[trigger] was_inserted(inserts, i),
{
    let store = after_inserts(Map::empty(), inserts);
    assert forall|i: u32| store.contains_key(i) <==> #[trigger] was_inserted(inserts, i) by {
        lemma_held_iff_inserted(Map::empty(), inserts, i);
    }
    if complete(store, total) {
        assert forall|i: u32| (i as nat) < total implies #[trigger] was_inserted(inserts, i) by {
            assert(store.contains_key(i));
        }
    }
    if forall|i: u32| (i as nat) < total ==> #[trigger] was_inserted(inserts, i) {
        assert forall|i: u32| (i as nat) < total implies #[trigger] store.contains_key(i) by {
            assert(was_inserted(inserts, i));
        }
    }
}

/// What was assembled depends only on the chunks below the total.
pub proof fn lemma_assembled_reads_below_total(
    a: Map<u32, Seq<u8>>,
    b: Map<u32, Seq<u8>>,
    total: nat,
)
    requires
        total <= u32::MAX + 1,
        forall|i: u32| (i as nat) < total ==> a[i] == b[i],
    ensures
        assembled(a, total) == assembled(b, total),
    decreases total,
{
    if total > 0 {
        lemma_assembled_reads_below_total(a, b, (total - 1) as nat);
    }
}

} // verus!
