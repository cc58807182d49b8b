use p2p_transfer::split::split_chunks;
use p2p_transfer::store::{ChunkStore, StoreError};

#[test]
fn empty_store_is_complete_only_for_no_chunks() {
    let store = ChunkStore::new();
    assert!(store.is_complete(0));
    assert!(!store.is_complete(1));
    assert_eq!(store.assemble(0), Ok(Vec::new()));
    assert_eq!(store.assemble(1), Err(StoreError::IncompleteTransfer));
}

#[test]
fn store_is_complete_only_without_gaps() {
    for missing in 0..4u32 {
        let mut store = ChunkStore::new();
        for i in 0..4u32 {
            if i != missing {
                store.insert(i, vec![i as u8]);
            }
        }
        assert!(!store.is_complete(4));
        assert_eq!(store.is_complete(missing), true);
        assert_eq!(store.assemble(4), Err(StoreError::IncompleteTransfer));
        store.insert(missing, vec![missing as u8]);
        assert!(store.is_complete(4));
        assert_eq!(store.assemble(4), Ok(vec![0, 1, 2, 3]));
    }
}

#[test]
fn same_insert_twice_changes_nothing() {
    let mut once = ChunkStore::new();
    once.insert(0, b"AAAA".to_vec());
    let mut twice = ChunkStore::new();
    twice.insert(0, b"AAAA".to_vec());
    twice.insert(0, b"AAAA".to_vec());
    assert_eq!(once.get(0), twice.get(0));
    assert_eq!(once.assemble(1), twice.assemble(1));
    assert!(!twice.contains(1));
}

#[test]
fn later_insert_wins() {
    let mut store = ChunkStore::new();
    store.insert(0, b"old!".to_vec());
    store.insert(0, b"new".to_vec());
    assert_eq!(store.get(0), Some(&b"new".to_vec()));
    assert_eq!(store.assemble(1), Ok(b"new".to_vec()));
}

#[test]
fn arrival_order_does_not_matter() {
    let mut store = ChunkStore::new();
    store.insert(2, b"CCCC".to_vec());
    store.insert(0, b"AAAA".to_vec());
    assert!(!store.is_complete(3));
    store.insert(1, b"BBBB".to_vec());
    assert!(store.is_complete(3));
    assert_eq!(store.assemble(3), Ok(b"AAAABBBBCCCC".to_vec()));
}

#[test]
fn chunks_beyond_the_total_are_left_out() {
    let mut store = ChunkStore::new();
    store.insert(0, b"A".to_vec());
    store.insert(5, b"Z".to_vec());
    assert!(store.is_complete(1));
    assert_eq!(store.assemble(1), Ok(b"A".to_vec()));
}

#[test]
fn split_gives_chunks_of_the_size_asked() {
    let chunks = split_chunks(b"AAAABBBBCC", 4).unwrap();
    assert_eq!(chunks.len(), 3);
    assert_eq!(chunks[0].index(), 0);
    assert_eq!(chunks[0].payload(), &b"AAAA".to_vec());
    assert_eq!(chunks[1].index(), 1);
    assert_eq!(chunks[1].payload(), &b"BBBB".to_vec());
    assert_eq!(chunks[2].index(), 2);
    assert_eq!(chunks[2].payload(), &b"CC".to_vec());
}

#[test]
fn split_of_nothing_is_no_chunk() {
    assert_eq!(split_chunks(b"", 4096).unwrap().len(), 0);
}

#[test]
fn split_refuses_a_chunk_size_of_zero() {
    assert!(split_chunks(b"abc", 0).is_none());
}

#[test]
fn split_then_assemble_gives_the_bytes_back() {
    let data: Vec<u8> = (0..1000u32).map(|i| (i * 7 + 3) as u8).collect();
    for len in [0usize, 1, 2, 63, 64, 65, 999, 1000] {
        for chunk_size in [1usize, 2, 3, 64, 999, 1000, 1001, 4096] {
            let chunks = split_chunks(&data[..len], chunk_size).unwrap();
            assert_eq!(chunks.len(), (len + chunk_size - 1) / chunk_size);
            let total = chunks.len() as u32;
            let mut store = ChunkStore::new();
            for chunk in chunks.into_iter().rev() {
                store.insert_chunk(chunk);
            }
            assert_eq!(store.assemble(total), Ok(data[..len].to_vec()));
        }
    }
}
