use marf_store::error::Error;
use marf_store::hash::{BlockHeaderHash, TrieHash};
use marf_store::store::{
    block_id_from_rowid, clear_lock_data, clear_tables, count_blocks, create_tables_if_needed,
    drop_lock, get_block_hash, get_block_identifier, get_node_hash_bytes,
    get_node_hash_bytes_by_bhh, lock_bhh_for_extension, next_block_id,
    read_all_block_hashes_and_roots, read_mined_blob, read_node_hash_bytes,
    read_node_hash_bytes_by_bhh, read_node_type, read_range, range_within, restore_trie_blob,
    root_hash_of_blob, write_trie_blob,
    write_trie_blob_to_mined, TriePtr, TrieStore,
};

fn hash(n: u8) -> BlockHeaderHash {
    BlockHeaderHash([n; 32])
}

fn ready_store() -> TrieStore {
    let mut store = TrieStore::new();
    assert_eq!(create_tables_if_needed(&mut store), Ok(()));
    store
}

fn blob(len: usize, seed: u8) -> Vec<u8> {
    let mut v = Vec::new();
    for i in 0..len {
        v.push((i as u8).wrapping_mul(7).wrapping_add(seed));
    }
    v
}

#[test]
fn store_without_tables_reports_backend() {
    let mut store = TrieStore::new();
    assert_eq!(count_blocks(&store), Err(Error::Backend));
    assert_eq!(get_block_identifier(&store, &hash(1)), Err(Error::Backend));
    assert_eq!(get_block_hash(&store, 1), Err(Error::Backend));
    assert_eq!(write_trie_blob(&mut store, &hash(1), &[1, 2, 3]), Err(Error::Backend));
    assert_eq!(write_trie_blob_to_mined(&mut store, &hash(1), &[1]), Err(Error::Backend));
    assert_eq!(lock_bhh_for_extension(&mut store, &hash(1)), Err(Error::Backend));
    assert_eq!(drop_lock(&mut store, &hash(1)), Err(Error::Backend));
    assert_eq!(clear_lock_data(&mut store), Err(Error::Backend));
    assert_eq!(clear_tables(&mut store), Err(Error::Backend));
    assert_eq!(read_range(&store, 1, 0, 0), Err(Error::Backend));
    assert_eq!(read_all_block_hashes_and_roots(&store), Err(Error::Backend));
}

#[test]
fn creating_tables_twice_keeps_rows() {
    let mut store = ready_store();
    assert_eq!(write_trie_blob(&mut store, &hash(1), &[9, 9]), Ok(1));
    assert_eq!(create_tables_if_needed(&mut store), Ok(()));
    assert_eq!(count_blocks(&store), Ok(1));
    assert_eq!(read_range(&store, 1, 0, 2), Ok(vec![9, 9]));
}

#[test]
fn empty_store() {
    let store = ready_store();
    assert_eq!(count_blocks(&store), Ok(0));
    assert_eq!(get_block_identifier(&store, &hash(0)), Err(Error::NotFound));
    assert_eq!(get_block_identifier(&store, &hash(200)), Err(Error::NotFound));
    assert_eq!(get_block_hash(&store, 1), Err(Error::NotFound));
    assert_eq!(read_all_block_hashes_and_roots(&store), Ok(vec![]));
}

#[test]
fn single_commit() {
    let mut store = ready_store();
    let h1 = hash(1);
    let b1 = blob(100, 3);
    assert_eq!(lock_bhh_for_extension(&mut store, &h1), Ok(true));
    assert_eq!(write_trie_blob(&mut store, &h1, &b1), Ok(1));
    assert_eq!(drop_lock(&mut store, &h1), Ok(()));
    assert_eq!(count_blocks(&store), Ok(1));
    assert_eq!(get_block_identifier(&store, &h1), Ok(1));
    assert_eq!(get_block_hash(&store, 1), Ok(h1));
    assert_eq!(get_block_hash(&store, 2), Err(Error::NotFound));
    assert_eq!(get_block_hash(&store, 0), Err(Error::NotFound));
}

#[test]
fn lock_versus_commit_race() {
    let mut store = ready_store();
    let h = hash(42);
    assert_eq!(lock_bhh_for_extension(&mut store, &h), Ok(true));
    assert_eq!(lock_bhh_for_extension(&mut store, &h), Ok(false));
    assert_eq!(write_trie_blob(&mut store, &h, &blob(10, 0)), Ok(1));
    assert_eq!(drop_lock(&mut store, &h), Ok(()));
    assert_eq!(lock_bhh_for_extension(&mut store, &h), Ok(false));
}

#[test]
fn mined_namespace_overwrite() {
    let mut store = ready_store();
    for n in 1..=6u8 {
        assert_eq!(write_trie_blob_to_mined(&mut store, &hash(n), &blob(5, n)), Ok(n as u32));
    }
    let h = hash(77);
    let b1 = blob(20, 1);
    let b2 = blob(30, 2);
    assert_eq!(write_trie_blob_to_mined(&mut store, &h, &b1), Ok(7));
    assert_eq!(read_mined_blob(&store, &h), Ok(b1));
    assert_eq!(write_trie_blob_to_mined(&mut store, &h, &b2), Ok(7));
    assert_eq!(read_mined_blob(&store, &h), Ok(b2));
    assert_eq!(count_blocks(&store), Ok(0));
    assert_eq!(get_block_identifier(&store, &h), Err(Error::NotFound));
    assert_eq!(read_mined_blob(&store, &hash(99)), Err(Error::NotFound));
}

#[test]
fn mined_replace_of_an_earlier_row_takes_a_new_id() {
    let mut store = ready_store();
    assert_eq!(write_trie_blob_to_mined(&mut store, &hash(1), &[1]), Ok(1));
    assert_eq!(write_trie_blob_to_mined(&mut store, &hash(2), &[2]), Ok(2));
    assert_eq!(write_trie_blob_to_mined(&mut store, &hash(3), &[3]), Ok(3));
    assert_eq!(write_trie_blob_to_mined(&mut store, &hash(1), &[4, 4]), Ok(4));
    assert_eq!(read_mined_blob(&store, &hash(1)), Ok(vec![4, 4]));
    assert_eq!(read_mined_blob(&store, &hash(2)), Ok(vec![2]));
    assert_eq!(read_mined_blob(&store, &hash(3)), Ok(vec![3]));
}

#[test]
fn exhaustion() {
    assert_eq!(next_block_id(2147483647), Err(Error::Exhausted));
    assert_eq!(next_block_id(u32::MAX), Err(Error::Exhausted));
    assert_eq!(next_block_id(2147483646), Ok(2147483647));
    assert_eq!(next_block_id(0), Ok(1));
}

#[test]
fn insert_at_the_last_id_is_exhausted() {
    let mut store = ready_store();
    assert_eq!(restore_trie_blob(&mut store, 2147483647, &hash(1), &[1, 2]), Ok(()));
    assert_eq!(count_blocks(&store), Ok(2147483647));
    assert_eq!(write_trie_blob(&mut store, &hash(2), &[3]), Err(Error::Exhausted));
    assert_eq!(count_blocks(&store), Ok(2147483647));
    assert_eq!(get_block_identifier(&store, &hash(2)), Err(Error::NotFound));
    assert_eq!(write_trie_blob(&mut store, &hash(1), &[3]), Err(Error::Duplicate));
    assert_eq!(write_trie_blob_to_mined(&mut store, &hash(2), &[3]), Ok(1));
}

#[test]
fn restored_rows_keep_their_ids() {
    let mut store = TrieStore::new();
    assert_eq!(restore_trie_blob(&mut store, 1, &hash(1), &[1]), Err(Error::Backend));
    assert_eq!(create_tables_if_needed(&mut store), Ok(()));
    assert_eq!(restore_trie_blob(&mut store, 0, &hash(1), &[1]), Err(Error::Corruption));
    assert_eq!(restore_trie_blob(&mut store, 3, &hash(1), &[1]), Ok(()));
    assert_eq!(restore_trie_blob(&mut store, 3, &hash(2), &[2]), Err(Error::Corruption));
    assert_eq!(restore_trie_blob(&mut store, 2, &hash(2), &[2]), Err(Error::Corruption));
    assert_eq!(restore_trie_blob(&mut store, 9, &hash(1), &[2]), Err(Error::Duplicate));
    assert_eq!(restore_trie_blob(&mut store, 2147483648, &hash(2), &[2]), Err(Error::Corruption));
    assert_eq!(restore_trie_blob(&mut store, 7, &hash(2), &[2, 2]), Ok(()));
    assert_eq!(count_blocks(&store), Ok(7));
    assert_eq!(get_block_identifier(&store, &hash(1)), Ok(3));
    assert_eq!(get_block_hash(&store, 7), Ok(hash(2)));
    assert_eq!(get_block_hash(&store, 5), Err(Error::NotFound));
    assert_eq!(read_range(&store, 7, 0, 2), Ok(vec![2, 2]));
    assert_eq!(write_trie_blob(&mut store, &hash(3), &[3]), Ok(8));
}

#[test]
fn ranges_within_a_length() {
    assert!(range_within(10, 0, 10));
    assert!(range_within(10, 10, 0));
    assert!(range_within(0, 0, 0));
    assert!(!range_within(10, 0, 11));
    assert!(!range_within(10, 11, 0));
    assert!(!range_within(10, u64::MAX, 1));
    assert!(!range_within(u64::MAX, 1, u64::MAX));
}

#[test]
fn root_hash_of_one_blob() {
    let b = blob(70, 4);
    let mut want = [0u8; 32];
    want.copy_from_slice(&b[36..68]);
    assert_eq!(root_hash_of_blob(&b), Ok(TrieHash(want)));
    assert_eq!(root_hash_of_blob(&b[..68]), Ok(TrieHash(want)));
    assert_eq!(root_hash_of_blob(&b[..67]), Err(Error::Corruption));
    assert_eq!(root_hash_of_blob(&[]), Err(Error::Corruption));
}

#[test]
fn row_numbers_become_block_ids() {
    assert_eq!(block_id_from_rowid(1), Ok(1));
    assert_eq!(block_id_from_rowid(5), Ok(5));
    assert_eq!(block_id_from_rowid(2147483647), Ok(2147483647));
    assert_eq!(block_id_from_rowid(2147483648), Err(Error::Exhausted));
    assert_eq!(block_id_from_rowid(i64::MAX), Err(Error::Exhausted));
    assert_eq!(block_id_from_rowid(0), Err(Error::Corruption));
    assert_eq!(block_id_from_rowid(-3), Err(Error::Corruption));
}

#[test]
fn ids_increase_and_equal_the_count() {
    let mut store = ready_store();
    let mut last = 0u32;
    for n in 0..20u8 {
        let id = write_trie_blob(&mut store, &hash(n), &blob(n as usize, n)).unwrap();
        assert!(id > last);
        assert_eq!(id, n as u32 + 1);
        assert_eq!(count_blocks(&store), Ok(id));
        last = id;
    }
}

#[test]
fn ranges_read_back() {
    let mut store = ready_store();
    let h = hash(5);
    let b = blob(200, 11);
    let other = blob(50, 60);
    assert_eq!(write_trie_blob(&mut store, &hash(4), &other), Ok(1));
    let id = write_trie_blob(&mut store, &h, &b).unwrap();
    assert_eq!(id, 2);
    assert_eq!(get_block_identifier(&store, &h), Ok(id));
    assert_eq!(read_range(&store, id, 0, 200), Ok(b.clone()));
    assert_eq!(read_range(&store, id, 10, 30), Ok(b[10..40].to_vec()));
    assert_eq!(read_range(&store, id, 199, 1), Ok(vec![b[199]]));
    assert_eq!(read_range(&store, id, 200, 0), Ok(vec![]));
    assert_eq!(read_range(&store, 1, 0, 50), Ok(other));
    assert_eq!(write_trie_blob(&mut store, &hash(6), &[1, 2, 3]), Ok(3));
    assert_eq!(read_range(&store, id, 10, 30), Ok(b[10..40].to_vec()));
}

#[test]
fn ranges_out_of_bounds_or_of_missing_blocks() {
    let mut store = ready_store();
    assert_eq!(write_trie_blob(&mut store, &hash(1), &blob(10, 0)), Ok(1));
    assert_eq!(read_range(&store, 1, 0, 11), Err(Error::OutOfBounds));
    assert_eq!(read_range(&store, 1, 11, 0), Err(Error::OutOfBounds));
    assert_eq!(read_range(&store, 1, 5, 6), Err(Error::OutOfBounds));
    assert_eq!(read_range(&store, 1, u64::MAX, 2), Err(Error::OutOfBounds));
    assert_eq!(read_range(&store, 1, 2, u64::MAX), Err(Error::OutOfBounds));
    assert_eq!(read_range(&store, 2, 0, 1), Err(Error::NotFound));
    assert_eq!(read_range(&store, 0, 0, 0), Err(Error::NotFound));
}

#[test]
fn lock_on_committed_hash_leaves_locks_alone() {
    let mut store = ready_store();
    let h = hash(9);
    assert_eq!(write_trie_blob(&mut store, &h, &[1]), Ok(1));
    assert_eq!(lock_bhh_for_extension(&mut store, &h), Ok(false));
    let other = hash(10);
    assert_eq!(lock_bhh_for_extension(&mut store, &other), Ok(true));
    assert_eq!(lock_bhh_for_extension(&mut store, &h), Ok(false));
    assert_eq!(lock_bhh_for_extension(&mut store, &other), Ok(false));
}

#[test]
fn lock_twice_and_lock_after_unlock() {
    let mut store = ready_store();
    let h = hash(3);
    assert_eq!(lock_bhh_for_extension(&mut store, &h), Ok(true));
    assert_eq!(lock_bhh_for_extension(&mut store, &h), Ok(false));
    assert_eq!(drop_lock(&mut store, &h), Ok(()));
    assert_eq!(lock_bhh_for_extension(&mut store, &h), Ok(true));
    assert_eq!(drop_lock(&mut store, &h), Ok(()));
    assert_eq!(drop_lock(&mut store, &h), Ok(()));
    assert_eq!(lock_bhh_for_extension(&mut store, &h), Ok(true));
}

#[test]
fn distinct_hashes_lock_side_by_side() {
    let mut store = ready_store();
    assert_eq!(lock_bhh_for_extension(&mut store, &hash(1)), Ok(true));
    assert_eq!(lock_bhh_for_extension(&mut store, &hash(2)), Ok(true));
    assert_eq!(drop_lock(&mut store, &hash(1)), Ok(()));
    assert_eq!(lock_bhh_for_extension(&mut store, &hash(2)), Ok(false));
    assert_eq!(lock_bhh_for_extension(&mut store, &hash(1)), Ok(true));
}

#[test]
fn duplicate_commit_is_refused() {
    let mut store = ready_store();
    let h = hash(8);
    assert_eq!(write_trie_blob(&mut store, &h, &[1, 2]), Ok(1));
    assert_eq!(write_trie_blob(&mut store, &h, &[3, 4, 5]), Err(Error::Duplicate));
    assert_eq!(count_blocks(&store), Ok(1));
    assert_eq!(read_range(&store, 1, 0, 2), Ok(vec![1, 2]));
    assert_eq!(read_range(&store, 1, 0, 3), Err(Error::OutOfBounds));
}

#[test]
fn clearing_locks_releases_every_hash() {
    let mut store = ready_store();
    assert_eq!(lock_bhh_for_extension(&mut store, &hash(1)), Ok(true));
    assert_eq!(lock_bhh_for_extension(&mut store, &hash(2)), Ok(true));
    assert_eq!(write_trie_blob(&mut store, &hash(3), &[7]), Ok(1));
    assert_eq!(clear_lock_data(&mut store), Ok(()));
    assert_eq!(lock_bhh_for_extension(&mut store, &hash(1)), Ok(true));
    assert_eq!(lock_bhh_for_extension(&mut store, &hash(2)), Ok(true));
    assert_eq!(count_blocks(&store), Ok(1));
}

#[test]
fn clearing_tables_empties_the_store() {
    let mut store = ready_store();
    assert_eq!(write_trie_blob(&mut store, &hash(1), &[7]), Ok(1));
    assert_eq!(write_trie_blob_to_mined(&mut store, &hash(2), &[8]), Ok(1));
    assert_eq!(lock_bhh_for_extension(&mut store, &hash(3)), Ok(true));
    assert_eq!(clear_tables(&mut store), Ok(()));
    assert_eq!(count_blocks(&store), Ok(0));
    assert_eq!(get_block_identifier(&store, &hash(1)), Err(Error::NotFound));
    assert_eq!(read_mined_blob(&store, &hash(2)), Err(Error::NotFound));
    assert_eq!(lock_bhh_for_extension(&mut store, &hash(3)), Ok(true));
    assert_eq!(write_trie_blob(&mut store, &hash(1), &[9]), Ok(1));
}

#[test]
fn node_hashes_are_read_at_the_pointer() {
    let mut store = ready_store();
    let h = hash(1);
    let b = blob(120, 5);
    assert_eq!(write_trie_blob(&mut store, &h, &b), Ok(1));
    let ptr = TriePtr { flags: 0x80, offset: 40, length: 60 };
    let mut want = [0u8; 32];
    want.copy_from_slice(&b[40..72]);
    assert_eq!(get_node_hash_bytes(&store, 1, &ptr), Ok(TrieHash(want)));
    assert_eq!(get_node_hash_bytes_by_bhh(&store, &h, &ptr), Ok(TrieHash(want)));
    assert_eq!(get_node_hash_bytes(&store, 2, &ptr), Err(Error::NotFound));
    assert_eq!(get_node_hash_bytes_by_bhh(&store, &hash(2), &ptr), Err(Error::NotFound));
    let late = TriePtr { flags: 0, offset: 89, length: 32 };
    assert_eq!(get_node_hash_bytes(&store, 1, &late), Err(Error::OutOfBounds));
    let last = TriePtr { flags: 0, offset: 88, length: 32 };
    let mut tail = [0u8; 32];
    tail.copy_from_slice(&b[88..120]);
    assert_eq!(get_node_hash_bytes(&store, 1, &last), Ok(TrieHash(tail)));
}

#[test]
fn node_hashes_are_appended_to_the_buffer() {
    let mut store = ready_store();
    let h = hash(1);
    let b = blob(64, 9);
    assert_eq!(write_trie_blob(&mut store, &h, &b), Ok(1));
    let ptr = TriePtr { flags: 0, offset: 8, length: 40 };
    let mut w = vec![1u8, 2, 3];
    assert_eq!(read_node_hash_bytes(&store, &mut w, 1, &ptr), Ok(()));
    let mut want = vec![1u8, 2, 3];
    want.extend_from_slice(&b[8..40]);
    assert_eq!(w, want);
    assert_eq!(read_node_hash_bytes_by_bhh(&store, &mut w, &h, &ptr), Ok(()));
    want.extend_from_slice(&b[8..40]);
    assert_eq!(w, want);
    let bad = TriePtr { flags: 0, offset: 33, length: 40 };
    assert_eq!(read_node_hash_bytes(&store, &mut w, 1, &bad), Err(Error::OutOfBounds));
    assert_eq!(read_node_hash_bytes(&store, &mut w, 9, &ptr), Err(Error::NotFound));
    assert_eq!(read_node_hash_bytes_by_bhh(&store, &mut w, &hash(2), &ptr), Err(Error::NotFound));
    assert_eq!(w, want);
}

#[test]
fn node_records_split_into_node_and_hash() {
    let mut store = ready_store();
    let b = blob(100, 1);
    assert_eq!(write_trie_blob(&mut store, &hash(1), &b), Ok(1));
    let ptr = TriePtr { flags: 0, offset: 20, length: 50 };
    let mut want_hash = [0u8; 32];
    want_hash.copy_from_slice(&b[20..52]);
    assert_eq!(read_node_type(&store, 1, &ptr), Ok((b[52..70].to_vec(), TrieHash(want_hash))));
    let bare = TriePtr { flags: 0, offset: 20, length: 32 };
    assert_eq!(read_node_type(&store, 1, &bare), Ok((vec![], TrieHash(want_hash))));
    let short = TriePtr { flags: 0, offset: 20, length: 31 };
    assert_eq!(read_node_type(&store, 1, &short), Err(Error::Corruption));
    let long = TriePtr { flags: 0, offset: 60, length: 41 };
    assert_eq!(read_node_type(&store, 1, &long), Err(Error::OutOfBounds));
    assert_eq!(read_node_type(&store, 3, &ptr), Err(Error::NotFound));
}

#[test]
fn roots_are_read_at_the_fixed_offset() {
    let mut store = ready_store();
    let b1 = blob(68, 1);
    let b2 = blob(150, 2);
    assert_eq!(write_trie_blob(&mut store, &hash(1), &b1), Ok(1));
    assert_eq!(write_trie_blob(&mut store, &hash(2), &b2), Ok(2));
    let mut r1 = [0u8; 32];
    r1.copy_from_slice(&b1[36..68]);
    let mut r2 = [0u8; 32];
    r2.copy_from_slice(&b2[36..68]);
    assert_eq!(
        read_all_block_hashes_and_roots(&store),
        Ok(vec![(TrieHash(r1), hash(1)), (TrieHash(r2), hash(2))])
    );
    assert_eq!(write_trie_blob(&mut store, &hash(3), &blob(67, 3)), Ok(3));
    assert_eq!(read_all_block_hashes_and_roots(&store), Err(Error::Corruption));
}
