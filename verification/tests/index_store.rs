use alba_core::index_model::{ChunkMeta, CreateAction, IndexError, KeyQuery};
use alba_core::indexing::{Add, FileWrite, FlushStep, Indexing, Remove, Search, StoreFile};
use std::collections::BTreeSet;

fn empty_store() -> Indexing {
    Indexing::load_index(Some(Vec::new()), Some(Vec::new())).unwrap()
}

fn apply(file: &mut Vec<u8>, w: &FileWrite) {
    let at = w.offset as usize;
    if file.len() < at + w.bytes.len() {
        file.resize(at + w.bytes.len(), 0);
    }
    file[at..at + w.bytes.len()].copy_from_slice(&w.bytes);
}

fn apply_all(index: &mut Vec<u8>, metadata: &mut Vec<u8>, writes: &[FileWrite]) {
    for w in writes {
        match w.file {
            StoreFile::Index => apply(index, w),
            StoreFile::Metadata => apply(metadata, w),
        }
    }
}

fn set_of(offsets: &[u64]) -> BTreeSet<u64> {
    offsets.iter().copied().collect()
}

#[test]
fn added_entry_is_found_under_its_key() {
    let mut store = empty_store();
    store.add(77, 5);
    assert_eq!(store.search(77u64), set_of(&[5]));
}

#[test]
fn first_add_opens_a_chunk_of_4096_keys() {
    let mut store = empty_store();
    let writes = store.add(1000, 42);
    assert_eq!(store.metadata(), &vec![ChunkMeta { min_key: 1000, max_key: 5095, count: 1 }]);
    assert_eq!(store.index_bytes().len(), 65536);
    assert_eq!(writes.len(), 2);
    assert_eq!(writes[0].file, StoreFile::Metadata);
    assert_eq!(writes[0].offset, 0);
    assert_eq!(
        writes[0].bytes,
        vec![0, 0, 0, 0, 0, 0, 0x03, 0xe8, 0, 0, 0, 0, 0, 0, 0x13, 0xe7, 0, 1]
    );
    assert_eq!(writes[1].file, StoreFile::Index);
    assert_eq!(writes[1].offset, 0);
    assert_eq!(writes[1].bytes.len(), 65536);
    assert_eq!(
        &writes[1].bytes[..16],
        &[0, 0, 0, 0, 0, 0, 0x03, 0xe8, 0, 0, 0, 0, 0, 0, 0, 42]
    );
    assert!(writes[1].bytes[16..].iter().all(|b| *b == 0));
}

#[test]
fn second_add_goes_into_the_first_free_slot() {
    let mut store = empty_store();
    store.add(1000, 1);
    let writes = store.add(1001, 2);
    assert_eq!(store.metadata(), &vec![ChunkMeta { min_key: 1000, max_key: 5095, count: 2 }]);
    assert_eq!(writes.len(), 2);
    assert_eq!(writes[0].file, StoreFile::Index);
    assert_eq!(writes[0].offset, 16);
    assert_eq!(writes[0].bytes, vec![0, 0, 0, 0, 0, 0, 0x03, 0xe9, 0, 0, 0, 0, 0, 0, 0, 2]);
    assert_eq!(writes[1].file, StoreFile::Metadata);
    assert_eq!(writes[1].offset, 0);
    assert_eq!(
        writes[1].bytes,
        vec![0, 0, 0, 0, 0, 0, 0x03, 0xe8, 0, 0, 0, 0, 0, 0, 0x13, 0xe7, 0, 2]
    );
    assert_eq!(&store.index_bytes()[16..32], &writes[0].bytes[..]);
}

#[test]
fn key_outside_every_range_opens_another_chunk() {
    let mut store = empty_store();
    store.add(5000, 1);
    store.add(3000, 2);
    assert_eq!(
        store.metadata(),
        &vec![
            ChunkMeta { min_key: 5000, max_key: 9095, count: 1 },
            ChunkMeta { min_key: 3000, max_key: 7095, count: 1 },
        ]
    );
    assert_eq!(store.index_bytes().len(), 2 * 65536);
    store.add(6000, 3);
    assert_eq!(store.metadata()[0].count, 2);
    assert_eq!(store.metadata()[1].count, 1);
    assert_eq!(store.search(3000u64..=7000u64), set_of(&[1, 2, 3]));
}

#[test]
fn range_of_a_chunk_ends_at_the_largest_key() {
    let mut store = empty_store();
    store.add(u64::MAX - 10, 9);
    assert_eq!(
        store.metadata(),
        &vec![ChunkMeta { min_key: u64::MAX - 10, max_key: u64::MAX, count: 1 }]
    );
    assert_eq!(store.search(u64::MAX), BTreeSet::new());
    assert_eq!(store.search(u64::MAX - 10), set_of(&[9]));
}

#[test]
fn full_chunk_is_passed_over() {
    let mut store = empty_store();
    for i in 0..4096u64 {
        store.add(7, i + 1);
    }
    assert_eq!(store.metadata(), &vec![ChunkMeta { min_key: 7, max_key: 4102, count: 4096 }]);
    store.add(7, 5000);
    assert_eq!(
        store.metadata(),
        &vec![
            ChunkMeta { min_key: 7, max_key: 4102, count: 4096 },
            ChunkMeta { min_key: 7, max_key: 4102, count: 1 },
        ]
    );
    assert_eq!(store.index_bytes().len(), 2 * 65536);
    let found = store.search(7u64);
    assert_eq!(found.len(), 4097);
    assert!(found.contains(&5000));
    assert!(found.contains(&4096));
}

#[test]
fn half_open_range_over_one_chunk_leaves_out_larger_keys() {
    let mut store = empty_store();
    store.add(1000, 11);
    store.add(1999, 22);
    store.add(2000, 33);
    assert_eq!(store.metadata(), &vec![ChunkMeta { min_key: 1000, max_key: 5095, count: 3 }]);
    assert_eq!(store.search(1000u64..2000u64), set_of(&[11, 22]));
}

#[test]
fn inclusive_range_covers_half_open_range() {
    let mut store = empty_store();
    store.add(10, 1);
    store.add(15, 2);
    store.add(20, 3);
    store.add(21, 4);
    let half_open = store.search(10u64..20u64);
    let inclusive = store.search(10u64..=20u64);
    assert_eq!(half_open, set_of(&[1, 2]));
    assert_eq!(inclusive, set_of(&[1, 2, 3]));
    assert!(inclusive.is_superset(&half_open));
}

#[test]
fn removed_entry_is_not_found() {
    let mut store = empty_store();
    store.add(50, 1);
    store.add(50, 2);
    store.add(51, 3);
    let writes = store.remove(50, 1);
    assert_eq!(store.search(50u64), set_of(&[2]));
    assert_eq!(store.metadata(), &vec![ChunkMeta { min_key: 50, max_key: 4145, count: 2 }]);
    assert_eq!(writes.len(), 2);
    assert_eq!(writes[0].file, StoreFile::Index);
    assert_eq!(writes[0].offset, 0);
    assert_eq!(writes[0].bytes.len(), 65536);
    assert_eq!(&writes[0].bytes[..16], &[0, 0, 0, 0, 0, 0, 0, 50, 0, 0, 0, 0, 0, 0, 0, 2]);
    assert_eq!(&writes[0].bytes[16..32], &[0, 0, 0, 0, 0, 0, 0, 51, 0, 0, 0, 0, 0, 0, 0, 3]);
    assert!(writes[0].bytes[32..].iter().all(|b| *b == 0));
    assert_eq!(writes[1].file, StoreFile::Metadata);
    assert_eq!(writes[1].bytes, vec![0, 0, 0, 0, 0, 0, 0, 50, 0, 0, 0, 0, 0, 0, 0x10, 0x31, 0, 2]);
}

#[test]
fn remove_takes_every_copy_out_of_every_chunk() {
    let mut store = empty_store();
    store.add(5000, 8);
    store.add(3000, 1);
    store.add(5000, 8);
    store.add(5001, 8);
    assert_eq!(store.metadata()[0].count, 3);
    store.remove(5000, 8);
    assert_eq!(store.metadata()[0].count, 1);
    assert_eq!(store.metadata()[1].count, 1);
    assert_eq!(store.search(5000u64), BTreeSet::new());
    assert_eq!(store.search(5001u64), set_of(&[8]));
    assert_eq!(store.search(3000u64), set_of(&[1]));
}

#[test]
fn removing_an_absent_entry_changes_nothing() {
    let mut store = empty_store();
    store.add(50, 1);
    store.add(9000, 2);
    let metadata = store.metadata().clone();
    let index = store.index_bytes().clone();
    store.remove(50, 7);
    assert_eq!(store.metadata(), &metadata);
    assert_eq!(store.index_bytes(), &index);
    let writes = store.remove(700_000, 1);
    assert!(writes.is_empty());
    assert_eq!(store.metadata(), &metadata);
    assert_eq!(store.index_bytes(), &index);
}

#[test]
fn free_slots_answer_a_search_for_key_zero() {
    let mut store = empty_store();
    store.add(5, 77);
    assert_eq!(store.metadata(), &vec![ChunkMeta { min_key: 5, max_key: 4100, count: 1 }]);
    assert_eq!(store.search(0u64), BTreeSet::new());
    assert_eq!(store.search(0u64..=5u64), set_of(&[0, 77]));
    let mut zero = empty_store();
    zero.add(0, 0);
    zero.remove(0, 0);
    assert_eq!(zero.metadata()[0].count, 0);
    assert_eq!(zero.search(0u64), set_of(&[0]));
}

#[test]
fn writes_keep_the_files_equal_to_the_store() {
    let mut store = empty_store();
    let mut index: Vec<u8> = Vec::new();
    let mut metadata: Vec<u8> = Vec::new();
    for (key, offset) in [(10u64, 1u64), (11, 2), (90_000, 3), (10, 4), (5, 5)] {
        let writes = store.add(key, offset);
        apply_all(&mut index, &mut metadata, &writes);
        assert_eq!(&index, store.index_bytes());
        assert_eq!(metadata, store.metadata_bytes());
    }
    let writes = store.remove(10, 1);
    apply_all(&mut index, &mut metadata, &writes);
    assert_eq!(&index, store.index_bytes());
    assert_eq!(metadata, store.metadata_bytes());
    assert_eq!(index.len() % 65536, 0);
    assert_eq!(metadata.len(), 18 * store.metadata().len());
}

#[test]
fn reopened_store_is_the_same_store() {
    let mut store = empty_store();
    for (key, offset) in [(10u64, 1u64), (11, 2), (90_000, 3), (10, 4)] {
        store.add(key, offset);
    }
    store.remove(11, 2);
    let again =
        Indexing::load_index(Some(store.index_bytes().clone()), Some(store.metadata_bytes()))
            .unwrap();
    assert_eq!(again.metadata(), store.metadata());
    assert_eq!(again.index_bytes(), store.index_bytes());
    assert!(!again.is_dirty());
    for q in [0u64, 10, 11, 90_000] {
        assert_eq!(again.search(q), store.search(q));
    }
    assert_eq!(again.search(0u64..100_000u64), store.search(0u64..100_000u64));
    assert_eq!(again.search(0u64..100_000u64), set_of(&[0, 1, 3, 4]));
}

#[test]
fn open_fails_on_missing_and_malformed_files() {
    assert_eq!(Indexing::load_index(None, None).err(), Some(IndexError::Missing));
    assert_eq!(
        Indexing::load_index(Some(Vec::new()), None).err(),
        Some(IndexError::Inconsistent)
    );
    assert_eq!(
        Indexing::load_index(None, Some(Vec::new())).err(),
        Some(IndexError::Inconsistent)
    );
    assert_eq!(
        Indexing::load_index(Some(Vec::new()), Some(vec![0; 17])).err(),
        Some(IndexError::Malformed)
    );
    let mut record = vec![0u8; 18];
    record[15] = 9;
    record[17] = 1;
    let mut chunk = vec![0u8; 65536];
    assert!(Indexing::load_index(Some(chunk.clone()), Some(record.clone())).is_ok());
    assert_eq!(
        Indexing::load_index(Some(Vec::new()), Some(record.clone())).err(),
        Some(IndexError::Malformed)
    );
    assert_eq!(
        Indexing::load_index(Some(vec![0; 65535]), Some(record.clone())).err(),
        Some(IndexError::Malformed)
    );
    chunk[16] = 1;
    assert_eq!(
        Indexing::load_index(Some(chunk.clone()), Some(record.clone())).err(),
        Some(IndexError::Malformed)
    );
    chunk[16] = 0;
    let mut too_many = record.clone();
    too_many[16] = 0x10;
    too_many[17] = 0x01;
    assert_eq!(
        Indexing::load_index(Some(chunk.clone()), Some(too_many)).err(),
        Some(IndexError::Malformed)
    );
    let mut empty_range = record.clone();
    empty_range[7] = 10;
    assert_eq!(
        Indexing::load_index(Some(chunk), Some(empty_range)).err(),
        Some(IndexError::Malformed)
    );
}

#[test]
fn create_is_a_no_op_where_both_files_exist() {
    assert_eq!(Indexing::create_index(true, true), Ok(CreateAction::Nothing));
    assert_eq!(Indexing::create_index(false, false), Ok(CreateAction::CreateBoth));
    assert_eq!(Indexing::create_index(true, false), Err(IndexError::Inconsistent));
    assert_eq!(Indexing::create_index(false, true), Err(IndexError::Inconsistent));
}

#[test]
fn flush_follows_the_dirty_flag() {
    let mut store = empty_store();
    assert_eq!(store.flush_step(), FlushStep::Idle);
    store.add(1, 1);
    assert!(store.is_dirty());
    assert_eq!(store.flush_step(), FlushStep::Sync);
    store.flushed(false);
    assert_eq!(store.flush_step(), FlushStep::Sync);
    store.flushed(true);
    assert!(!store.is_dirty());
    assert_eq!(store.flush_step(), FlushStep::Idle);
    store.remove(900_000, 1);
    assert_eq!(store.flush_step(), FlushStep::Idle);
    store.remove(1, 1);
    assert_eq!(store.flush_step(), FlushStep::Sync);
    store.destroy();
    assert!(store.is_destroyed());
    assert_eq!(store.flush_step(), FlushStep::Stop);
}

#[test]
fn direct_insert_and_new_chunk() {
    let mut store = empty_store();
    store.create_index_chunk(100, 1);
    store.create_index_chunk(100, 2);
    assert_eq!(store.metadata().len(), 2);
    assert_eq!(store.accepting_chunk(100), Some(0));
    assert_eq!(store.accepting_chunk(99), None);
    store.insert_index(101, 3, 1);
    assert_eq!(store.metadata()[1].count, 2);
    assert_eq!(store.chunks_touching(&KeyQuery::Key(101)), vec![0, 1]);
    assert_eq!(store.lookup(&KeyQuery::Inclusive(100, 101)), set_of(&[1, 2, 3]));
}

#[test]
fn files_are_named_after_the_container() {
    assert_eq!(alba_core::indexing::index_path("/var/db", "people"), "/var/db/people.cindex");
    assert_eq!(alba_core::indexing::metadata_path("/var/db", "people"), "/var/db/people.cimeta");
    assert_eq!(alba_core::indexing::index_path("", ""), "/.cindex");
}
