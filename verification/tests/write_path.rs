//! End-to-end scenarios of the write path against the in-memory backend.

use dynamo_db::batch::Batch;
use dynamo_db::batch::DynamoDbBatch;
use dynamo_db::codec::deserialize_batch;
use dynamo_db::errors::DynamoDbContextError;
use dynamo_db::journal::journal_entry_key;
use dynamo_db::journal::journal_header_key;
use dynamo_db::journal::JournalHeader;
use dynamo_db::store::MemoryStore;
use dynamo_db::transaction::TransactOperation;
use dynamo_db::JOURNAL_TAG;

fn key(base: &[u8], suffix: &[u8]) -> Vec<u8> {
    let mut k = base.to_vec();
    k.push(0x10);
    k.extend_from_slice(suffix);
    k
}

#[test]
fn fast_path_two_puts() {
    // base_key = [0x10]; two puts commit in one transaction
    let base: Vec<u8> = vec![0x10];
    let mut store = MemoryStore::new();
    let mut batch = Batch::new();
    batch.put_key_value(key(&base, b"a"), b"1".to_vec());
    batch.put_key_value(key(&base, b"b"), b"2".to_vec());
    store.write_batch(batch, &base).unwrap();
    assert_eq!(store.read_key_bytes(&key(&base, b"a")).unwrap(), Some(b"1".to_vec()));
    assert_eq!(store.read_key_bytes(&key(&base, b"b")).unwrap(), Some(b"2".to_vec()));
}

#[test]
fn overwrite_collapse() {
    // put k 1; put k 2; delete k; put k 3 -> single insertion ("k", "3")
    let base: Vec<u8> = vec![0x10];
    let k = key(&base, b"k");
    let mut batch = Batch::new();
    batch.put_key_value(k.clone(), b"1".to_vec());
    batch.put_key_value(k.clone(), b"2".to_vec());
    batch.delete_key(k.clone());
    batch.put_key_value(k.clone(), b"3".to_vec());
    let expansions: Vec<Vec<Vec<u8>>> = Vec::new();
    let normalized = DynamoDbBatch::from_batch(&batch, &expansions);
    assert_eq!(normalized.0.deletions.len(), 0);
    assert_eq!(normalized.0.insertions.len(), 1);
    assert_eq!(normalized.0.insertions[0].0, k);
    assert_eq!(normalized.0.insertions[0].1, b"3".to_vec());

    let mut store = MemoryStore::new();
    store.write_batch(batch, &base).unwrap();
    assert_eq!(store.read_key_bytes(&k).unwrap(), Some(b"3".to_vec()));
}

#[test]
fn prefix_delete() {
    let base: Vec<u8> = vec![0x10];
    let mut store = MemoryStore::new();
    let mut pre = Batch::new();
    pre.put_key_value(key(&base, b"p/a"), b"1".to_vec());
    pre.put_key_value(key(&base, b"p/b"), b"2".to_vec());
    pre.put_key_value(key(&base, b"q/a"), b"3".to_vec());
    store.write_batch(pre, &base).unwrap();

    let mut batch = Batch::new();
    batch.delete_key_prefix(key(&base, b"p/"));
    batch.put_key_value(key(&base, b"p/c"), b"x".to_vec());
    store.write_batch(batch, &base).unwrap();

    assert_eq!(store.read_key_bytes(&key(&base, b"p/a")).unwrap(), None);
    assert_eq!(store.read_key_bytes(&key(&base, b"p/b")).unwrap(), None);
    assert_eq!(store.read_key_bytes(&key(&base, b"p/c")).unwrap(), Some(b"x".to_vec()));
    assert_eq!(store.read_key_bytes(&key(&base, b"q/a")).unwrap(), Some(b"3".to_vec()));
}

fn big_batch(base: &[u8]) -> Batch {
    let mut batch = Batch::new();
    for i in 0..250u32 {
        let mut k = base.to_vec();
        k.push(0x10);
        k.extend_from_slice(&i.to_be_bytes());
        batch.put_key_value(k, vec![0xabu8; 1024]);
    }
    batch
}

#[test]
fn journaled_path_drains_fully() {
    // 250 puts of 1 KiB: chunking yields ceil(250 / 98) = 3 blocks
    let base: Vec<u8> = vec![0x10];
    let batch = big_batch(&base);
    let expansions: Vec<Vec<Vec<u8>>> = Vec::new();
    let normalized = DynamoDbBatch::from_batch(&batch, &expansions);
    let blocks = normalized.plan_blocks();
    // greedy packing: two full blocks of 98 operations, then the remainder
    assert_eq!(blocks.len(), 3);
    assert_eq!(blocks[0].0.insertions.len(), 98);
    assert_eq!(blocks[1].0.insertions.len(), 98);
    assert_eq!(blocks[2].0.insertions.len(), 54);

    let mut store = MemoryStore::new();
    store.write_batch(batch, &base).unwrap();
    for i in 0..250u32 {
        let mut k = base.clone();
        k.push(0x10);
        k.extend_from_slice(&i.to_be_bytes());
        assert_eq!(store.read_key_bytes(&k).unwrap(), Some(vec![0xabu8; 1024]));
    }
    // no journal keys remain under base || JOURNAL_TAG
    let mut journal_prefix = base.clone();
    journal_prefix.push(JOURNAL_TAG);
    let keys = store.find_keys_by_prefix(&journal_prefix).unwrap();
    assert_eq!(keys.len(), 0);
}

#[test]
fn crash_mid_replay_then_recovery() {
    // arm the journal, replay exactly one step by hand (the crash point),
    // then recover; the final state equals the uninterrupted run
    let base: Vec<u8> = vec![0x10];
    let batch = big_batch(&base);
    let expansions: Vec<Vec<Vec<u8>>> = Vec::new();
    let normalized = DynamoDbBatch::from_batch(&batch, &expansions);

    let mut store = MemoryStore::new();
    let header = normalized.write_journal(&mut store, &base).unwrap();
    let n = header.block_count;
    assert!(n >= 3);

    // one replay transaction: delete entry n-1, apply its block, header := n-1
    let entry_key = journal_entry_key(&base, n - 1);
    let bytes = store.read_key_bytes(&entry_key).unwrap().unwrap();
    let entry = deserialize_batch(&bytes).unwrap();
    let mut ops: Vec<TransactOperation> = Vec::new();
    ops.push(TransactOperation::Delete { key: entry_key.clone() });
    for k in entry.0.deletions {
        ops.push(TransactOperation::Delete { key: k });
    }
    for (k, v) in entry.0.insertions {
        ops.push(TransactOperation::Put { key: k, value: v });
    }
    let new_header = JournalHeader { block_count: n - 1 };
    ops.push(TransactOperation::Put {
        key: journal_header_key(&base),
        value: new_header.encode(),
    });
    store.transact_write(ops);
    assert_eq!(store.read_key_bytes(&entry_key).unwrap(), None);

    // restart: recovery completes the drain
    store.clear_journal(&base).unwrap();
    for i in 0..250u32 {
        let mut k = base.clone();
        k.push(0x10);
        k.extend_from_slice(&i.to_be_bytes());
        assert_eq!(store.read_key_bytes(&k).unwrap(), Some(vec![0xabu8; 1024]));
    }
    let mut journal_prefix = base.clone();
    journal_prefix.push(JOURNAL_TAG);
    assert_eq!(store.find_keys_by_prefix(&journal_prefix).unwrap().len(), 0);
}

#[test]
fn crash_before_header_leaves_no_effect() {
    // blocks written but no header: recovery is a no-op on user keys
    let base: Vec<u8> = vec![0x10];
    let mut store = MemoryStore::new();
    // simulate: a block entry orphaned by a crash before the header write
    let entry = DynamoDbBatch::from_batch(&Batch::new(), &Vec::new());
    let payload = dynamo_db::codec::serialize_batch(&entry).unwrap();
    store
        .write_single_key_value(journal_entry_key(&base, 0), payload)
        .unwrap();
    store.clear_journal(&base).unwrap();
    assert_eq!(store.read_key_bytes(&key(&base, b"a")).unwrap(), None);
}

#[test]
fn clear_journal_on_clean_region_is_noop_twice() {
    let base: Vec<u8> = vec![0x10];
    let mut store = MemoryStore::new();
    let mut batch = Batch::new();
    batch.put_key_value(key(&base, b"a"), b"1".to_vec());
    store.write_batch(batch, &base).unwrap();
    store.clear_journal(&base).unwrap();
    store.clear_journal(&base).unwrap();
    assert_eq!(store.read_key_bytes(&key(&base, b"a")).unwrap(), Some(b"1".to_vec()));
}

#[test]
fn recovery_fails_on_missing_entry() {
    // a header pointing at a missing block entry is storage corruption
    let base: Vec<u8> = vec![0x10];
    let mut store = MemoryStore::new();
    let header = JournalHeader { block_count: 1 };
    store
        .write_single_key_value(journal_header_key(&base), header.encode())
        .unwrap();
    let r = store.clear_journal(&base);
    assert_eq!(r, Err(DynamoDbContextError::DatabaseRecoveryFailed));
}

#[test]
fn oversize_value_rejected_without_backend_work() {
    let base: Vec<u8> = vec![0x10];
    let mut store = MemoryStore::new();
    let mut batch = Batch::new();
    batch.put_key_value(key(&base, b"k"), vec![0u8; 500_000]);
    let r = store.write_batch(batch, &base);
    assert_eq!(r, Err(DynamoDbContextError::ValueLengthTooLarge));
    assert_eq!(store.read_key_bytes(&key(&base, b"k")).unwrap(), None);
}

#[test]
fn round_trip_and_delete() {
    let base: Vec<u8> = vec![0x10];
    let mut store = MemoryStore::new();
    let k = key(&base, b"kv");
    let mut b1 = Batch::new();
    b1.put_key_value(k.clone(), b"v".to_vec());
    store.write_batch(b1, &base).unwrap();
    assert_eq!(store.read_key_bytes(&k).unwrap(), Some(b"v".to_vec()));
    let mut b2 = Batch::new();
    b2.delete_key(k.clone());
    store.write_batch(b2, &base).unwrap();
    assert_eq!(store.read_key_bytes(&k).unwrap(), None);
}

#[test]
fn prefix_scan_is_complete_and_stripped() {
    let base: Vec<u8> = vec![0x10];
    let mut store = MemoryStore::new();
    let mut batch = Batch::new();
    batch.put_key_value(key(&base, b"s/b"), b"2".to_vec());
    batch.put_key_value(key(&base, b"t/c"), b"3".to_vec());
    batch.put_key_value(key(&base, b"s/a"), b"1".to_vec());
    store.write_batch(batch, &base).unwrap();

    // results come back complete and in ascending key order, no sorting here
    let prefix = key(&base, b"s/");
    let keys = store.find_keys_by_prefix(&prefix).unwrap();
    let mut found: Vec<Vec<u8>> = Vec::new();
    for i in 0..keys.len() {
        found.push(keys.get(i).unwrap().to_vec());
    }
    assert_eq!(found, vec![b"a".to_vec(), b"b".to_vec()]);

    let kvs = store.find_key_values_by_prefix(&prefix).unwrap();
    let mut pairs: Vec<(Vec<u8>, Vec<u8>)> = Vec::new();
    for i in 0..kvs.len() {
        let (k, v) = kvs.get(i).unwrap();
        pairs.push((k.to_vec(), v.to_vec()));
    }
    assert_eq!(
        pairs,
        vec![(b"a".to_vec(), b"1".to_vec()), (b"b".to_vec(), b"2".to_vec())]
    );
}

#[test]
fn multi_key_read_keeps_order() {
    let base: Vec<u8> = vec![0x10];
    let mut store = MemoryStore::new();
    let mut batch = Batch::new();
    batch.put_key_value(key(&base, b"m1"), b"x".to_vec());
    batch.put_key_value(key(&base, b"m3"), b"z".to_vec());
    store.write_batch(batch, &base).unwrap();
    let results = store
        .read_multi_key_bytes(vec![key(&base, b"m1"), key(&base, b"m2"), key(&base, b"m3")])
        .unwrap();
    assert_eq!(results, vec![Some(b"x".to_vec()), None, Some(b"z".to_vec())]);
}

#[test]
fn crash_before_any_drain_then_recovery() {
    // the header is written but no block was drained: recovery applies the
    // full batch
    let base: Vec<u8> = vec![0x10];
    let batch = big_batch(&base);
    let expansions: Vec<Vec<Vec<u8>>> = Vec::new();
    let normalized = DynamoDbBatch::from_batch(&batch, &expansions);

    let mut store = MemoryStore::new();
    let header = normalized.write_journal(&mut store, &base).unwrap();
    assert!(header.block_count >= 3);
    assert!(store
        .read_key_bytes(&journal_header_key(&base))
        .unwrap()
        .is_some());

    store.clear_journal(&base).unwrap();
    for i in 0..250u32 {
        let mut k = base.clone();
        k.push(0x10);
        k.extend_from_slice(&i.to_be_bytes());
        assert_eq!(store.read_key_bytes(&k).unwrap(), Some(vec![0xabu8; 1024]));
    }
    assert_eq!(store.read_key_bytes(&journal_header_key(&base)).unwrap(), None);
}
