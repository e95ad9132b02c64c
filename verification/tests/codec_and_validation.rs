//! Codec exactness, journal keys, validation and error reporting.

use dynamo_db::batch::bytes_eq;
use dynamo_db::batch::is_prefix;
use dynamo_db::batch::Batch;
use dynamo_db::batch::DynamoDbBatch;
use dynamo_db::batch::SimpleUnorderedBatch;
use dynamo_db::codec::deserialize_batch;
use dynamo_db::codec::serialize_batch;
use dynamo_db::errors::DynamoDbContextError;
use dynamo_db::journal::journal_entry_key;
use dynamo_db::journal::journal_header_key;
use dynamo_db::journal::JournalHeader;
use dynamo_db::record::build_key;
use dynamo_db::record::build_key_value;
use dynamo_db::record::extract_key;
use dynamo_db::record::extract_key_value_owned;
use dynamo_db::record::extract_value;
use dynamo_db::record::AttrValue;
use dynamo_db::record::AttributeMap;
use dynamo_db::table::InvalidTableName;
use dynamo_db::table::TableName;
use dynamo_db::table::TableStatus;
use dynamo_db::transaction::TransactionBuilder;
use dynamo_db::MAX_VALUE_BYTES;

#[test]
fn block_payload_encoding_is_the_codec_encoding() {
    let b = DynamoDbBatch(SimpleUnorderedBatch {
        deletions: vec![vec![1u8, 2u8]],
        insertions: vec![(vec![3u8], vec![4u8, 5u8])],
    });
    let bytes = serialize_batch(&b).unwrap();
    // length-prefixed lists: [1][2,1,2] then [1][(1,3),(2,4,5)]
    assert_eq!(bytes, vec![1u8, 2, 1, 2, 1, 1, 3, 2, 4, 5]);
    let same = bcs::to_bytes(&(vec![vec![1u8, 2u8]], vec![(vec![3u8], vec![4u8, 5u8])])).unwrap();
    assert_eq!(bytes, same);
    let round = deserialize_batch(&bytes).unwrap();
    assert_eq!(round.0.deletions, vec![vec![1u8, 2u8]]);
    assert_eq!(round.0.insertions, vec![(vec![3u8], vec![4u8, 5u8])]);
}

#[test]
fn deserialize_rejects_trailing_bytes() {
    let b = DynamoDbBatch(SimpleUnorderedBatch { deletions: vec![], insertions: vec![] });
    let mut bytes = serialize_batch(&b).unwrap();
    bytes.push(0);
    assert_eq!(deserialize_batch(&bytes), Err(DynamoDbContextError::BcsError));
}

#[test]
fn header_encoding_is_stable_little_endian() {
    let h = JournalHeader { block_count: 5 };
    let bytes = h.encode();
    assert_eq!(bytes, vec![5u8, 0, 0, 0]);
    assert_eq!(bytes, bcs::to_bytes(&5u32).unwrap());
    assert_eq!(JournalHeader::decode(&bytes).unwrap(), h);
    assert_eq!(
        JournalHeader::decode(&[1u8, 2u8]),
        Err(DynamoDbContextError::BcsError)
    );
}

#[test]
fn journal_keys_have_tag_and_big_endian_position() {
    let base = vec![7u8];
    assert_eq!(journal_header_key(&base), vec![7u8, 0, 1]);
    assert_eq!(journal_entry_key(&base, 258), vec![7u8, 0, 2, 0, 0, 1, 2]);
}

#[test]
fn transaction_builder_validates() {
    let mut tb = TransactionBuilder::new();
    assert_eq!(
        tb.insert_delete_request(vec![]),
        Err(DynamoDbContextError::ZeroLengthKey)
    );
    assert_eq!(
        tb.insert_put_request(vec![], vec![1]),
        Err(DynamoDbContextError::ZeroLengthKey)
    );
    assert_eq!(
        tb.insert_put_request(vec![1], vec![0u8; MAX_VALUE_BYTES + 1]),
        Err(DynamoDbContextError::ValueLengthTooLarge)
    );
    tb.insert_put_request(vec![1], vec![2]).unwrap();
    let ops = tb.into_operations().unwrap();
    assert_eq!(ops.len(), 1);

    let mut big = TransactionBuilder::default();
    for i in 0..101u32 {
        big.insert_delete_request(i.to_be_bytes().to_vec()).unwrap();
    }
    assert_eq!(
        big.into_operations(),
        Err(DynamoDbContextError::TransactUpperLimitSize)
    );
}

#[test]
fn batch_validation_reports_first_error() {
    let mut batch = Batch::new();
    batch.put_key_value(vec![1], vec![2]);
    batch.delete_key_prefix(vec![]);
    batch.delete_key(vec![]);
    assert_eq!(batch.validate(), Err(DynamoDbContextError::ZeroLengthKeyPrefix));

    let mut store = dynamo_db::store::MemoryStore::new();
    assert_eq!(
        store.write_batch(batch, &[9]),
        Err(DynamoDbContextError::ZeroLengthKeyPrefix)
    );
    assert_eq!(
        store.find_keys_by_prefix(&[]),
        Err(DynamoDbContextError::ZeroLengthKeyPrefix)
    );
}

#[test]
fn record_extractors() {
    let rec = build_key_value(vec![9u8, 1, 2], vec![3u8, 4]);
    assert_eq!(extract_key(1, &rec).unwrap(), &[1u8, 2][..]);
    assert_eq!(extract_value(&rec).unwrap(), &[3u8, 4][..]);
    let mut rec2 = rec.clone();
    let (k, v) = extract_key_value_owned(1, &mut rec2).unwrap();
    assert_eq!(k, vec![1u8, 2]);
    assert_eq!(v, vec![3u8, 4]);

    let keyed = build_key(vec![9u8]);
    assert_eq!(extract_value(&keyed), Err(DynamoDbContextError::MissingValue));
    let empty = AttributeMap { partition: None, key: None, value: None };
    assert_eq!(extract_key(0, &empty), Err(DynamoDbContextError::MissingKey));
    let wrong = AttributeMap {
        partition: None,
        key: Some(AttrValue::S),
        value: Some(AttrValue::Bool),
    };
    assert_eq!(
        extract_key(0, &wrong),
        Err(DynamoDbContextError::WrongKeyType("a string".to_string()))
    );
    assert_eq!(
        extract_value(&wrong),
        Err(DynamoDbContextError::WrongValueType("a boolean".to_string()))
    );
}

#[test]
fn table_names_are_validated() {
    let t = TableName::from_str("a-valid.Table_1").unwrap();
    assert_eq!(t.as_ref(), "a-valid.Table_1");
    assert_eq!(TableName::from_str("ab"), Err(InvalidTableName::TooShort));
    let long = "x".repeat(256);
    assert_eq!(TableName::from_str(&long), Err(InvalidTableName::TooLong));
    assert_eq!(
        TableName::from_str("has space"),
        Err(InvalidTableName::InvalidCharacter)
    );
    assert_eq!(
        TableName::from_str("naïve"),
        Err(InvalidTableName::InvalidCharacter)
    );
    // length violations are reported before character violations
    assert_eq!(TableName::from_str("@"), Err(InvalidTableName::TooShort));
    assert_eq!(TableName::from_str("日本"), Err(InvalidTableName::TooShort));
    let long_bad = "@".repeat(300);
    assert_eq!(TableName::from_str(&long_bad), Err(InvalidTableName::TooLong));
}

#[test]
fn table_status_interpretation() {
    assert_eq!(TableStatus::interpret_creation(true), TableStatus::Existing);
    assert_eq!(TableStatus::interpret_creation(false), TableStatus::New);
}

#[test]
fn byte_helpers() {
    assert!(bytes_eq(&[1, 2], &[1, 2]));
    assert!(!bytes_eq(&[1, 2], &[1, 3]));
    assert!(is_prefix(&[1, 2], &[1, 2, 3]));
    assert!(!is_prefix(&[1, 2, 3], &[1, 2]));
    assert!(!is_prefix(&[2], &[1, 2]));
}
