//! A transient accumulator of put/delete operations targeting one atomic
//! backend transaction.
//!
//! The builder validates each operation as it is inserted (no empty key, no
//! oversize value) and, on submission, refuses a transaction with more
//! operations than the backend accepts atomically — before any backend work.

use vstd::prelude::*;

use crate::errors::DynamoDbContextError;
use crate::MAX_TRANSACT_WRITE_ITEM_SIZE;
use crate::MAX_VALUE_BYTES;

verus! {

/// One operation of an atomic backend transaction.
#[derive(Debug, Clone, PartialEq, Eq)]
pub enum TransactOperation {
    /// Remove the record of a key.
    Delete {
        /// The full key to remove.
        key: Vec<u8>,
    },
    /// Store a value under a key.
    Put {
        /// The full key to write.
        key: Vec<u8>,
        /// The value to store.
        value: Vec<u8>,
    },
}

/// The key an operation touches.
pub open spec fn transact_op_key(op: TransactOperation) -> Seq<u8> {
    match op {
        TransactOperation::Delete { key } => key@,
        TransactOperation::Put { key, .. } => key@,
    }
}

/// Whether one operation is acceptable to the backend.
pub open spec fn transact_op_wf(op: TransactOperation) -> bool {
    match op {
        TransactOperation::Delete { key } => key@.len() > 0,
        TransactOperation::Put { key, value } => key@.len() > 0 && value@.len() <= MAX_VALUE_BYTES,
    }
}

/// Whether every operation of a transaction is acceptable.
pub open spec fn transact_ops_wf(ops: Seq<TransactOperation>) -> bool {
    forall|i: int| 0 <= i < ops.len() ==> transact_op_wf(#[trigger] ops[i])
}

/// Whether no two operations of a transaction touch the same key — the
/// backend rejects such a transaction.
pub open spec fn transact_ops_distinct(ops: Seq<TransactOperation>) -> bool {
    forall|i: int, j: int|
        0 <= i < j < ops.len() ==> transact_op_key(#[trigger] ops[i]) != transact_op_key(
            #[trigger] ops[j],
        )
}

/// A transient accumulator of operations for one atomic transaction.
#[derive(Debug)]
pub struct TransactionBuilder {
    /// The accumulated operations, in insertion order.
    pub transacts: Vec<TransactOperation>,
}

impl Default for TransactionBuilder {
    /// An empty builder.
    fn default() -> (r: Self)
        ensures
            r.transacts@.len() == 0,
    {
        TransactionBuilder { transacts: Vec::new() }
    }
}

impl TransactionBuilder {
    /// An empty builder.
    pub fn new() -> (r: Self)
        ensures
            r.transacts@.len() == 0,
    {
        TransactionBuilder { transacts: Vec::new() }
    }

    /// Accumulates the deletion of `key`; an empty key is refused, as the
    /// backend forbids zero-length binary key attributes.
    pub fn insert_delete_request(&mut self, key: Vec<u8>) -> (r: Result<(), DynamoDbContextError>)
        ensures
            match r {
                Ok(_) => key@.len() > 0 && final(self).transacts@ == old(self).transacts@.push(
                    (TransactOperation::Delete { key }),
                ),
                Err(e) => key@.len() == 0 && e is ZeroLengthKey && *final(self) == *old(self),
            },
    {
        if key.len() == 0 {
            return Err(DynamoDbContextError::ZeroLengthKey);
        }
        self.transacts.push(TransactOperation::Delete { key });
        Ok(())
    }

    /// Accumulates a put of `value` under `key`; an empty key or a value
    /// over the backend's per-value ceiling is refused.
    pub fn insert_put_request(&mut self, key: Vec<u8>, value: Vec<u8>) -> (r: Result<
        (),
        DynamoDbContextError,
    >)
        ensures
            match r {
                Ok(_) => key@.len() > 0 && value@.len() <= MAX_VALUE_BYTES
                    && final(self).transacts@ == old(self).transacts@.push(
                    (TransactOperation::Put { key, value }),
                ),
                Err(e) => *final(self) == *old(self) && (if key@.len() == 0 {
                    e is ZeroLengthKey
                } else {
                    value@.len() > MAX_VALUE_BYTES && e is ValueLengthTooLarge
                }),
            },
    {
        if key.len() == 0 {
            return Err(DynamoDbContextError::ZeroLengthKey);
        }
        if value.len() > MAX_VALUE_BYTES {
            return Err(DynamoDbContextError::ValueLengthTooLarge);
        }
        self.transacts.push(TransactOperation::Put { key, value });
        Ok(())
    }

    /// Closes the builder: the accumulated operations, ready to submit in
    /// one atomic transaction, or the size error when they exceed what the
    /// backend accepts atomically (checked before any backend work).
    pub fn into_operations(self) -> (r: Result<Vec<TransactOperation>, DynamoDbContextError>)
        ensures
            match r {
                Ok(ops) => self.transacts@.len() <= MAX_TRANSACT_WRITE_ITEM_SIZE && ops
                    == self.transacts,
                Err(e) => e is TransactUpperLimitSize && self.transacts@.len()
                    > MAX_TRANSACT_WRITE_ITEM_SIZE,
            },
    {
        if self.transacts.len() > MAX_TRANSACT_WRITE_ITEM_SIZE {
            return Err(DynamoDbContextError::TransactUpperLimitSize);
        }
        Ok(self.transacts)
    }
}

} // verus!
