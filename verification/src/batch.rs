//! User batches and their normalization into a flat, conflict-free list of
//! deletions and insertions.
//!
//! A batch is an ordered list of puts, deletes and prefix deletes; later
//! operations override earlier ones.  The backend has no range delete, so a
//! prefix delete is expanded into one explicit delete per live key under the
//! prefix; the live keys are looked up by the caller (one prefix scan per
//! prefix delete) and handed to [`DynamoDbBatch::from_batch`], which is a
//! pure function of the batch and those expansions.

use vstd::prelude::*;

use crate::errors::DynamoDbContextError;
use crate::MAX_TRANSACT_WRITE_ITEM_SIZE;
use crate::MAX_VALUE_BYTES;

verus! {

/// One user operation of a batch.
#[derive(Debug, Clone, PartialEq, Eq)]
pub enum WriteOperation {
    /// Remove one key.
    Delete {
        /// The key to remove.
        key: Vec<u8>,
    },
    /// Remove every key that starts with a prefix.
    DeletePrefix {
        /// The prefix to clear.
        key_prefix: Vec<u8>,
    },
    /// Store a value under a key.
    Put {
        /// The key to write.
        key: Vec<u8>,
        /// The value to store.
        value: Vec<u8>,
    },
}

/// An ordered list of user operations; later operations override earlier
/// ones.
#[derive(Debug, Clone, PartialEq, Eq)]
pub struct Batch {
    /// The operations, in user order.
    pub operations: Vec<WriteOperation>,
}

/// A flat list of deletions and insertions with no key named twice.
#[derive(Debug, Clone, PartialEq, Eq)]
pub struct SimpleUnorderedBatch {
    /// Keys to remove.
    pub deletions: Vec<Vec<u8>>,
    /// Key/value pairs to store.
    pub insertions: Vec<(Vec<u8>, Vec<u8>)>,
}

/// A normalized batch ready for the backend write path.
#[derive(Debug, Clone, PartialEq, Eq)]
pub struct DynamoDbBatch(pub SimpleUnorderedBatch);

impl Batch {
    /// An empty batch.
    pub fn new() -> (r: Batch)
        ensures
            r.operations@.len() == 0,
    {
        Batch { operations: Vec::new() }
    }

    /// Appends a put.
    pub fn put_key_value(&mut self, key: Vec<u8>, value: Vec<u8>)
        ensures
            final(self).operations@ == old(self).operations@.push(
                (WriteOperation::Put { key, value }),
            ),
    {
        self.operations.push(WriteOperation::Put { key, value });
    }

    /// Appends a delete.
    pub fn delete_key(&mut self, key: Vec<u8>)
        ensures
            final(self).operations@ == old(self).operations@.push((WriteOperation::Delete { key })),
    {
        self.operations.push(WriteOperation::Delete { key });
    }

    /// Appends a prefix delete.
    pub fn delete_key_prefix(&mut self, key_prefix: Vec<u8>)
        ensures
            final(self).operations@ == old(self).operations@.push(
                (WriteOperation::DeletePrefix { key_prefix }),
            ),
    {
        self.operations.push(WriteOperation::DeletePrefix { key_prefix });
    }
}

/// Whether one user operation is acceptable: no empty key or prefix, no
/// value above the backend's per-value ceiling.
pub open spec fn op_valid(op: WriteOperation) -> bool {
    match op {
        WriteOperation::Delete { key } => key@.len() > 0,
        WriteOperation::DeletePrefix { key_prefix } => key_prefix@.len() > 0,
        WriteOperation::Put { key, value } => key@.len() > 0 && value@.len() <= MAX_VALUE_BYTES,
    }
}

/// Whether every operation of a batch is acceptable.
pub open spec fn ops_valid(ops: Seq<WriteOperation>) -> bool {
    forall|i: int| 0 <= i < ops.len() ==> op_valid(#[trigger] ops[i])
}

/// The error that rejects one operation, if any.
pub open spec fn op_error(op: WriteOperation) -> Option<DynamoDbContextError> {
    match op {
        WriteOperation::Delete { key } => if key@.len() == 0 {
            Some(DynamoDbContextError::ZeroLengthKey)
        } else {
            None
        },
        WriteOperation::DeletePrefix { key_prefix } => if key_prefix@.len() == 0 {
            Some(DynamoDbContextError::ZeroLengthKeyPrefix)
        } else {
            None
        },
        WriteOperation::Put { key, value } => if key@.len() == 0 {
            Some(DynamoDbContextError::ZeroLengthKey)
        } else if value@.len() > MAX_VALUE_BYTES {
            Some(DynamoDbContextError::ValueLengthTooLarge)
        } else {
            None
        },
    }
}

/// The first error of a batch, if any: the error validation reports.
pub open spec fn first_op_error(ops: Seq<WriteOperation>) -> Option<DynamoDbContextError>
    decreases ops.len(),
{
    if ops.len() == 0 {
        None
    } else if op_error(ops[0]) is Some {
        op_error(ops[0])
    } else {
        first_op_error(ops.skip(1))
    }
}

/// A batch has no first error exactly when all its operations are valid.
pub proof fn lemma_first_op_error_none(ops: Seq<WriteOperation>)
    ensures
        first_op_error(ops) is None <==> ops_valid(ops),
    decreases ops.len(),
{
    if ops.len() > 0 {
        lemma_first_op_error_none(ops.skip(1));
        if first_op_error(ops) is None {
            assert(forall|i: int|
                0 <= i < ops.len() ==> op_valid(#[trigger] ops[i]) == (op_error(ops[i]) is None));
            assert(forall|i: int|
                1 <= i < ops.len() ==> #[trigger] ops[i] == ops.skip(1)[i - 1]);
        } else {
            if op_error(ops[0]) is Some {
                assert(!op_valid(ops[0]));
            } else {
                assert(!ops_valid(ops.skip(1)));
                let i = choose|i: int| 0 <= i < ops.skip(1).len() && !op_valid(
                    #[trigger] ops.skip(1)[i],
                );
                assert(ops.skip(1)[i] == ops[i + 1]);
            }
        }
    }
}

impl Batch {
    /// Checks every operation of the batch, before any backend work, and
    /// reports the first violation: an empty key or prefix, or an oversize
    /// value.
    pub fn validate(&self) -> (r: Result<(), DynamoDbContextError>)
        ensures
            match r {
                Ok(_) => ops_valid(self.operations@),
                Err(e) => first_op_error(self.operations@) == Some(e),
            },
    {
        let n = self.operations.len();
        proof {
            assert(self.operations@.skip(0) =~= self.operations@);
        }
        for j in 0..n
            invariant
                n == self.operations@.len(),
                first_op_error(self.operations@) == first_op_error(
                    self.operations@.skip(j as int),
                ),
        {
            proof {
                assert(self.operations@.skip(j as int)[0] == self.operations@[j as int]);
                assert(self.operations@.skip(j as int).skip(1) =~= self.operations@.skip(
                    j as int + 1,
                ));
            }
            match &self.operations[j] {
                WriteOperation::Delete { key } => {
                    if key.len() == 0 {
                        return Err(DynamoDbContextError::ZeroLengthKey);
                    }
                },
                WriteOperation::DeletePrefix { key_prefix } => {
                    if key_prefix.len() == 0 {
                        return Err(DynamoDbContextError::ZeroLengthKeyPrefix);
                    }
                },
                WriteOperation::Put { key, value } => {
                    if key.len() == 0 {
                        return Err(DynamoDbContextError::ZeroLengthKey);
                    }
                    if value.len() > MAX_VALUE_BYTES {
                        return Err(DynamoDbContextError::ValueLengthTooLarge);
                    }
                },
            }
        }
        proof {
            assert(self.operations@.skip(n as int) =~= Seq::<WriteOperation>::empty());
            lemma_first_op_error_none(self.operations@);
        }
        Ok(())
    }
}

/// Whether two byte strings are equal.
pub fn bytes_eq(a: &[u8], b: &[u8]) -> (r: bool)
    ensures
        r == (a@ == b@),
{
    if a.len() != b.len() {
        return false;
    }
    let n = a.len();
    for i in 0..n
        invariant
            n == a@.len(),
            n == b@.len(),
            forall|l: int| 0 <= l < i ==> a@[l] == b@[l],
    {
        if a[i] != b[i] {
            return false;
        }
    }
    proof {
        assert(a@ =~= b@);
    }
    true
}

/// Whether `p` is a prefix of `k`.
pub fn is_prefix(p: &[u8], k: &[u8]) -> (r: bool)
    ensures
        r == p@.is_prefix_of(k@),
{
    if p.len() > k.len() {
        return false;
    }
    let n = p.len();
    for i in 0..n
        invariant
            n == p@.len(),
            n <= k@.len(),
            forall|l: int| 0 <= l < i ==> p@[l] == k@[l],
    {
        if p[i] != k[i] {
            assert(!p@.is_prefix_of(k@)) by {
                assert(p@[i as int] != k@.subrange(0, p@.len() as int)[i as int]);
            }
            return false;
        }
    }
    proof {
        assert(p@ =~= k@.subrange(0, p@.len() as int));
    }
    true
}

/// Whether a list of keys contains `k`.
pub open spec fn keys_contain(keys: Seq<Vec<u8>>, k: Seq<u8>) -> bool {
    exists|i: int| 0 <= i < keys.len() && keys[i]@ == k
}

/// The value a flat insertion list binds to `k`, if any.
pub open spec fn insertions_lookup(ins: Seq<(Vec<u8>, Vec<u8>)>, k: Seq<u8>) -> Option<Seq<u8>>
    decreases ins.len(),
{
    if ins.len() == 0 {
        None
    } else if ins[0].0@ == k {
        Some(ins[0].1@)
    } else {
        insertions_lookup(ins.skip(1), k)
    }
}

/// Appending a pair binds its key only where the list did not bind it yet.
pub proof fn lemma_insertions_lookup_push(
    ins: Seq<(Vec<u8>, Vec<u8>)>,
    x: (Vec<u8>, Vec<u8>),
    k: Seq<u8>,
)
    ensures
        insertions_lookup(ins.push(x), k) == (if insertions_lookup(ins, k) is Some {
            insertions_lookup(ins, k)
        } else if x.0@ == k {
            Some(x.1@)
        } else {
            None::<Seq<u8>>
        }),
    decreases ins.len(),
{
    if ins.len() == 0 {
        assert(ins.push(x)[0] == x);
        assert(ins.push(x).skip(1) =~= Seq::<(Vec<u8>, Vec<u8>)>::empty());
        assert(insertions_lookup(Seq::<(Vec<u8>, Vec<u8>)>::empty(), k) is None);
    } else {
        assert(ins.push(x)[0] == ins[0]);
        assert(ins.push(x).skip(1) =~= ins.skip(1).push(x));
        lemma_insertions_lookup_push(ins.skip(1), x, k);
    }
}

/// A list binds a key exactly when some pair of it carries that key.
pub proof fn lemma_insertions_lookup_index(ins: Seq<(Vec<u8>, Vec<u8>)>, k: Seq<u8>)
    ensures
        insertions_lookup(ins, k) is Some <==> exists|l: int|
            0 <= l < ins.len() && (#[trigger] ins[l]).0@ == k,
    decreases ins.len(),
{
    if ins.len() > 0 {
        lemma_insertions_lookup_index(ins.skip(1), k);
        if ins[0].0@ == k {
        } else {
            if insertions_lookup(ins, k) is Some {
                let l = choose|l: int|
                    0 <= l < ins.skip(1).len() && (#[trigger] ins.skip(1)[l]).0@ == k;
                assert(ins[l + 1].0@ == k);
            }
            if exists|l: int| 0 <= l < ins.len() && (#[trigger] ins[l]).0@ == k {
                let l = choose|l: int| 0 <= l < ins.len() && (#[trigger] ins[l]).0@ == k;
                assert(l > 0);
                assert(ins.skip(1)[l - 1].0@ == k);
            }
        }
    }
}

/// In a list with distinct keys, a pair's key is bound to its value.
pub proof fn lemma_insertions_lookup_at(ins: Seq<(Vec<u8>, Vec<u8>)>, l: int)
    requires
        forall|i: int, j: int|
            0 <= i < j < ins.len() ==> (#[trigger] ins[i]).0@ != (#[trigger] ins[j]).0@,
        0 <= l < ins.len(),
    ensures
        insertions_lookup(ins, ins[l].0@) == Some(ins[l].1@),
    decreases ins.len(),
{
    if l == 0 {
    } else {
        assert(ins[0].0@ != ins[l].0@);
        assert(forall|i: int, j: int|
            0 <= i < j < ins.skip(1).len() ==> (#[trigger] ins.skip(1)[i]).0@ != (
            #[trigger] ins.skip(1)[j]).0@) by {
            assert(forall|i: int|
                0 <= i < ins.skip(1).len() ==> #[trigger] ins.skip(1)[i] == ins[i + 1]);
        }
        lemma_insertions_lookup_at(ins.skip(1), l - 1);
        assert(ins.skip(1)[l - 1] == ins[l]);
    }
}

/// Appending a key extends containment by exactly that key.
pub proof fn lemma_keys_contain_push(keys: Seq<Vec<u8>>, x: Vec<u8>, k: Seq<u8>)
    ensures
        keys_contain(keys.push(x), k) == (keys_contain(keys, k) || x@ == k),
{
    if keys_contain(keys, k) {
        let i = choose|i: int| 0 <= i < keys.len() && keys[i]@ == k;
        assert(keys.push(x)[i]@ == k);
    }
    if x@ == k {
        assert(keys.push(x)[keys.len() as int]@ == k);
    }
    if keys_contain(keys.push(x), k) {
        let i = choose|i: int| 0 <= i < keys.push(x).len() && keys.push(x)[i]@ == k;
        if i < keys.len() {
            assert(keys[i]@ == k);
            assert(keys_contain(keys, k));
        } else {
            assert(keys.push(x)[i] == x);
        }
    }
}

/// Well-formed deletion list: keys pairwise distinct and nonempty.
pub open spec fn dels_wf(dels: Seq<Vec<u8>>) -> bool {
    &&& forall|i: int, j: int| 0 <= i < j < dels.len() ==> #[trigger] dels[i]@ != #[trigger] dels[j]@
    &&& forall|i: int| 0 <= i < dels.len() ==> (#[trigger] dels[i]@).len() > 0
}

/// Well-formed insertion list: keys pairwise distinct and nonempty, values
/// within the backend's per-value ceiling.
pub open spec fn ins_wf(ins: Seq<(Vec<u8>, Vec<u8>)>) -> bool {
    &&& forall|i: int, j: int|
        0 <= i < j < ins.len() ==> (#[trigger] ins[i]).0@ != (#[trigger] ins[j]).0@
    &&& forall|i: int| 0 <= i < ins.len() ==> (#[trigger] ins[i]).0@.len() > 0
    &&& forall|i: int| 0 <= i < ins.len() ==> (#[trigger] ins[i]).1@.len() <= MAX_VALUE_BYTES
}

/// The outcome a flat batch assigns to one key: `None` when untouched,
/// `Some(None)` when deleted, `Some(Some(v))` when written with `v`.
pub open spec fn flat_outcome(
    dels: Seq<Vec<u8>>,
    ins: Seq<(Vec<u8>, Vec<u8>)>,
    k: Seq<u8>,
) -> Option<Option<Seq<u8>>> {
    match insertions_lookup(ins, k) {
        Some(v) => Some(Some(v)),
        None => if keys_contain(dels, k) {
            Some(None)
        } else {
            None
        },
    }
}

/// One step of normalization on the outcome of one key.  A prefix delete
/// turns a covered key into an explicit delete exactly when the key is in
/// the expansion (the keys live in the backend under that prefix); a covered
/// key outside the expansion needs no delete and loses any pending one.
pub open spec fn norm_step(
    cur: Option<Option<Seq<u8>>>,
    op: WriteOperation,
    exp: Seq<Vec<u8>>,
    k: Seq<u8>,
) -> Option<Option<Seq<u8>>> {
    match op {
        WriteOperation::Delete { key } => if key@ == k {
            Some(None)
        } else {
            cur
        },
        WriteOperation::Put { key, value } => if key@ == k {
            Some(Some(value@))
        } else {
            cur
        },
        WriteOperation::DeletePrefix { key_prefix } => if key_prefix@.is_prefix_of(k) {
            if keys_contain(exp, k) {
                Some(None)
            } else {
                None
            }
        } else {
            cur
        },
    }
}

/// The outcome normalization assigns to one key after all operations, given
/// the expansions of the prefix deletes in operation order.
pub open spec fn norm_outcome(
    ops: Seq<WriteOperation>,
    exps: Seq<Vec<Vec<u8>>>,
    cur: Option<Option<Seq<u8>>>,
    k: Seq<u8>,
) -> Option<Option<Seq<u8>>>
    decreases ops.len(),
{
    if ops.len() == 0 {
        cur
    } else if ops[0] is DeletePrefix {
        norm_outcome(ops.skip(1), exps.skip(1), norm_step(cur, ops[0], exps[0]@, k), k)
    } else {
        norm_outcome(ops.skip(1), exps, norm_step(cur, ops[0], Seq::<Vec<u8>>::empty(), k), k)
    }
}

/// Whether the expansions line up with the prefix deletes of the batch: one
/// expansion per prefix delete, in order, every expanded key under its
/// prefix.
pub open spec fn expansions_match(ops: Seq<WriteOperation>, exps: Seq<Vec<Vec<u8>>>) -> bool
    decreases ops.len(),
{
    if ops.len() == 0 {
        exps.len() == 0
    } else {
        match ops[0] {
            WriteOperation::DeletePrefix { key_prefix } => {
                &&& exps.len() > 0
                &&& forall|i: int|
                    0 <= i < exps[0]@.len() ==> key_prefix@.is_prefix_of(#[trigger] exps[0]@[i]@)
                &&& expansions_match(ops.skip(1), exps.skip(1))
            },
            _ => expansions_match(ops.skip(1), exps),
        }
    }
}

/// Removes `k` from a key list.
pub(crate) fn remove_key(v: &mut Vec<Vec<u8>>, k: &[u8])
    ensures
        forall|k2: Seq<u8>|
            #[trigger] keys_contain(final(v)@, k2) == (keys_contain(old(v)@, k2) && k2 != k@),
        dels_wf(old(v)@) ==> dels_wf(final(v)@),
        final(v)@.len() <= old(v)@.len(),
{
    let mut out: Vec<Vec<u8>> = Vec::new();
    let n = v.len();
    for i in 0..n
        invariant
            n == v@.len(),
            out@.len() <= i,
            forall|k2: Seq<u8>|
                #[trigger] keys_contain(out@, k2) == (keys_contain(v@.take(i as int), k2) && k2
                    != k@),
            dels_wf(v@) ==> dels_wf(out@),
    {
        let ghost out0 = out@;
        if !bytes_eq(v[i].as_slice(), k) {
            let x = v[i].clone();
            proof {
                assert(x@ == v@[i as int]@);
                if dels_wf(v@) && keys_contain(out0, x@) {
                    assert(keys_contain(v@.take(i as int), x@));
                    let l = choose|l: int|
                        0 <= l < v@.take(i as int).len() && v@.take(i as int)[l]@ == x@;
                    assert(v@[l]@ == v@[i as int]@);
                    assert(false);
                }
            }
            out.push(x);
            proof {
                assert forall|k2: Seq<u8>|
                    #[trigger] keys_contain(out@, k2) == (keys_contain(v@.take(i as int + 1), k2)
                        && k2 != k@) by {
                    lemma_keys_contain_push(out0, out@[out0.len() as int], k2);
                    lemma_keys_contain_push(v@.take(i as int), v@[i as int], k2);
                    assert(v@.take(i as int + 1) =~= v@.take(i as int).push(v@[i as int]));
                }
            }
        } else {
            proof {
                assert(v@[i as int]@ == k@);
                assert forall|k2: Seq<u8>|
                    #[trigger] keys_contain(out@, k2) == (keys_contain(v@.take(i as int + 1), k2)
                        && k2 != k@) by {
                    lemma_keys_contain_push(v@.take(i as int), v@[i as int], k2);
                    assert(v@.take(i as int + 1) =~= v@.take(i as int).push(v@[i as int]));
                }
            }
        }
    }
    proof {
        assert(v@.take(n as int) =~= v@);
    }
    *v = out;
}

/// Removes every key under `p` from a key list.
pub(crate) fn remove_keys_with_prefix(v: &mut Vec<Vec<u8>>, p: &[u8])
    ensures
        forall|k2: Seq<u8>|
            #[trigger] keys_contain(final(v)@, k2) == (keys_contain(old(v)@, k2)
                && !p@.is_prefix_of(k2)),
        dels_wf(old(v)@) ==> dels_wf(final(v)@),
        final(v)@.len() <= old(v)@.len(),
{
    let mut out: Vec<Vec<u8>> = Vec::new();
    let n = v.len();
    for i in 0..n
        invariant
            n == v@.len(),
            out@.len() <= i,
            forall|k2: Seq<u8>|
                #[trigger] keys_contain(out@, k2) == (keys_contain(v@.take(i as int), k2)
                    && !p@.is_prefix_of(k2)),
            dels_wf(v@) ==> dels_wf(out@),
    {
        let ghost out0 = out@;
        if !is_prefix(p, v[i].as_slice()) {
            let x = v[i].clone();
            proof {
                assert(x@ == v@[i as int]@);
                if dels_wf(v@) && keys_contain(out0, x@) {
                    assert(keys_contain(v@.take(i as int), x@));
                    let l = choose|l: int|
                        0 <= l < v@.take(i as int).len() && v@.take(i as int)[l]@ == x@;
                    assert(v@[l]@ == v@[i as int]@);
                    assert(false);
                }
            }
            out.push(x);
            proof {
                assert forall|k2: Seq<u8>|
                    #[trigger] keys_contain(out@, k2) == (keys_contain(v@.take(i as int + 1), k2)
                        && !p@.is_prefix_of(k2)) by {
                    lemma_keys_contain_push(out0, out@[out0.len() as int], k2);
                    lemma_keys_contain_push(v@.take(i as int), v@[i as int], k2);
                    assert(v@.take(i as int + 1) =~= v@.take(i as int).push(v@[i as int]));
                }
            }
        } else {
            proof {
                assert(p@.is_prefix_of(v@[i as int]@));
                assert forall|k2: Seq<u8>|
                    #[trigger] keys_contain(out@, k2) == (keys_contain(v@.take(i as int + 1), k2)
                        && !p@.is_prefix_of(k2)) by {
                    lemma_keys_contain_push(v@.take(i as int), v@[i as int], k2);
                    assert(v@.take(i as int + 1) =~= v@.take(i as int).push(v@[i as int]));
                }
            }
        }
    }
    proof {
        assert(v@.take(n as int) =~= v@);
    }
    *v = out;
}

/// Removes the pair keyed by `k` from an insertion list.
pub(crate) fn remove_insertion_key(v: &mut Vec<(Vec<u8>, Vec<u8>)>, k: &[u8])
    ensures
        forall|k2: Seq<u8>|
            #[trigger] insertions_lookup(final(v)@, k2) == (if k2 == k@ {
                None::<Seq<u8>>
            } else {
                insertions_lookup(old(v)@, k2)
            }),
        ins_wf(old(v)@) ==> ins_wf(final(v)@),
        final(v)@.len() <= old(v)@.len(),
{
    let mut out: Vec<(Vec<u8>, Vec<u8>)> = Vec::new();
    let n = v.len();
    for i in 0..n
        invariant
            n == v@.len(),
            out@.len() <= i,
            forall|k2: Seq<u8>|
                #[trigger] insertions_lookup(out@, k2) == (if k2 == k@ {
                    None::<Seq<u8>>
                } else {
                    insertions_lookup(v@.take(i as int), k2)
                }),
            ins_wf(v@) ==> ins_wf(out@),
            forall|l: int|
                0 <= l < out@.len() ==> insertions_lookup(out@, (#[trigger] out@[l]).0@) is Some,
    {
        proof {
            assert(v@.take(i as int + 1) =~= v@.take(i as int).push(v@[i as int]));
            assert forall|k2: Seq<u8>|
                #[trigger] insertions_lookup(v@.take(i as int + 1), k2) == (
                if insertions_lookup(v@.take(i as int), k2) is Some {
                    insertions_lookup(v@.take(i as int), k2)
                } else if v@[i as int].0@ == k2 {
                    Some(v@[i as int].1@)
                } else {
                    None::<Seq<u8>>
                }) by {
                lemma_insertions_lookup_push(v@.take(i as int), v@[i as int], k2);
            }
        }
        if !bytes_eq(v[i].0.as_slice(), k) {
            let x = (v[i].0.clone(), v[i].1.clone());
            proof {
                assert(x.0@ == v@[i as int].0@ && x.1@ == v@[i as int].1@);
                assert forall|k2: Seq<u8>| true implies #[trigger] insertions_lookup(
                    out@.push(x),
                    k2,
                ) == (if insertions_lookup(out@, k2) is Some {
                    insertions_lookup(out@, k2)
                } else if x.0@ == k2 {
                    Some(x.1@)
                } else {
                    None::<Seq<u8>>
                }) by {
                    lemma_insertions_lookup_push(out@, x, k2);
                }
                if ins_wf(v@) {
                    if insertions_lookup(out@, x.0@) is Some {
                        lemma_insertions_lookup_index(v@.take(i as int), x.0@);
                        let l = choose|l: int|
                            0 <= l < v@.take(i as int).len() && (#[trigger] v@.take(
                                i as int,
                            )[l]).0@ == x.0@;
                        assert(v@[l].0@ == v@[i as int].0@);
                        assert(false);
                    }
                    assert forall|i1: int, j1: int|
                        0 <= i1 < j1 < out@.push(x).len() implies (#[trigger] out@.push(
                        x,
                    )[i1]).0@ != (#[trigger] out@.push(x)[j1]).0@ by {
                        if j1 < out@.len() {
                        } else {
                            assert(out@.push(x)[j1] == x);
                            assert(insertions_lookup(out@, out@[i1].0@) is Some);
                            assert(out@.push(x)[i1] == out@[i1]);
                        }
                    }
                }
            }
            out.push(x);
        }
    }
    proof {
        assert(v@.take(n as int) =~= v@);
    }
    *v = out;
}

/// Whether a key list contains `k`.
pub(crate) fn contains_key(v: &Vec<Vec<u8>>, k: &[u8]) -> (r: bool)
    ensures
        r == keys_contain(v@, k@),
{
    let n = v.len();
    for i in 0..n
        invariant
            n == v@.len(),
            forall|l: int| 0 <= l < i ==> (#[trigger] v@[l])@ != k@,
    {
        if bytes_eq(v[i].as_slice(), k) {
            proof {
                assert(v@[i as int]@ == k@);
            }
            return true;
        }
    }
    false
}

/// Adds `key` to a deletion list unless it is already present.
pub(crate) fn insert_deletion(v: &mut Vec<Vec<u8>>, key: &Vec<u8>)
    ensures
        forall|k2: Seq<u8>|
            #[trigger] keys_contain(final(v)@, k2) == (keys_contain(old(v)@, k2) || k2 == key@),
        dels_wf(old(v)@) && key@.len() > 0 ==> dels_wf(final(v)@),
        final(v)@.len() <= old(v)@.len() + 1,
{
    if !contains_key(v, key.as_slice()) {
        let x = key.clone();
        let ghost v0 = v@;
        proof {
            assert(x@ == key@);
        }
        v.push(x);
        proof {
            assert forall|k2: Seq<u8>|
                #[trigger] keys_contain(v@, k2) == (keys_contain(v0, k2) || k2 == key@) by {
                lemma_keys_contain_push(v0, v@[v0.len() as int], k2);
            }
            if dels_wf(v0) && key@.len() > 0 {
                assert forall|i1: int, i2: int| 0 <= i1 < i2 < v@.len() implies (
                #[trigger] v@[i1])@ != (#[trigger] v@[i2])@ by {
                    if i2 == v0.len() {
                        assert(v@[i2]@ == key@);
                        if v@[i1]@ == key@ {
                            assert(v0[i1]@ == key@);
                            assert(keys_contain(v0, key@));
                        }
                    }
                }
                assert(dels_wf(v@));
            }
        }
    }
}

/// Binds `key` to `value` in an insertion list, replacing any present
/// binding of the same key.
pub(crate) fn upsert_insertion(v: &mut Vec<(Vec<u8>, Vec<u8>)>, key: &Vec<u8>, value: &Vec<u8>)
    ensures
        forall|k2: Seq<u8>|
            #[trigger] insertions_lookup(final(v)@, k2) == (if k2 == key@ {
                Some(value@)
            } else {
                insertions_lookup(old(v)@, k2)
            }),
        ins_wf(old(v)@) && key@.len() > 0 && value@.len() <= MAX_VALUE_BYTES ==> ins_wf(final(v)@),
        final(v)@.len() <= old(v)@.len() + 1,
{
    remove_insertion_key(v, key.as_slice());
    let x = (key.clone(), value.clone());
    let ghost v0 = v@;
    proof {
        assert(x.0@ == key@ && x.1@ == value@);
        assert(insertions_lookup(v0, key@) is None);
    }
    v.push(x);
    proof {
        assert forall|k2: Seq<u8>|
            #[trigger] insertions_lookup(v@, k2) == (if k2 == key@ {
                Some(value@)
            } else {
                insertions_lookup(v0, k2)
            }) by {
            lemma_insertions_lookup_push(v0, v@[v0.len() as int], k2);
        }
        if ins_wf(v0) && key@.len() > 0 && value@.len() <= MAX_VALUE_BYTES {
            assert forall|i1: int, i2: int| 0 <= i1 < i2 < v@.len() implies (
            #[trigger] v@[i1]).0@ != (#[trigger] v@[i2]).0@ by {
                if i2 == v0.len() {
                    assert(v@[i2].0@ == key@);
                    if v@[i1].0@ == key@ {
                        assert(v0[i1].0@ == key@);
                        lemma_insertions_lookup_index(v0, key@);
                    }
                }
            }
            assert(ins_wf(v@));
        }
    }
}

/// Removes every pair whose key is under `p` from an insertion list.
pub(crate) fn remove_insertions_with_prefix(v: &mut Vec<(Vec<u8>, Vec<u8>)>, p: &[u8])
    ensures
        forall|k2: Seq<u8>|
            #[trigger] insertions_lookup(final(v)@, k2) == (if p@.is_prefix_of(k2) {
                None::<Seq<u8>>
            } else {
                insertions_lookup(old(v)@, k2)
            }),
        ins_wf(old(v)@) ==> ins_wf(final(v)@),
        final(v)@.len() <= old(v)@.len(),
{
    let mut out: Vec<(Vec<u8>, Vec<u8>)> = Vec::new();
    let n = v.len();
    for i in 0..n
        invariant
            n == v@.len(),
            out@.len() <= i,
            forall|k2: Seq<u8>|
                #[trigger] insertions_lookup(out@, k2) == (if p@.is_prefix_of(k2) {
                    None::<Seq<u8>>
                } else {
                    insertions_lookup(v@.take(i as int), k2)
                }),
            ins_wf(v@) ==> ins_wf(out@),
    {
        let ghost out0 = out@;
        if !is_prefix(p, v[i].0.as_slice()) {
            let x = (v[i].0.clone(), v[i].1.clone());
            proof {
                assert(x.0@ == v@[i as int].0@ && x.1@ == v@[i as int].1@);
                if ins_wf(v@) && insertions_lookup(out0, x.0@) is Some {
                    lemma_insertions_lookup_index(v@.take(i as int), x.0@);
                    let l = choose|l: int|
                        0 <= l < v@.take(i as int).len() && (#[trigger] v@.take(i as int)[l]).0@
                            == x.0@;
                    assert(v@[l].0@ == v@[i as int].0@);
                    assert(false);
                }
            }
            out.push(x);
            proof {
                assert forall|k2: Seq<u8>|
                    #[trigger] insertions_lookup(out@, k2) == (if p@.is_prefix_of(k2) {
                        None::<Seq<u8>>
                    } else {
                        insertions_lookup(v@.take(i as int + 1), k2)
                    }) by {
                    lemma_insertions_lookup_push(out0, out@[out0.len() as int], k2);
                    lemma_insertions_lookup_push(v@.take(i as int), v@[i as int], k2);
                    assert(v@.take(i as int + 1) =~= v@.take(i as int).push(v@[i as int]));
                }
                if ins_wf(v@) && ins_wf(out0) {
                    assert forall|i1: int, i2: int| 0 <= i1 < i2 < out@.len() implies (
                    #[trigger] out@[i1]).0@ != (#[trigger] out@[i2]).0@ by {
                        if i2 == out0.len() {
                            if out@[i1].0@ == out@[i2].0@ {
                                assert(insertions_lookup(out0, out0[i1].0@) is Some) by {
                                    lemma_insertions_lookup_index(out0, out0[i1].0@);
                                }
                            }
                        }
                    }
                    assert(ins_wf(out@));
                }
            }
        } else {
            proof {
                assert(p@.is_prefix_of(v@[i as int].0@));
                assert forall|k2: Seq<u8>|
                    #[trigger] insertions_lookup(out@, k2) == (if p@.is_prefix_of(k2) {
                        None::<Seq<u8>>
                    } else {
                        insertions_lookup(v@.take(i as int + 1), k2)
                    }) by {
                    lemma_insertions_lookup_push(v@.take(i as int), v@[i as int], k2);
                    assert(v@.take(i as int + 1) =~= v@.take(i as int).push(v@[i as int]));
                }
            }
        }
    }
    proof {
        assert(v@.take(n as int) =~= v@);
    }
    *v = out;
}

impl DynamoDbBatch {
    /// The total number of operations to submit.
    pub fn len(&self) -> (r: usize)
        requires
            self.0.deletions@.len() + self.0.insertions@.len() <= usize::MAX,
        ensures
            r == self.0.deletions@.len() + self.0.insertions@.len(),
    {
        self.0.deletions.len() + self.0.insertions.len()
    }

    /// Whether the whole batch fits in one atomic backend transaction.
    pub fn is_fastpath_feasible(&self) -> (r: bool)
        requires
            self.0.deletions@.len() + self.0.insertions@.len() <= usize::MAX,
        ensures
            r == (self.0.deletions@.len() + self.0.insertions@.len()
                <= MAX_TRANSACT_WRITE_ITEM_SIZE),
    {
        self.len() <= MAX_TRANSACT_WRITE_ITEM_SIZE
    }

    /// Normalizes a user batch into a flat, conflict-free list of deletions
    /// and insertions: later operations override earlier ones, and each
    /// prefix delete becomes one explicit delete per expanded key.  The
    /// expansions are the live keys under each prefix, one list per prefix
    /// delete in operation order, as a prefix scan of the backend returns
    /// them.
    pub fn from_batch(batch: &Batch, expansions: &Vec<Vec<Vec<u8>>>) -> (r: DynamoDbBatch)
        requires
            ops_valid(batch.operations@),
            expansions_match(batch.operations@, expansions@),
        ensures
            dels_wf(r.0.deletions@),
            ins_wf(r.0.insertions@),
            forall|k: Seq<u8>|
                !(#[trigger] keys_contain(r.0.deletions@, k) && insertions_lookup(
                    r.0.insertions@,
                    k,
                ) is Some),
            forall|k: Seq<u8>|
                #[trigger] norm_outcome(
                    batch.operations@,
                    expansions@,
                    None::<Option<Seq<u8>>>,
                    k,
                ) == flat_outcome(r.0.deletions@, r.0.insertions@, k),
            (forall|j: int|
                0 <= j < batch.operations@.len() ==> !((#[trigger] batch.operations@[j])
                    is DeletePrefix)) ==> r.0.deletions@.len() + r.0.insertions@.len()
                <= batch.operations@.len(),
    {
        let mut deletions: Vec<Vec<u8>> = Vec::new();
        let mut insertions: Vec<(Vec<u8>, Vec<u8>)> = Vec::new();
        let mut e: usize = 0;
        let n = batch.operations.len();
        proof {
            assert(batch.operations@.skip(0) =~= batch.operations@);
            assert(expansions@.skip(0) =~= expansions@);
        }
        for j in 0..n
            invariant
                n == batch.operations@.len(),
                e <= expansions@.len(),
                ops_valid(batch.operations@),
                expansions_match(batch.operations@.skip(j as int), expansions@.skip(e as int)),
                dels_wf(deletions@),
                ins_wf(insertions@),
                (forall|j2: int|
                    0 <= j2 < batch.operations@.len() ==> !((#[trigger] batch.operations@[j2])
                        is DeletePrefix)) ==> deletions@.len() + insertions@.len() <= j,
                forall|k: Seq<u8>|
                    !(#[trigger] keys_contain(deletions@, k) && insertions_lookup(
                        insertions@,
                        k,
                    ) is Some),
                forall|k: Seq<u8>|
                    #[trigger] norm_outcome(
                        batch.operations@,
                        expansions@,
                        None::<Option<Seq<u8>>>,
                        k,
                    ) == norm_outcome(
                        batch.operations@.skip(j as int),
                        expansions@.skip(e as int),
                        flat_outcome(deletions@, insertions@, k),
                        k,
                    ),
        {
            let ghost ops = batch.operations@;
            let ghost dels0 = deletions@;
            let ghost ins0 = insertions@;
            let ghost e0 = e as int;
            proof {
                assert(ops.skip(j as int)[0] == ops[j as int]);
                assert(ops.skip(j as int).skip(1) =~= ops.skip(j as int + 1));
                assert(op_valid(ops[j as int]));
            }
            match &batch.operations[j] {
                WriteOperation::Delete { key } => {
                    remove_insertion_key(&mut insertions, key.as_slice());
                    insert_deletion(&mut deletions, key);
                    proof {
                        assert forall|k: Seq<u8>|
                            #[trigger] norm_outcome(
                                ops,
                                expansions@,
                                None::<Option<Seq<u8>>>,
                                k,
                            ) == norm_outcome(
                                ops.skip(j as int + 1),
                                expansions@.skip(e0),
                                flat_outcome(deletions@, insertions@, k),
                                k,
                            ) by {
                            assert(norm_outcome(ops, expansions@, None::<Option<Seq<u8>>>, k)
                                == norm_outcome(
                                ops.skip(j as int),
                                expansions@.skip(e0),
                                flat_outcome(dels0, ins0, k),
                                k,
                            ));
                            assert(flat_outcome(deletions@, insertions@, k) == norm_step(
                                flat_outcome(dels0, ins0, k),
                                ops[j as int],
                                Seq::<Vec<u8>>::empty(),
                                k,
                            ));
                        }
                    }
                },
                WriteOperation::Put { key, value } => {
                    remove_key(&mut deletions, key.as_slice());
                    upsert_insertion(&mut insertions, key, value);
                    proof {
                        assert forall|k: Seq<u8>|
                            #[trigger] norm_outcome(
                                ops,
                                expansions@,
                                None::<Option<Seq<u8>>>,
                                k,
                            ) == norm_outcome(
                                ops.skip(j as int + 1),
                                expansions@.skip(e0),
                                flat_outcome(deletions@, insertions@, k),
                                k,
                            ) by {
                            assert(norm_outcome(ops, expansions@, None::<Option<Seq<u8>>>, k)
                                == norm_outcome(
                                ops.skip(j as int),
                                expansions@.skip(e0),
                                flat_outcome(dels0, ins0, k),
                                k,
                            ));
                            assert(flat_outcome(deletions@, insertions@, k) == norm_step(
                                flat_outcome(dels0, ins0, k),
                                ops[j as int],
                                Seq::<Vec<u8>>::empty(),
                                k,
                            ));
                        }
                    }
                },
                WriteOperation::DeletePrefix { key_prefix } => {
                    proof {
                        assert(expansions@.skip(e0).len() > 0);
                        assert(expansions@.skip(e0)[0] == expansions@[e0]);
                        assert(expansions@.skip(e0).skip(1) =~= expansions@.skip(e0 + 1));
                        assert(forall|i: int|
                            0 <= i < expansions@[e0]@.len() ==> key_prefix@.is_prefix_of(
                                (#[trigger] expansions@[e0]@[i])@,
                            ));
                    }
                    remove_insertions_with_prefix(&mut insertions, key_prefix.as_slice());
                    remove_keys_with_prefix(&mut deletions, key_prefix.as_slice());
                    let ghost dmid = deletions@;
                    let m = expansions[e].len();
                    for t in 0..m
                        invariant
                            m == expansions@[e0]@.len(),
                            e0 < expansions@.len(),
                            e as int == e0,
                            key_prefix@.len() > 0,
                            forall|i: int|
                                0 <= i < expansions@[e0]@.len() ==> key_prefix@.is_prefix_of(
                                    (#[trigger] expansions@[e0]@[i])@,
                                ),
                            dels_wf(deletions@),
                            forall|k: Seq<u8>|
                                #[trigger] keys_contain(deletions@, k) == (keys_contain(dmid, k)
                                    || keys_contain(expansions@[e0]@.take(t as int), k)),
                    {
                        let ghost dcur = deletions@;
                        insert_deletion(&mut deletions, &expansions[e][t]);
                        proof {
                            assert(expansions@[e0]@[t as int]@.len() > 0);
                            assert forall|k: Seq<u8>|
                                #[trigger] keys_contain(deletions@, k) == (keys_contain(dmid, k)
                                    || keys_contain(
                                    expansions@[e0]@.take(t as int + 1),
                                    k,
                                )) by {
                                lemma_keys_contain_push(
                                    expansions@[e0]@.take(t as int),
                                    expansions@[e0]@[t as int],
                                    k,
                                );
                                assert(expansions@[e0]@.take(t as int + 1) =~= expansions@[e0]@.take(
                                    t as int,
                                ).push(expansions@[e0]@[t as int]));
                            }
                        }
                    }
                    let e_bound = expansions.len();
                    assert(e < e_bound);
                    e = e + 1;
                    proof {
                        assert(expansions@[e0]@.take(m as int) =~= expansions@[e0]@);
                        assert forall|k: Seq<u8>|
                            !(#[trigger] keys_contain(deletions@, k) && insertions_lookup(
                                insertions@,
                                k,
                            ) is Some) by {
                            if keys_contain(deletions@, k) {
                                if keys_contain(expansions@[e0]@, k) {
                                    let i = choose|i: int|
                                        0 <= i < expansions@[e0]@.len() && (
                                        #[trigger] expansions@[e0]@[i])@ == k;
                                    assert(key_prefix@.is_prefix_of(k));
                                }
                            }
                        }
                        assert forall|k: Seq<u8>|
                            #[trigger] norm_outcome(
                                ops,
                                expansions@,
                                None::<Option<Seq<u8>>>,
                                k,
                            ) == norm_outcome(
                                ops.skip(j as int + 1),
                                expansions@.skip(e0 + 1),
                                flat_outcome(deletions@, insertions@, k),
                                k,
                            ) by {
                            assert(norm_outcome(ops, expansions@, None::<Option<Seq<u8>>>, k)
                                == norm_outcome(
                                ops.skip(j as int),
                                expansions@.skip(e0),
                                flat_outcome(dels0, ins0, k),
                                k,
                            ));
                            if keys_contain(expansions@[e0]@, k) {
                                let i = choose|i: int|
                                    0 <= i < expansions@[e0]@.len() && (
                                    #[trigger] expansions@[e0]@[i])@ == k;
                                assert(key_prefix@.is_prefix_of(k));
                            }
                            assert(flat_outcome(deletions@, insertions@, k) == norm_step(
                                flat_outcome(dels0, ins0, k),
                                ops[j as int],
                                expansions@[e0]@,
                                k,
                            ));
                        }
                    }
                },
            }
        }
        proof {
            assert(batch.operations@.skip(n as int) =~= Seq::<WriteOperation>::empty());
        }
        DynamoDbBatch(SimpleUnorderedBatch { deletions, insertions })
    }
}

/// Strict lexicographic order on byte strings: the backend's range order.
pub open spec fn lex_less(a: Seq<u8>, b: Seq<u8>) -> bool
    decreases a.len(),
{
    if b.len() == 0 {
        false
    } else if a.len() == 0 {
        true
    } else if a[0] < b[0] {
        true
    } else if a[0] > b[0] {
        false
    } else {
        lex_less(a.skip(1), b.skip(1))
    }
}

/// The order is irreflexive.
pub proof fn lemma_lex_irrefl(a: Seq<u8>)
    ensures
        !lex_less(a, a),
    decreases a.len(),
{
    if a.len() > 0 {
        lemma_lex_irrefl(a.skip(1));
    }
}

/// The order is total: two distinct byte strings compare one way.
pub proof fn lemma_lex_total(a: Seq<u8>, b: Seq<u8>)
    ensures
        a == b || lex_less(a, b) || lex_less(b, a),
    decreases a.len(),
{
    if a.len() == 0 && b.len() == 0 {
        assert(a =~= b);
    } else if a.len() > 0 && b.len() > 0 && a[0] == b[0] {
        lemma_lex_total(a.skip(1), b.skip(1));
        if a.skip(1) == b.skip(1) {
            assert(a.len() == b.len());
            assert forall|i: int| 0 <= i < a.len() implies a[i] == b[i] by {
                if i >= 1 {
                    assert(a.skip(1)[i - 1] == a[i]);
                    assert(b.skip(1)[i - 1] == b[i]);
                }
            }
            assert(a =~= b);
        }
    }
}

/// The order is transitive.
pub proof fn lemma_lex_trans(a: Seq<u8>, b: Seq<u8>, c: Seq<u8>)
    requires
        lex_less(a, b),
        lex_less(b, c),
    ensures
        lex_less(a, c),
    decreases a.len(),
{
    if a.len() > 0 && b.len() > 0 && c.len() > 0 && a[0] == b[0] && b[0] == c[0] {
        lemma_lex_trans(a.skip(1), b.skip(1), c.skip(1));
    }
}

/// Whether `a` comes strictly before `b` in the backend's range order.
pub fn bytes_less(a: &[u8], b: &[u8]) -> (r: bool)
    ensures
        r == lex_less(a@, b@),
{
    let m = if a.len() < b.len() {
        a.len()
    } else {
        b.len()
    };
    proof {
        assert(a@.skip(0) =~= a@);
        assert(b@.skip(0) =~= b@);
    }
    for i in 0..m
        invariant
            m == (if a@.len() < b@.len() {
                a@.len() as int
            } else {
                b@.len() as int
            }),
            lex_less(a@, b@) == lex_less(a@.skip(i as int), b@.skip(i as int)),
    {
        proof {
            assert(a@.skip(i as int)[0] == a@[i as int] && b@.skip(i as int)[0] == b@[i as int]);
            assert(a@.skip(i as int).skip(1) =~= a@.skip(i as int + 1));
            assert(b@.skip(i as int).skip(1) =~= b@.skip(i as int + 1));
        }
        if a[i] < b[i] {
            return true;
        }
        if a[i] > b[i] {
            return false;
        }
    }
    proof {
        assert(a@.skip(m as int).len() == (a@.len() - m) && b@.skip(m as int).len() == (b@.len()
            - m));
    }
    a.len() < b.len()
}

/// Whether a key list is strictly ascending in the range order.
pub open spec fn keys_sorted(s: Seq<Vec<u8>>) -> bool {
    forall|i: int, j: int| 0 <= i < j < s.len() ==> lex_less((#[trigger] s[i])@, (#[trigger] s[j])@)
}

/// The place of a fresh key in a sorted key list: every earlier key is
/// smaller, and the key at the place (if any) is larger.
fn lower_bound(v: &Vec<Vec<u8>>, x: &[u8]) -> (idx: usize)
    requires
        keys_sorted(v@),
        !keys_contain(v@, x@),
    ensures
        idx <= v@.len(),
        forall|l: int| 0 <= l < idx ==> lex_less((#[trigger] v@[l])@, x@),
        idx < v@.len() ==> lex_less(x@, v@[idx as int]@),
{
    let n = v.len();
    for i in 0..n
        invariant
            n == v@.len(),
            keys_sorted(v@),
            !keys_contain(v@, x@),
            forall|l: int| 0 <= l < i ==> lex_less((#[trigger] v@[l])@, x@),
    {
        if bytes_less(x, v[i].as_slice()) {
            return i;
        }
        proof {
            lemma_lex_total(x@, v@[i as int]@);
            if v@[i as int]@ == x@ {
                assert(keys_contain(v@, x@));
            }
        }
    }
    n
}

/// Inserts a fresh key into a sorted key list at its place in the range
/// order.
pub(crate) fn insert_sorted(v: &mut Vec<Vec<u8>>, x: Vec<u8>)
    requires
        keys_sorted(old(v)@),
        !keys_contain(old(v)@, x@),
    ensures
        keys_sorted(final(v)@),
        final(v)@.len() == old(v)@.len() + 1,
        forall|k2: Seq<u8>|
            #[trigger] keys_contain(final(v)@, k2) == (keys_contain(old(v)@, k2) || k2 == x@),
{
    let ghost x_view = x@;
    let idx = lower_bound(v, x.as_slice());
    let ghost pre = v@;
    let ghost at = idx as int;
    proof {
        assert(forall|l: int| 0 <= l < at ==> lex_less((#[trigger] pre[l])@, x_view));
        if at < pre.len() {
            assert(lex_less(x_view, pre[at]@));
        }
    }
    v.insert(idx, x);
    proof {
        assert(v@.len() == pre.len() + 1);
        assert(forall|l: int| 0 <= l < at ==> #[trigger] v@[l] == pre[l]);
        assert(v@[at] == x);
        assert(forall|l: int| at < l < v@.len() ==> #[trigger] v@[l] == pre[l - 1]);
        assert forall|i: int, j: int| 0 <= i < j < v@.len() implies lex_less(
            (#[trigger] v@[i])@,
            (#[trigger] v@[j])@,
        ) by {
            if i < at && j < at {
            } else if i < at && j == at {
            } else if i < at && j > at {
                assert(lex_less(pre[i]@, pre[j - 1]@)) by {
                    if i < j - 1 {
                    } else {
                        assert(i == j - 1);
                        assert(lex_less(pre[i]@, x_view) && lex_less(x_view, pre[at]@));
                        lemma_lex_trans(pre[i]@, x_view, pre[at]@);
                    }
                }
                if i == j - 1 {
                    lemma_lex_trans(pre[i]@, x_view, pre[at]@);
                    assert(j - 1 == at);
                } else {
                }
            } else if i == at {
                assert(v@[j]@ == pre[j - 1]@);
                if j - 1 == at {
                    assert(lex_less(x_view, pre[at]@));
                } else {
                    assert(lex_less(x_view, pre[at]@) && lex_less(pre[at]@, pre[j - 1]@));
                    lemma_lex_trans(x_view, pre[at]@, pre[j - 1]@);
                }
            } else {
            }
        }
        assert forall|k2: Seq<u8>|
            #[trigger] keys_contain(v@, k2) == (keys_contain(pre, k2) || k2 == x_view) by {
            if keys_contain(v@, k2) {
                let l = choose|l: int| 0 <= l < v@.len() && v@[l]@ == k2;
                if l < at {
                    assert(pre[l]@ == k2);
                } else if l == at {
                } else {
                    assert(pre[l - 1]@ == k2);
                }
            }
            if keys_contain(pre, k2) {
                let l = choose|l: int| 0 <= l < pre.len() && pre[l]@ == k2;
                if l < at {
                    assert(v@[l]@ == k2);
                } else {
                    assert(v@[l + 1]@ == k2);
                }
            }
            if k2 == x_view {
                assert(v@[at]@ == k2);
            }
        }
    }
}

} // verus!
