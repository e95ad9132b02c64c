//! The executable model of the backend, and the write path that runs
//! against it: the fast path, the journaled path and its replay.
//!
//! [`MemoryStore`] keeps the records of one table in memory, under the same
//! schema and the same ceilings the remote datastore enforces: keys are
//! nonempty, values stay under the per-value ceiling, one atomic transaction
//! carries a bounded number of operations and never touches a key twice.
//! The planning and decision functions it exercises — normalization,
//! chunking, the replay step — are pure, so an I/O driver can run the same
//! protocol against the remote backend.

use vstd::prelude::*;

use crate::batch::bytes_eq;
use crate::batch::dels_wf;
use crate::batch::Batch;
use crate::batch::first_op_error;
use crate::batch::norm_step;
use crate::batch::norm_outcome;
use crate::batch::WriteOperation;
use crate::journal::all_op_sizes_bounded;
use crate::journal::block_op_count;
use crate::journal::block_size;
use crate::journal::JournalHeader;
use crate::journal::journal_header_key;
use crate::journal::journal_entry_key;
use crate::journal::blocks_dels;
use crate::journal::blocks_ins;
use crate::journal::journal_header_key_spec;
use crate::journal::journal_entry_key_spec;
use crate::journal::in_journal_namespace;
use crate::journal::le_u32_bytes;
use crate::journal::key_dv;
use crate::journal::kv_dv;
use crate::codec::batch_encoding;
use crate::codec::codec_sizes_ok;
use crate::codec::MAX_CODEC_SEQUENCE_LENGTH;
use crate::batch::flat_outcome;
use crate::batch::DynamoDbBatch;
use crate::transaction::TransactionBuilder;
use crate::batch::contains_key;
use crate::batch::insertions_lookup;
use crate::batch::ins_wf;
use crate::batch::insert_sorted;
use crate::batch::is_prefix;
use crate::batch::keys_sorted;
use crate::batch::lex_less;
use crate::batch::keys_contain;
use crate::batch::lemma_insertions_lookup_at;
use crate::batch::lemma_insertions_lookup_index;
use crate::batch::lemma_keys_contain_push;
use crate::batch::remove_insertion_key;
use crate::batch::upsert_insertion;
use crate::errors::DynamoDbContextError;
use crate::record::build_key;
use crate::record::build_key_value;
use crate::record::AttrValue;
use crate::record::AttributeMap;
use crate::transaction::transact_op_key;
use crate::transaction::transact_op_wf;
use crate::transaction::transact_ops_distinct;
use crate::transaction::transact_ops_wf;
use crate::transaction::TransactOperation;
use crate::MAX_BATCH_WRITE_ITEM_BYTES;
use crate::MAX_TRANSACT_WRITE_ITEM_SIZE;
use crate::MAX_VALUE_BYTES;

verus! {

/// The effect of the remaining operations of one atomic transaction on one
/// key, given its prior binding.
pub open spec fn txn_lookup(
    ops: Seq<TransactOperation>,
    prior: Option<Seq<u8>>,
    k: Seq<u8>,
) -> Option<Seq<u8>>
    decreases ops.len(),
{
    if ops.len() == 0 {
        prior
    } else {
        let stepped = match ops[0] {
            TransactOperation::Delete { key } => if key@ == k {
                None
            } else {
                prior
            },
            TransactOperation::Put { key, value } => if key@ == k {
                Some(value@)
            } else {
                prior
            },
        };
        txn_lookup(ops.skip(1), stepped, k)
    }
}

/// An in-memory backend holding the records of one table.
#[derive(Debug)]
pub struct MemoryStore {
    items: Vec<(Vec<u8>, Vec<u8>)>,
}

impl MemoryStore {
    /// The value stored under `k`, if any.
    pub closed spec fn lookup(&self, k: Seq<u8>) -> Option<Seq<u8>> {
        insertions_lookup(self.items@, k)
    }

    /// Well-formedness: distinct nonempty keys, values under the ceiling.
    pub closed spec fn wf(&self) -> bool {
        ins_wf(self.items@)
    }

    /// An empty store.
    pub fn new() -> (r: Self)
        ensures
            r.wf(),
            forall|k: Seq<u8>| #[trigger] r.lookup(k) is None,
    {
        MemoryStore { items: Vec::new() }
    }

    /// Applies one atomic transaction: all its operations at once, or — as
    /// the requires make unreachable for this model — none.
    pub fn transact_write(&mut self, ops: Vec<TransactOperation>)
        requires
            old(self).wf(),
            ops@.len() <= MAX_TRANSACT_WRITE_ITEM_SIZE,
            transact_ops_wf(ops@),
            transact_ops_distinct(ops@),
        ensures
            final(self).wf(),
            forall|k: Seq<u8>|
                #[trigger] final(self).lookup(k) == txn_lookup(ops@, old(self).lookup(k), k),
    {
        let n = ops.len();
        proof {
            assert(ops@.skip(0) =~= ops@);
        }
        for i in 0..n
            invariant
                n == ops@.len(),
                self.wf(),
                transact_ops_wf(ops@),
                forall|k: Seq<u8>|
                    txn_lookup(ops@, #[trigger] old(self).lookup(k), k) == txn_lookup(
                        ops@.skip(i as int),
                        self.lookup(k),
                        k,
                    ),
        {
            proof {
                assert(ops@.skip(i as int)[0] == ops@[i as int]);
                assert(ops@.skip(i as int).skip(1) =~= ops@.skip(i as int + 1));
                assert(transact_op_wf(ops@[i as int]));
            }
            let ghost items0 = self.items@;
            match &ops[i] {
                TransactOperation::Delete { key } => {
                    remove_insertion_key(&mut self.items, key.as_slice());
                },
                TransactOperation::Put { key, value } => {
                    upsert_insertion(&mut self.items, key, value);
                },
            }
        }
        proof {
            assert(ops@.skip(n as int) =~= Seq::<TransactOperation>::empty());
        }
    }

    /// Point read: the stored value of a full key, if any.
    pub fn read_key_bytes(&self, key: &[u8]) -> (r: Result<Option<Vec<u8>>, DynamoDbContextError>)
        requires
            self.wf(),
        ensures
            r matches Ok(o) && (match o {
                Some(v) => self.lookup(key@) == Some(v@),
                None => self.lookup(key@) is None,
            }),
    {
        let n = self.items.len();
        for i in 0..n
            invariant
                n == self.items@.len(),
                self.wf(),
                forall|l: int| 0 <= l < i ==> (#[trigger] self.items@[l]).0@ != key@,
        {
            if bytes_eq(self.items[i].0.as_slice(), key) {
                proof {
                    lemma_insertions_lookup_at(self.items@, i as int);
                }
                return Ok(Some(self.items[i].1.clone()));
            }
        }
        proof {
            lemma_insertions_lookup_index(self.items@, key@);
        }
        Ok(None)
    }

    /// Multi-point read: one result per input key, in input order.
    pub fn read_multi_key_bytes(&self, keys: Vec<Vec<u8>>) -> (r: Result<
        Vec<Option<Vec<u8>>>,
        DynamoDbContextError,
    >)
        requires
            self.wf(),
        ensures
            r matches Ok(rs) && rs@.len() == keys@.len() && (forall|i: int|
                0 <= i < keys@.len() ==> (match #[trigger] rs@[i] {
                    Some(v) => self.lookup(keys@[i]@) == Some(v@),
                    None => self.lookup(keys@[i]@) is None,
                })),
    {
        let mut out: Vec<Option<Vec<u8>>> = Vec::new();
        let n = keys.len();
        for i in 0..n
            invariant
                n == keys@.len(),
                self.wf(),
                out@.len() == i,
                forall|l: int|
                    0 <= l < i ==> (match #[trigger] out@[l] {
                        Some(v) => self.lookup(keys@[l]@) == Some(v@),
                        None => self.lookup(keys@[l]@) is None,
                    }),
        {
            let one = match self.read_key_bytes(keys[i].as_slice()) {
                Ok(o) => o,
                Err(e) => {
                    return Err(e);
                },
            };
            out.push(one);
        }
        Ok(out)
    }

    /// The full live keys under a nonempty prefix, in ascending range
    /// order: the capability the normalizer consumes to expand a prefix
    /// delete.
    pub fn expand_delete_prefix(&self, key_prefix: &[u8]) -> (r: Result<
        Vec<Vec<u8>>,
        DynamoDbContextError,
    >)
        requires
            self.wf(),
        ensures
            match r {
                Ok(keys) => {
                    &&& key_prefix@.len() > 0
                    &&& forall|j: int|
                        0 <= j < keys@.len() ==> key_prefix@.is_prefix_of(
                            (#[trigger] keys@[j])@,
                        ) && self.lookup(keys@[j]@) is Some
                    &&& forall|k: Seq<u8>|
                        self.lookup(k) is Some && key_prefix@.is_prefix_of(k)
                            ==> #[trigger] keys_contain(keys@, k)
                    &&& keys_sorted(keys@)
                    &&& forall|j1: int, j2: int|
                        0 <= j1 < j2 < keys@.len() ==> (#[trigger] keys@[j1])@ != (
                        #[trigger] keys@[j2])@
                },
                Err(e) => e is ZeroLengthKeyPrefix && key_prefix@.len() == 0,
            },
    {
        if key_prefix.len() == 0 {
            return Err(DynamoDbContextError::ZeroLengthKeyPrefix);
        }
        let mut out: Vec<Vec<u8>> = Vec::new();
        let n = self.items.len();
        for i in 0..n
            invariant
                n == self.items@.len(),
                self.wf(),
                key_prefix@.len() > 0,
                keys_sorted(out@),
                forall|k: Seq<u8>|
                    #[trigger] keys_contain(out@, k) ==> key_prefix@.is_prefix_of(k)
                        && self.lookup(k) is Some,
                forall|l: int|
                    0 <= l < i && key_prefix@.is_prefix_of((#[trigger] self.items@[l]).0@)
                        ==> keys_contain(out@, self.items@[l].0@),
        {
            if is_prefix(key_prefix, self.items[i].0.as_slice()) {
                let x = self.items[i].0.clone();
                proof {
                    assert(x@ == self.items@[i as int].0@);
                    lemma_insertions_lookup_at(self.items@, i as int);
                }
                if !contains_key(&out, x.as_slice()) {
                    let ghost out0 = out@;
                    let ghost xv = x@;
                    insert_sorted(&mut out, x);
                    proof {
                        assert forall|l: int|
                            0 <= l < i + 1 && key_prefix@.is_prefix_of(
                                (#[trigger] self.items@[l]).0@,
                            ) implies keys_contain(out@, self.items@[l].0@) by {
                            assert(keys_contain(out@, self.items@[l].0@) == (keys_contain(
                                out0,
                                self.items@[l].0@,
                            ) || self.items@[l].0@ == xv));
                        }
                    }
                }
            }
        }
        proof {
            assert forall|k: Seq<u8>|
                self.lookup(k) is Some && key_prefix@.is_prefix_of(k) implies #[trigger] keys_contain(
                out@,
                k,
            ) by {
                lemma_insertions_lookup_index(self.items@, k);
                let l = choose|l: int|
                    0 <= l < self.items@.len() && (#[trigger] self.items@[l]).0@ == k;
                assert(keys_contain(out@, self.items@[l].0@));
            }
            assert forall|j: int| 0 <= j < out@.len() implies key_prefix@.is_prefix_of(
                (#[trigger] out@[j])@,
            ) && self.lookup(out@[j]@) is Some by {
                assert(keys_contain(out@, out@[j]@));
            }
            assert forall|j1: int, j2: int| 0 <= j1 < j2 < out@.len() implies (
            #[trigger] out@[j1])@ != (#[trigger] out@[j2])@ by {
                if out@[j1]@ == out@[j2]@ {
                    crate::batch::lemma_lex_irrefl(out@[j1]@);
                }
            }
        }
        Ok(out)
    }
}

/// Whether a query response carries a record whose sort attribute is `k`.
pub open spec fn resp_contains_key(resp: Seq<AttributeMap>, k: Seq<u8>) -> bool {
    exists|j: int|
        0 <= j < resp.len() && ((#[trigger] resp[j]).key matches Some(AttrValue::B(b)) && b@ == k)
}

/// Whether a list of records carries one whose sort attribute is `k`.
fn response_contains_key(resp: &Vec<AttributeMap>, k: &[u8]) -> (r: bool)
    ensures
        r == resp_contains_key(resp@, k@),
{
    let n = resp.len();
    for j in 0..n
        invariant
            n == resp@.len(),
            forall|l: int|
                0 <= l < j ==> !((#[trigger] resp@[l]).key matches Some(AttrValue::B(b)) && b@
                    == k@),
    {
        match &resp[j].key {
            Some(AttrValue::B(b)) => {
                if bytes_eq(b.as_slice(), k) {
                    proof {
                        assert(resp@[j as int].key matches Some(AttrValue::B(b2)) && b2@ == k@);
                    }
                    return true;
                }
            },
            _ => {},
        }
    }
    false
}

/// The records a prefix scan of keys returns: the sort attribute of every
/// live record under the prefix, without values.
#[derive(Debug, PartialEq, Eq)]
pub struct DynamoDbKeys {
    /// The length of the prefix to strip from each sort attribute.
    pub prefix_len: usize,
    /// The records, one per live key under the prefix.
    pub response: Vec<AttributeMap>,
}

impl DynamoDbKeys {
    /// Every record holds a binary sort attribute at least as long as the
    /// prefix.
    pub open spec fn wf(&self) -> bool {
        forall|j: int|
            0 <= j < self.response@.len() ==> ((#[trigger] self.response@[j]).key matches Some(
                AttrValue::B(b),
            ) && self.prefix_len <= b@.len())
    }

    /// The number of records.
    pub fn len(&self) -> (r: usize)
        ensures
            r == self.response@.len(),
    {
        self.response.len()
    }

    /// The `i`-th key, with the prefix stripped.
    pub fn get(&self, i: usize) -> (r: Result<&[u8], DynamoDbContextError>)
        requires
            self.wf(),
            i < self.response@.len(),
        ensures
            self.response@[i as int].key matches Some(AttrValue::B(b)) && (r matches Ok(k) && k@
                == b@.subrange(self.prefix_len as int, b@.len() as int)),
    {
        crate::record::extract_key(self.prefix_len, &self.response[i])
    }
}

/// The records a prefix scan of key/value pairs returns.
#[derive(Debug, PartialEq, Eq)]
pub struct DynamoDbKeyValues {
    /// The length of the prefix to strip from each sort attribute.
    pub prefix_len: usize,
    /// The records, one per live key under the prefix.
    pub response: Vec<AttributeMap>,
}

impl DynamoDbKeyValues {
    /// Every record holds a binary sort attribute at least as long as the
    /// prefix, and a binary value attribute.
    pub open spec fn wf(&self) -> bool {
        forall|j: int|
            0 <= j < self.response@.len() ==> ((#[trigger] self.response@[j]).key matches Some(
                AttrValue::B(b),
            ) && self.prefix_len <= b@.len() && (self.response@[j].value matches Some(
                AttrValue::B(_),
            )))
    }

    /// The number of records.
    pub fn len(&self) -> (r: usize)
        ensures
            r == self.response@.len(),
    {
        self.response.len()
    }

    /// The `i`-th pair: the key with the prefix stripped, and the value.
    pub fn get(&self, i: usize) -> (r: Result<(&[u8], &[u8]), DynamoDbContextError>)
        requires
            self.wf(),
            i < self.response@.len(),
        ensures
            self.response@[i as int].key matches Some(AttrValue::B(b)) && (
            self.response@[i as int].value matches Some(AttrValue::B(v)) && (r matches Ok(kv)
                && kv.0@ == b@.subrange(self.prefix_len as int, b@.len() as int) && kv.1@ == v@)),
    {
        crate::record::extract_key_value(self.prefix_len, &self.response[i])
    }
}

impl MemoryStore {
    /// Prefix scan of keys: one record per live key under the nonempty
    /// prefix, each holding the full key as its sort attribute.
    pub fn find_keys_by_prefix(&self, key_prefix: &[u8]) -> (r: Result<
        DynamoDbKeys,
        DynamoDbContextError,
    >)
        requires
            self.wf(),
        ensures
            match r {
                Ok(kk) => {
                    &&& key_prefix@.len() > 0
                    &&& kk.prefix_len == key_prefix@.len()
                    &&& kk.wf()
                    &&& forall|j: int|
                        0 <= j < kk.response@.len() ==> ((#[trigger] kk.response@[j]).key matches Some(
                            AttrValue::B(b),
                        ) && key_prefix@.is_prefix_of(b@) && self.lookup(b@) is Some
                            && kk.response@[j].value is None)
                    &&& forall|k: Seq<u8>|
                        self.lookup(k) is Some && key_prefix@.is_prefix_of(k)
                            ==> #[trigger] resp_contains_key(kk.response@, k)
                    &&& forall|j1: int, j2: int|
                        0 <= j1 < j2 < kk.response@.len()
                            ==> ((#[trigger] kk.response@[j1]).key matches Some(AttrValue::B(b1))
                            && ((#[trigger] kk.response@[j2]).key matches Some(AttrValue::B(b2))
                            && lex_less(b1@, b2@)))
                },
                Err(e) => e is ZeroLengthKeyPrefix && key_prefix@.len() == 0,
            },
    {
        if key_prefix.len() == 0 {
            return Err(DynamoDbContextError::ZeroLengthKeyPrefix);
        }
        let full_keys = match self.expand_delete_prefix(key_prefix) {
            Ok(keys) => keys,
            Err(e) => {
                return Err(e);
            },
        };
        let mut response: Vec<AttributeMap> = Vec::new();
        let n = full_keys.len();
        for j in 0..n
            invariant
                n == full_keys@.len(),
                self.wf(),
                response@.len() == j,
                forall|l: int|
                    0 <= l < full_keys@.len() ==> key_prefix@.is_prefix_of(
                        (#[trigger] full_keys@[l])@,
                    ) && self.lookup(full_keys@[l]@) is Some,
                keys_sorted(full_keys@),
                forall|l: int|
                    0 <= l < j ==> ((#[trigger] response@[l]).key matches Some(AttrValue::B(b))
                        && b@ == full_keys@[l]@ && response@[l].value is None
                        && response@[l].partition is Some),
        {
            let record = build_key(full_keys[j].clone());
            response.push(record);
        }
        proof {
            assert forall|k: Seq<u8>|
                self.lookup(k) is Some && key_prefix@.is_prefix_of(k) implies #[trigger] resp_contains_key(
                response@,
                k,
            ) by {
                assert(keys_contain(full_keys@, k));
                let l = choose|l: int|
                    0 <= l < full_keys@.len() && (#[trigger] full_keys@[l])@ == k;
                assert(response@[l].key matches Some(AttrValue::B(b)) && b@ == k);
            }
        }
        Ok(DynamoDbKeys { prefix_len: key_prefix.len(), response })
    }

    /// Prefix scan of key/value pairs: one record per live key under the
    /// nonempty prefix, each holding the full key and the stored value.
    pub fn find_key_values_by_prefix(&self, key_prefix: &[u8]) -> (r: Result<
        DynamoDbKeyValues,
        DynamoDbContextError,
    >)
        requires
            self.wf(),
        ensures
            match r {
                Ok(kk) => {
                    &&& key_prefix@.len() > 0
                    &&& kk.prefix_len == key_prefix@.len()
                    &&& kk.wf()
                    &&& forall|j: int|
                        0 <= j < kk.response@.len() ==> ((#[trigger] kk.response@[j]).key matches Some(
                            AttrValue::B(b),
                        ) && key_prefix@.is_prefix_of(b@) && (kk.response@[j].value matches Some(
                            AttrValue::B(v),
                        ) && self.lookup(b@) == Some(v@)))
                    &&& forall|k: Seq<u8>|
                        self.lookup(k) is Some && key_prefix@.is_prefix_of(k)
                            ==> #[trigger] resp_contains_key(kk.response@, k)
                    &&& forall|j1: int, j2: int|
                        0 <= j1 < j2 < kk.response@.len()
                            ==> ((#[trigger] kk.response@[j1]).key matches Some(AttrValue::B(b1))
                            && ((#[trigger] kk.response@[j2]).key matches Some(AttrValue::B(b2))
                            && lex_less(b1@, b2@)))
                },
                Err(e) => e is ZeroLengthKeyPrefix && key_prefix@.len() == 0,
            },
    {
        if key_prefix.len() == 0 {
            return Err(DynamoDbContextError::ZeroLengthKeyPrefix);
        }
        let full_keys = match self.expand_delete_prefix(key_prefix) {
            Ok(keys) => keys,
            Err(e) => {
                return Err(e);
            },
        };
        let mut response: Vec<AttributeMap> = Vec::new();
        let n = full_keys.len();
        for j in 0..n
            invariant
                n == full_keys@.len(),
                self.wf(),
                response@.len() == j,
                forall|l: int|
                    0 <= l < full_keys@.len() ==> key_prefix@.is_prefix_of(
                        (#[trigger] full_keys@[l])@,
                    ) && self.lookup(full_keys@[l]@) is Some,
                keys_sorted(full_keys@),
                forall|l: int|
                    0 <= l < j ==> ((#[trigger] response@[l]).key matches Some(AttrValue::B(b))
                        && b@ == full_keys@[l]@ && (response@[l].value matches Some(AttrValue::B(v))
                        && self.lookup(b@) == Some(v@))),
        {
            let value = match self.read_key_bytes(full_keys[j].as_slice()) {
                Ok(Some(v)) => v,
                Ok(None) => {
                    proof {
                        assert(false);
                    }
                    Vec::new()
                },
                Err(e) => {
                    return Err(e);
                },
            };
            let record = build_key_value(full_keys[j].clone(), value);
            response.push(record);
        }
        proof {
            assert forall|k: Seq<u8>|
                self.lookup(k) is Some && key_prefix@.is_prefix_of(k) implies #[trigger] resp_contains_key(
                response@,
                k,
            ) by {
                assert(keys_contain(full_keys@, k));
                let l = choose|l: int|
                    0 <= l < full_keys@.len() && (#[trigger] full_keys@[l])@ == k;
                assert(response@[l].key matches Some(AttrValue::B(b)) && b@ == k);
            }
        }
        Ok(DynamoDbKeyValues { prefix_len: key_prefix.len(), response })
    }
}

impl MemoryStore {
    /// What well-formedness means to a caller: every stored binding has a
    /// nonempty key and a value within the backend's per-value ceiling.
    pub proof fn lemma_wf_bounds(&self, k: Seq<u8>)
        requires
            self.wf(),
        ensures
            self.lookup(k) matches Some(v) ==> v.len() <= MAX_VALUE_BYTES && k.len() > 0,
    {
        if self.lookup(k) is Some {
            lemma_insertions_lookup_index(self.items@, k);
            let l = choose|l: int|
                0 <= l < self.items@.len() && (#[trigger] self.items@[l]).0@ == k;
            lemma_insertions_lookup_at(self.items@, l);
        }
    }
}

/// When the journaled path is owed success: every key and value fits the
/// codec's sequence ceiling, and every chunk the planner could cut — any
/// contiguous slice of the deletions and the insertions small enough for one
/// block — has an encoded payload within the per-value ceiling.
pub open spec fn journal_writable(dels: Seq<Vec<u8>>, ins: Seq<(Vec<u8>, Vec<u8>)>) -> bool {
    &&& forall|i: int|
        0 <= i < dels.len() ==> (#[trigger] dels[i])@.len() <= MAX_CODEC_SEQUENCE_LENGTH
    &&& forall|i: int|
        0 <= i < ins.len() ==> (#[trigger] ins[i]).0@.len() <= MAX_CODEC_SEQUENCE_LENGTH && (
        #[trigger] ins[i]).1@.len() <= MAX_CODEC_SEQUENCE_LENGTH
    &&& forall|a: int, b: int, c: int, d: int|
        0 <= a <= b <= dels.len() && 0 <= c <= d <= ins.len() && (b - a) + (d - c)
            <= MAX_TRANSACT_WRITE_ITEM_SIZE - 2 ==> (#[trigger] batch_encoding(
            key_dv(dels).subrange(a, b),
            kv_dv(ins).subrange(c, d),
        )).len() <= MAX_VALUE_BYTES
}

/// A block of a chunked batch is a contiguous slice of the flat batch's
/// deletions and insertions.
pub proof fn lemma_block_is_subrange(
    blocks: Seq<DynamoDbBatch>,
    dels: Seq<Vec<u8>>,
    ins: Seq<(Vec<u8>, Vec<u8>)>,
    bi: int,
)
    requires
        blocks_dels(blocks) == key_dv(dels),
        blocks_ins(blocks) == kv_dv(ins),
        0 <= bi < blocks.len(),
    ensures
        exists|a: int, c: int|
            #![trigger key_dv(dels).subrange(a, a + blocks[bi].0.deletions@.len()),
                kv_dv(ins).subrange(c, c + blocks[bi].0.insertions@.len())]
            {
                &&& 0 <= a
                &&& 0 <= c
                &&& a + blocks[bi].0.deletions@.len() <= dels.len()
                &&& c + blocks[bi].0.insertions@.len() <= ins.len()
                &&& key_dv(blocks[bi].0.deletions@) == key_dv(dels).subrange(
                    a,
                    a + blocks[bi].0.deletions@.len(),
                )
                &&& kv_dv(blocks[bi].0.insertions@) == kv_dv(ins).subrange(
                    c,
                    c + blocks[bi].0.insertions@.len(),
                )
            },
    decreases bi,
{
    let h = blocks[0];
    let nd0 = h.0.deletions@.len() as int;
    let m0 = h.0.insertions@.len() as int;
    assert(key_dv(h.0.deletions@) + blocks_dels(blocks.skip(1)) == key_dv(dels));
    assert(kv_dv(h.0.insertions@) + blocks_ins(blocks.skip(1)) == kv_dv(ins));
    assert(nd0 <= dels.len() && m0 <= ins.len());
    if bi == 0 {
        assert(key_dv(blocks[0].0.deletions@) =~= key_dv(dels).subrange(0, 0 + nd0));
        assert(kv_dv(blocks[0].0.insertions@) =~= kv_dv(ins).subrange(0, 0 + m0));
    } else {
        assert(blocks_dels(blocks.skip(1)) =~= key_dv(dels).skip(nd0));
        assert(blocks_ins(blocks.skip(1)) =~= kv_dv(ins).skip(m0));
        assert(key_dv(dels.skip(nd0)) =~= key_dv(dels).skip(nd0));
        assert(kv_dv(ins.skip(m0)) =~= kv_dv(ins).skip(m0));
        lemma_block_is_subrange(blocks.skip(1), dels.skip(nd0), ins.skip(m0), bi - 1);
        let b = blocks.skip(1)[bi - 1];
        assert(b == blocks[bi]);
        let (a0, c0) = choose|a0: int, c0: int|
            #![trigger key_dv(dels.skip(nd0)).subrange(a0, a0 + b.0.deletions@.len()),
                kv_dv(ins.skip(m0)).subrange(c0, c0 + b.0.insertions@.len())]
            {
                &&& 0 <= a0
                &&& 0 <= c0
                &&& a0 + b.0.deletions@.len() <= dels.skip(nd0).len()
                &&& c0 + b.0.insertions@.len() <= ins.skip(m0).len()
                &&& key_dv(b.0.deletions@) == key_dv(dels.skip(nd0)).subrange(
                    a0,
                    a0 + b.0.deletions@.len(),
                )
                &&& kv_dv(b.0.insertions@) == kv_dv(ins.skip(m0)).subrange(
                    c0,
                    c0 + b.0.insertions@.len(),
                )
            };
        assert(key_dv(dels.skip(nd0)).subrange(a0, a0 + b.0.deletions@.len()) =~= key_dv(
            dels,
        ).subrange(a0 + nd0, (a0 + nd0) + b.0.deletions@.len()));
        assert(kv_dv(ins.skip(m0)).subrange(c0, c0 + b.0.insertions@.len()) =~= kv_dv(
            ins,
        ).subrange(c0 + m0, (c0 + m0) + b.0.insertions@.len()));
    }
}

/// Whether a transaction carries exactly the operations of a flat batch:
/// the deletions first, then the insertions, in order.
pub open spec fn ops_match_block(
    ops: Seq<TransactOperation>,
    dels: Seq<Vec<u8>>,
    ins: Seq<(Vec<u8>, Vec<u8>)>,
) -> bool {
    &&& ops.len() == dels.len() + ins.len()
    &&& forall|l: int|
        0 <= l < dels.len() ==> (#[trigger] ops[l] matches TransactOperation::Delete { key } && key@
            == dels[l]@)
    &&& forall|l: int|
        0 <= l < ins.len() ==> (#[trigger] ops[l + dels.len()] matches TransactOperation::Put {
            key,
            value,
        } && key@ == ins[l].0@ && value@ == ins[l].1@)
}

/// A transaction that carries a flat batch has, on every key, the flat
/// batch's effect: the insertion's value, or absence after a deletion, or
/// the prior binding.
pub proof fn lemma_txn_lookup_block(
    ops: Seq<TransactOperation>,
    dels: Seq<Vec<u8>>,
    ins: Seq<(Vec<u8>, Vec<u8>)>,
    prior: Option<Seq<u8>>,
    k: Seq<u8>,
)
    requires
        ops_match_block(ops, dels, ins),
        forall|i: int, j: int|
            0 <= i < j < ins.len() ==> (#[trigger] ins[i]).0@ != (#[trigger] ins[j]).0@,
    ensures
        txn_lookup(ops, prior, k) == (match insertions_lookup(ins, k) {
            Some(v) => Some(v),
            None => if keys_contain(dels, k) {
                None
            } else {
                prior
            },
        }),
    decreases ops.len(),
{
    if dels.len() > 0 {
        assert(ops[0] matches TransactOperation::Delete { key } && key@ == dels[0]@);
        let stepped: Option<Seq<u8>> = if dels[0]@ == k {
            None
        } else {
            prior
        };
        assert(ops_match_block(ops.skip(1), dels.skip(1), ins)) by {
            assert(forall|l: int|
                0 <= l < dels.skip(1).len() ==> #[trigger] ops.skip(1)[l] == ops[l + 1]
                    && dels.skip(1)[l] == dels[l + 1]);
            assert(forall|l: int|
                0 <= l < ins.len() ==> #[trigger] ops.skip(1)[l + dels.skip(1).len()] == ops[l
                    + dels.len()]);
        }
        lemma_txn_lookup_block(ops.skip(1), dels.skip(1), ins, stepped, k);
        assert(keys_contain(dels, k) == (dels[0]@ == k || keys_contain(dels.skip(1), k))) by {
            if keys_contain(dels.skip(1), k) {
                let l = choose|l: int| 0 <= l < dels.skip(1).len() && dels.skip(1)[l]@ == k;
                assert(dels[l + 1]@ == k);
            }
            if keys_contain(dels, k) && dels[0]@ != k {
                let l = choose|l: int| 0 <= l < dels.len() && dels[l]@ == k;
                assert(dels.skip(1)[l - 1]@ == k);
            }
        }
    } else if ins.len() > 0 {
        assert(ops[0] == ops[0 + dels.len() as int]);
        assert(ops[0] matches TransactOperation::Put { key, value } && key@ == ins[0].0@ && value@
            == ins[0].1@);
        let stepped: Option<Seq<u8>> = if ins[0].0@ == k {
            Some(ins[0].1@)
        } else {
            prior
        };
        assert(ops_match_block(ops.skip(1), dels, ins.skip(1))) by {
            assert(forall|l: int|
                0 <= l < ins.skip(1).len() ==> #[trigger] ops.skip(1)[l + dels.len()] == ops[(l + 1)
                    + dels.len()] && ins.skip(1)[l] == ins[l + 1]);
        }
        assert(forall|i: int, j: int|
            0 <= i < j < ins.skip(1).len() ==> (#[trigger] ins.skip(1)[i]).0@ != (
            #[trigger] ins.skip(1)[j]).0@) by {
            assert(forall|l: int| 0 <= l < ins.skip(1).len() ==> #[trigger] ins.skip(1)[l] == ins[l
                + 1]);
        }
        lemma_txn_lookup_block(ops.skip(1), dels, ins.skip(1), stepped, k);
        if ins[0].0@ == k {
            lemma_insertions_lookup_index(ins.skip(1), k);
            if insertions_lookup(ins.skip(1), k) is Some {
                let l = choose|l: int|
                    0 <= l < ins.skip(1).len() && (#[trigger] ins.skip(1)[l]).0@ == k;
                assert(ins[l + 1].0@ == ins[0].0@);
                assert(false);
            }
        }
    } else {
        assert(ops.len() == 0);
    }
}

/// Accumulates every operation of a flat batch into a builder: the
/// deletions first, then the insertions.
fn add_batch_operations(tb: &mut TransactionBuilder, batch: &DynamoDbBatch) -> (r: Result<
    (),
    DynamoDbContextError,
>)
    requires
        dels_wf(batch.0.deletions@),
        ins_wf(batch.0.insertions@),
    ensures
        r is Ok,
        final(tb).transacts@.len() == old(tb).transacts@.len() + batch.0.deletions@.len()
            + batch.0.insertions@.len(),
        forall|l: int|
            0 <= l < old(tb).transacts@.len() ==> #[trigger] final(tb).transacts@[l] == old(
                tb,
            ).transacts@[l],
        ops_match_block(
            final(tb).transacts@.skip(old(tb).transacts@.len() as int),
            batch.0.deletions@,
            batch.0.insertions@,
        ),
{
    let ghost base_len = tb.transacts@.len() as int;
    let nd = batch.0.deletions.len();
    for i in 0..nd
        invariant
            nd == batch.0.deletions@.len(),
            dels_wf(batch.0.deletions@),
            0 <= base_len,
            base_len == old(tb).transacts@.len(),
            tb.transacts@.len() == base_len + i,
            forall|l: int|
                0 <= l < base_len ==> #[trigger] tb.transacts@[l] == old(tb).transacts@[l],
            forall|l: int|
                0 <= l < i ==> (#[trigger] tb.transacts@[base_len + l] matches
                    TransactOperation::Delete { key } && key@ == batch.0.deletions@[l]@),
    {
        let key = batch.0.deletions[i].clone();
        let ghost pre = tb.transacts@;
        proof {
            assert(key@ == batch.0.deletions@[i as int]@);
        }
        match tb.insert_delete_request(key) {
            Ok(_) => {},
            Err(_) => {
                proof {
                    assert(false);
                }
            },
        }
        proof {
            assert(pre.len() == base_len + i);
            assert(tb.transacts@ == pre.push(tb.transacts@[pre.len() as int]));
            assert forall|l: int| 0 <= l < i + 1 implies (
            #[trigger] tb.transacts@[base_len + l] matches TransactOperation::Delete { key: k2 }
                && k2@ == batch.0.deletions@[l]@) by {
                let x = tb.transacts@[pre.len() as int];
                assert(tb.transacts@ == pre.push(x));
                if l < i {
                    assert(pre.push(x)[base_len + l] == pre[base_len + l]);
                    assert(tb.transacts@[base_len + l] == pre[base_len + l]);
                } else {
                    assert(pre.push(x)[pre.len() as int] == x);
                    assert(tb.transacts@[base_len + l] == x);
                }
            }
        }
    }
    let ni = batch.0.insertions.len();
    for i in 0..ni
        invariant
            nd == batch.0.deletions@.len(),
            ni == batch.0.insertions@.len(),
            ins_wf(batch.0.insertions@),
            0 <= base_len,
            base_len == old(tb).transacts@.len(),
            tb.transacts@.len() == base_len + nd + i,
            forall|l: int|
                0 <= l < base_len ==> #[trigger] tb.transacts@[l] == old(tb).transacts@[l],
            forall|l: int|
                0 <= l < nd ==> (#[trigger] tb.transacts@[base_len + l] matches
                    TransactOperation::Delete { key } && key@ == batch.0.deletions@[l]@),
            forall|l: int|
                0 <= l < i ==> (#[trigger] tb.transacts@[base_len + nd + l] matches
                    TransactOperation::Put { key, value } && key@ == batch.0.insertions@[l].0@
                    && value@ == batch.0.insertions@[l].1@),
    {
        let key = batch.0.insertions[i].0.clone();
        let value = batch.0.insertions[i].1.clone();
        let ghost pre = tb.transacts@;
        proof {
            assert(key@ == batch.0.insertions@[i as int].0@ && value@ == batch.0.insertions@[i
                as int].1@);
        }
        match tb.insert_put_request(key, value) {
            Ok(_) => {},
            Err(_) => {
                proof {
                    assert(false);
                }
            },
        }
        proof {
            let ghost x = tb.transacts@[pre.len() as int];
            assert(tb.transacts@ == pre.push(x));
            assert forall|l: int| 0 <= l < nd implies (
            #[trigger] tb.transacts@[base_len + l] matches TransactOperation::Delete { key: k2 }
                && k2@ == batch.0.deletions@[l]@) by {
                assert(pre.push(x)[base_len + l] == pre[base_len + l]);
                assert(tb.transacts@[base_len + l] == pre[base_len + l]);
            }
            assert forall|l: int| 0 <= l < i + 1 implies (
            #[trigger] tb.transacts@[base_len + nd + l] matches TransactOperation::Put {
                key: k2,
                value: v2,
            } && k2@ == batch.0.insertions@[l].0@ && v2@ == batch.0.insertions@[l].1@) by {
                if l < i {
                    assert(pre.push(x)[base_len + nd + l] == pre[base_len + nd + l]);
                    assert(tb.transacts@[base_len + nd + l] == pre[base_len + nd + l]);
                } else {
                    assert(pre.push(x)[pre.len() as int] == x);
                    assert(tb.transacts@[base_len + nd + l] == x);
                }
            }
        }
    }
    proof {
        let ghost ops = tb.transacts@.skip(base_len);
        assert(ops.len() == nd + ni);
        assert forall|l: int| 0 <= l < nd implies (
        #[trigger] ops[l] matches TransactOperation::Delete { key: k2 } && k2@
            == batch.0.deletions@[l]@) by {
            assert(ops[l] == tb.transacts@[base_len + l]);
        }
        assert forall|l: int| 0 <= l < ni implies (#[trigger] ops[l + batch.0.deletions@.len()]
            matches TransactOperation::Put { key: k2, value: v2 } && k2@
            == batch.0.insertions@[l].0@ && v2@ == batch.0.insertions@[l].1@) by {
            assert(ops[l + nd] == tb.transacts@[base_len + nd + l]);
        }
        assert(ops_match_block(ops, batch.0.deletions@, batch.0.insertions@));
    }
    Ok(())
}

impl TransactionBuilder {
    /// Submits the accumulated operations as one atomic transaction against
    /// the backend model; an empty builder is a no-op.  The backend refuses
    /// a transaction that touches one key twice, so callers prove their
    /// operations distinct.
    pub fn submit(self, db: &mut MemoryStore) -> (r: Result<(), DynamoDbContextError>)
        requires
            old(db).wf(),
            transact_ops_wf(self.transacts@),
            transact_ops_distinct(self.transacts@),
        ensures
            final(db).wf(),
            match r {
                Ok(_) => self.transacts@.len() <= MAX_TRANSACT_WRITE_ITEM_SIZE && (forall|k: Seq<u8>|
                    #[trigger] final(db).lookup(k) == txn_lookup(
                        self.transacts@,
                        old(db).lookup(k),
                        k,
                    )),
                Err(e) => e is TransactUpperLimitSize && self.transacts@.len()
                    > MAX_TRANSACT_WRITE_ITEM_SIZE && *final(db) == *old(db),
            },
    {
        let ghost ops = self.transacts@;
        let operations = match self.into_operations() {
            Ok(ops2) => ops2,
            Err(e) => {
                return Err(e);
            },
        };
        if operations.len() > 0 {
            db.transact_write(operations);
        } else {
            proof {
                assert(ops.len() == 0);
                assert(forall|k: Seq<u8>| txn_lookup(ops, #[trigger] db.lookup(k), k) == db.lookup(
                    k,
                ));
            }
        }
        Ok(())
    }
}

impl DynamoDbBatch {
    /// Commits the whole normalized batch in one atomic transaction: the
    /// fast path, taken when the batch fits under the operation-count
    /// ceiling.
    pub fn write_fastpath_failsafe(self, db: &mut MemoryStore) -> (r: Result<
        (),
        DynamoDbContextError,
    >)
        requires
            old(db).wf(),
            dels_wf(self.0.deletions@),
            ins_wf(self.0.insertions@),
            forall|k: Seq<u8>|
                !(#[trigger] keys_contain(self.0.deletions@, k) && insertions_lookup(
                    self.0.insertions@,
                    k,
                ) is Some),
            self.0.deletions@.len() + self.0.insertions@.len() <= MAX_TRANSACT_WRITE_ITEM_SIZE,
        ensures
            final(db).wf(),
            r is Ok,
            forall|k: Seq<u8>|
                #[trigger] final(db).lookup(k) == (match flat_outcome(
                    self.0.deletions@,
                    self.0.insertions@,
                    k,
                ) {
                    Some(Some(v)) => Some(v),
                    Some(None) => None::<Seq<u8>>,
                    None => old(db).lookup(k),
                }),
    {
        let mut tb = TransactionBuilder::new();
        let result = add_batch_operations(&mut tb, &self);
        match result {
            Ok(_) => {},
            Err(e) => {
                proof {
                    assert(false);
                }
                return Err(e);
            },
        }
        proof {
            assert(tb.transacts@.skip(0) =~= tb.transacts@);
            lemma_block_ops_wf_distinct(tb.transacts@, self.0.deletions@, self.0.insertions@);
        }
        let r = tb.submit(db);
        proof {
            assert forall|k: Seq<u8>|
                #[trigger] db.lookup(k) == (match flat_outcome(
                    self.0.deletions@,
                    self.0.insertions@,
                    k,
                ) {
                    Some(Some(v)) => Some(v),
                    Some(None) => None::<Seq<u8>>,
                    None => old(db).lookup(k),
                }) by {
                lemma_txn_lookup_block(
                    tb.transacts@,
                    self.0.deletions@,
                    self.0.insertions@,
                    old(db).lookup(k),
                    k,
                );
            }
        }
        r
    }
}

/// A transaction carrying a well-formed, conflict-free flat batch is itself
/// well formed and touches no key twice.
pub proof fn lemma_block_ops_wf_distinct(
    ops: Seq<TransactOperation>,
    dels: Seq<Vec<u8>>,
    ins: Seq<(Vec<u8>, Vec<u8>)>,
)
    requires
        ops_match_block(ops, dels, ins),
        dels_wf(dels),
        ins_wf(ins),
        forall|k: Seq<u8>|
            !(#[trigger] keys_contain(dels, k) && insertions_lookup(ins, k) is Some),
    ensures
        transact_ops_wf(ops),
        transact_ops_distinct(ops),
{
    assert forall|l: int| 0 <= l < ops.len() implies crate::transaction::transact_op_wf(
        #[trigger] ops[l],
    ) by {
        if l < dels.len() {
            assert(ops[l] matches TransactOperation::Delete { key } && key@ == dels[l]@);
        } else {
            assert(ops[(l - dels.len()) + dels.len()] matches TransactOperation::Put {
                key,
                value,
            } && key@ == ins[l - dels.len()].0@ && value@ == ins[l - dels.len()].1@);
        }
    }
    assert forall|i: int, j: int| 0 <= i < j < ops.len() implies transact_op_key(#[trigger] ops[i])
        != transact_op_key(#[trigger] ops[j]) by {
        if i < dels.len() && j < dels.len() {
            assert(ops[i] matches TransactOperation::Delete { key } && key@ == dels[i]@);
            assert(ops[j] matches TransactOperation::Delete { key } && key@ == dels[j]@);
        } else if i < dels.len() {
            assert(ops[i] matches TransactOperation::Delete { key } && key@ == dels[i]@);
            assert(ops[(j - dels.len()) + dels.len()] matches TransactOperation::Put { key, .. }
                && key@ == ins[j - dels.len()].0@);
            if dels[i]@ == ins[j - dels.len()].0@ {
                lemma_insertions_lookup_at(ins, j - dels.len());
                assert(keys_contain(dels, dels[i]@));
            }
        } else {
            assert(ops[(i - dels.len()) + dels.len()] matches TransactOperation::Put { key, .. }
                && key@ == ins[i - dels.len()].0@);
            assert(ops[(j - dels.len()) + dels.len()] matches TransactOperation::Put { key, .. }
                && key@ == ins[j - dels.len()].0@);
        }
    }
}

/// Whether a block's operations touch `k`.
pub open spec fn block_touches(b: DynamoDbBatch, k: Seq<u8>) -> bool {
    keys_contain(b.0.deletions@, k) || insertions_lookup(b.0.insertions@, k) is Some
}

/// The stored payload of one block entry.
pub open spec fn block_payload(b: DynamoDbBatch) -> Seq<u8> {
    batch_encoding(key_dv(b.0.deletions@), kv_dv(b.0.insertions@))
}

/// Well-formedness of one journal block relative to its region: valid,
/// conflict-free operations, sized to share one transaction with the header
/// update and the entry delete, touching no journal key.
pub open spec fn block_wf(base: Seq<u8>, b: DynamoDbBatch) -> bool {
    &&& dels_wf(b.0.deletions@)
    &&& ins_wf(b.0.insertions@)
    &&& forall|k: Seq<u8>|
        !(#[trigger] keys_contain(b.0.deletions@, k) && insertions_lookup(
            b.0.insertions@,
            k,
        ) is Some)
    &&& 1 <= block_op_count(b) <= MAX_TRANSACT_WRITE_ITEM_SIZE - 2
    &&& forall|k: Seq<u8>| #[trigger] block_touches(b, k) ==> !in_journal_namespace(base, k)
}

/// Well-formedness of a whole block list: every block well formed, and no
/// key touched by two blocks.
pub open spec fn journal_blocks_wf(base: Seq<u8>, blocks: Seq<DynamoDbBatch>) -> bool {
    &&& blocks.len() <= u32::MAX
    &&& forall|bi: int| 0 <= bi < blocks.len() ==> block_wf(base, #[trigger] blocks[bi])
}

/// The persisted shape of an armed journal: the header counts the blocks,
/// and each block entry stores its payload.
pub open spec fn journal_state(db: MemoryStore, base: Seq<u8>, blocks: Seq<DynamoDbBatch>) -> bool {
    &&& journal_blocks_wf(base, blocks)
    &&& db.lookup(journal_header_key_spec(base)) == Some(le_u32_bytes(blocks.len() as u32))
    &&& forall|bi: int|
        0 <= bi < blocks.len() ==> db.lookup(journal_entry_key_spec(base, bi as u32)) == Some(
            block_payload(#[trigger] blocks[bi]),
        )
}

/// Composing a transaction is folding its two halves in order.
pub proof fn lemma_txn_lookup_concat(
    a: Seq<TransactOperation>,
    b: Seq<TransactOperation>,
    prior: Option<Seq<u8>>,
    k: Seq<u8>,
)
    ensures
        txn_lookup(a + b, prior, k) == txn_lookup(b, txn_lookup(a, prior, k), k),
    decreases a.len(),
{
    if a.len() == 0 {
        assert(a + b =~= b);
    } else {
        assert((a + b)[0] == a[0]);
        assert((a + b).skip(1) =~= a.skip(1) + b);
        let stepped = match a[0] {
            TransactOperation::Delete { key } => if key@ == k {
                None
            } else {
                prior
            },
            TransactOperation::Put { key, value } => if key@ == k {
                Some(value@)
            } else {
                prior
            },
        };
        lemma_txn_lookup_concat(a.skip(1), b, stepped, k);
    }
}

/// Whether a list of pair views binds `k`, and to what.
pub open spec fn dv_ins_lookup(s: Seq<(Seq<u8>, Seq<u8>)>, k: Seq<u8>) -> Option<Seq<u8>>
    decreases s.len(),
{
    if s.len() == 0 {
        None
    } else if s[0].0 == k {
        Some(s[0].1)
    } else {
        dv_ins_lookup(s.skip(1), k)
    }
}

/// Looking a key up in a pair list is looking it up in the pair views.
pub proof fn lemma_ins_lookup_dv(s: Seq<(Vec<u8>, Vec<u8>)>, k: Seq<u8>)
    ensures
        insertions_lookup(s, k) == dv_ins_lookup(kv_dv(s), k),
    decreases s.len(),
{
    if s.len() > 0 {
        assert(kv_dv(s)[0] == (s[0].0@, s[0].1@));
        assert(kv_dv(s).skip(1) =~= kv_dv(s.skip(1)));
        lemma_ins_lookup_dv(s.skip(1), k);
    }
}

/// The number of prefix deletes in a batch.
pub open spec fn prefix_ops_count(ops: Seq<WriteOperation>) -> nat
    decreases ops.len(),
{
    if ops.len() == 0 {
        0
    } else if ops[0] is DeletePrefix {
        1 + prefix_ops_count(ops.skip(1))
    } else {
        prefix_ops_count(ops.skip(1))
    }
}

/// The prefix of the `e`-th prefix delete of a batch.
pub open spec fn nth_prefix(ops: Seq<WriteOperation>, e: int) -> Seq<u8>
    decreases ops.len(),
{
    if ops.len() == 0 {
        Seq::empty()
    } else {
        match ops[0] {
            WriteOperation::DeletePrefix { key_prefix } => if e == 0 {
                key_prefix@
            } else {
                nth_prefix(ops.skip(1), e - 1)
            },
            _ => nth_prefix(ops.skip(1), e),
        }
    }
}

/// The prefix delete at position `j` is the `prefix_ops_count(take(j))`-th
/// prefix delete of the batch; and the count steps by one exactly there.
pub proof fn lemma_nth_prefix_at(ops: Seq<WriteOperation>, j: int)
    requires
        0 <= j < ops.len(),
    ensures
        ops[j] matches WriteOperation::DeletePrefix { key_prefix } ==> nth_prefix(
            ops,
            prefix_ops_count(ops.take(j)) as int,
        ) == key_prefix@ && prefix_ops_count(ops.take(j + 1)) == prefix_ops_count(ops.take(j)) + 1,
        !(ops[j] is DeletePrefix) ==> prefix_ops_count(ops.take(j + 1)) == prefix_ops_count(
            ops.take(j),
        ),
    decreases j,
{
    if j == 0 {
        assert(ops.take(0) =~= Seq::<WriteOperation>::empty());
        assert(prefix_ops_count(ops.take(0)) == 0);
        assert(ops.take(1)[0] == ops[0]);
        assert(ops.take(1).skip(1) =~= Seq::<WriteOperation>::empty());
    } else {
        lemma_nth_prefix_at(ops.skip(1), j - 1);
        assert(ops.skip(1)[j - 1] == ops[j]);
        assert(ops.take(j)[0] == ops[0]);
        assert(ops.take(j).skip(1) =~= ops.skip(1).take(j - 1));
        assert(ops.take(j + 1)[0] == ops[0]);
        assert(ops.take(j + 1).skip(1) =~= ops.skip(1).take(j));
    }
}

/// The interpretation of a normalization outcome against a prior binding.
pub open spec fn interp_outcome(
    cur: Option<Option<Seq<u8>>>,
    prior: Option<Seq<u8>>,
) -> Option<Seq<u8>> {
    match cur {
        None => prior,
        Some(None) => None,
        Some(Some(v)) => Some(v),
    }
}

/// When each expansion holds exactly the live keys under its prefix,
/// normalization computes, on every key, exactly the direct effect of the
/// batch on the store.
pub proof fn lemma_norm_vs_direct(
    ops: Seq<WriteOperation>,
    exps: Seq<Vec<Vec<u8>>>,
    k: Seq<u8>,
    prior: Option<Seq<u8>>,
    cur: Option<Option<Seq<u8>>>,
)
    requires
        exps.len() == prefix_ops_count(ops),
        forall|e: int|
            0 <= e < exps.len() ==> (#[trigger] keys_contain(exps[e]@, k) <==> (prior is Some
                && nth_prefix(ops, e).is_prefix_of(k))),
    ensures
        interp_outcome(norm_outcome(ops, exps, cur, k), prior) == batch_effect_key(
            ops,
            interp_outcome(cur, prior),
            k,
        ),
    decreases ops.len(),
{
    if ops.len() > 0 {
        assert(ops.skip(1).len() == ops.len() - 1);
        match ops[0] {
            WriteOperation::DeletePrefix { key_prefix } => {
                assert(exps.len() > 0);
                assert(nth_prefix(ops, 0) == key_prefix@);
                assert(exps.skip(1).len() == prefix_ops_count(ops.skip(1)));
                assert(forall|e: int|
                    0 <= e < exps.skip(1).len() ==> #[trigger] exps.skip(1)[e] == exps[e + 1]
                        && nth_prefix(ops.skip(1), e) == nth_prefix(ops, e + 1));
                let stepped = norm_step(cur, ops[0], exps[0]@, k);
                lemma_norm_vs_direct(ops.skip(1), exps.skip(1), k, prior, stepped);
                assert(keys_contain(exps[0]@, k) <==> (prior is Some && key_prefix@.is_prefix_of(
                    k,
                )));
            },
            _ => {
                assert(forall|e: int|
                    0 <= e < exps.len() ==> nth_prefix(ops.skip(1), e) == nth_prefix(ops, e));
                let stepped = norm_step(cur, ops[0], Seq::<Vec<u8>>::empty(), k);
                lemma_norm_vs_direct(ops.skip(1), exps, k, prior, stepped);
            },
        }
    }
}

/// The direct effect of the remaining operations of a batch on one key.
pub open spec fn batch_effect_key(
    ops: Seq<WriteOperation>,
    prior: Option<Seq<u8>>,
    k: Seq<u8>,
) -> Option<Seq<u8>>
    decreases ops.len(),
{
    if ops.len() == 0 {
        prior
    } else {
        let stepped = match ops[0] {
            WriteOperation::Delete { key } => if key@ == k {
                None
            } else {
                prior
            },
            WriteOperation::Put { key, value } => if key@ == k {
                Some(value@)
            } else {
                prior
            },
            WriteOperation::DeletePrefix { key_prefix } => if key_prefix@.is_prefix_of(k) {
                None
            } else {
                prior
            },
        };
        batch_effect_key(ops.skip(1), stepped, k)
    }
}

/// A key named by no operation and listed in no expansion is untouched by
/// normalization.
pub proof fn lemma_norm_outcome_untouched(
    ops: Seq<WriteOperation>,
    exps: Seq<Vec<Vec<u8>>>,
    k: Seq<u8>,
)
    requires
        exps.len() == prefix_ops_count(ops),
        forall|j: int|
            0 <= j < ops.len() ==> (match #[trigger] ops[j] {
                WriteOperation::Delete { key } => key@ != k,
                WriteOperation::Put { key, .. } => key@ != k,
                WriteOperation::DeletePrefix { .. } => true,
            }),
        forall|e: int| 0 <= e < exps.len() ==> !(#[trigger] keys_contain(exps[e]@, k)),
    ensures
        norm_outcome(ops, exps, None::<Option<Seq<u8>>>, k) is None,
    decreases ops.len(),
{
    if ops.len() > 0 {
        assert(forall|j: int| 0 <= j < ops.skip(1).len() ==> #[trigger] ops.skip(1)[j] == ops[j
            + 1]);
        if ops[0] is DeletePrefix {
            assert(forall|e: int|
                0 <= e < exps.skip(1).len() ==> #[trigger] exps.skip(1)[e] == exps[e + 1]);
            assert(norm_step(None::<Option<Seq<u8>>>, ops[0], exps[0]@, k) is None) by {
                if 0 < exps.len() {
                    assert(!keys_contain(exps[0]@, k));
                }
            }
            lemma_norm_outcome_untouched(ops.skip(1), exps.skip(1), k);
        } else {
            assert(norm_step(None::<Option<Seq<u8>>>, ops[0], Seq::<Vec<u8>>::empty(), k) is None);
            lemma_norm_outcome_untouched(ops.skip(1), exps, k);
        }
    }
}

/// The effect of one block on one key.
pub open spec fn block_apply(b: DynamoDbBatch, prior: Option<Seq<u8>>, k: Seq<u8>) -> Option<
    Seq<u8>,
> {
    match insertions_lookup(b.0.insertions@, k) {
        Some(v) => Some(v),
        None => if keys_contain(b.0.deletions@, k) {
            None
        } else {
            prior
        },
    }
}

/// The persisted shape of a journal some of whose entries may have been
/// lost (storage corruption): the header counts the blocks, and each block
/// entry either stores its payload or is missing.
pub open spec fn journal_state_partial(
    db: MemoryStore,
    base: Seq<u8>,
    blocks: Seq<DynamoDbBatch>,
) -> bool {
    &&& journal_blocks_wf(base, blocks)
    &&& db.lookup(journal_header_key_spec(base)) == Some(le_u32_bytes(blocks.len() as u32))
    &&& forall|bi: int|
        0 <= bi < blocks.len() ==> (db.lookup(#[trigger] journal_entry_key_spec(base, bi as u32))
            == Some(block_payload(blocks[bi])) || db.lookup(
            journal_entry_key_spec(base, bi as u32),
        ) is None)
}

/// The binding replay leaves on one key: the blocks applied from the last
/// one backwards, as the reverse-order drain commits them.
pub open spec fn blocks_rev_fold(
    blocks: Seq<DynamoDbBatch>,
    k: Seq<u8>,
    prior: Option<Seq<u8>>,
) -> Option<Seq<u8>>
    decreases blocks.len(),
{
    if blocks.len() == 0 {
        prior
    } else {
        block_apply(blocks[0], blocks_rev_fold(blocks.skip(1), k, prior), k)
    }
}

/// Splitting an insertion lookup at a boundary.
pub proof fn lemma_ins_lookup_split(ins: Seq<(Vec<u8>, Vec<u8>)>, m: int, k: Seq<u8>)
    requires
        0 <= m <= ins.len(),
    ensures
        insertions_lookup(ins, k) == (if insertions_lookup(ins.take(m), k) is Some {
            insertions_lookup(ins.take(m), k)
        } else {
            insertions_lookup(ins.skip(m), k)
        }),
    decreases m,
{
    if m == 0 {
        assert(ins.take(0) =~= Seq::<(Vec<u8>, Vec<u8>)>::empty());
        assert(ins.skip(0) =~= ins);
    } else {
        assert(ins.take(m)[0] == ins[0]);
        if ins[0].0@ == k {
        } else {
            assert(ins.take(m).skip(1) =~= ins.skip(1).take(m - 1));
            assert(ins.skip(m) =~= ins.skip(1).skip(m - 1));
            lemma_ins_lookup_split(ins.skip(1), m - 1, k);
        }
    }
}

/// Applying the blocks of a chunked batch in reverse order leaves, on every
/// key, exactly the flat batch's effect.
pub proof fn lemma_rev_fold_flat(
    blocks: Seq<DynamoDbBatch>,
    dels: Seq<Vec<u8>>,
    ins: Seq<(Vec<u8>, Vec<u8>)>,
    k: Seq<u8>,
    prior: Option<Seq<u8>>,
)
    requires
        blocks_dels(blocks) == key_dv(dels),
        blocks_ins(blocks) == kv_dv(ins),
        dels_wf(dels),
        ins_wf(ins),
        forall|k2: Seq<u8>|
            !(#[trigger] keys_contain(dels, k2) && insertions_lookup(ins, k2) is Some),
    ensures
        blocks_rev_fold(blocks, k, prior) == interp_outcome(flat_outcome(dels, ins, k), prior),
    decreases blocks.len(),
{
    if blocks.len() == 0 {
        assert(key_dv(dels).len() == 0 && kv_dv(ins).len() == 0);
        assert(insertions_lookup(ins, k) is None);
        if keys_contain(dels, k) {
            let i = choose|i: int| 0 <= i < dels.len() && dels[i]@ == k;
            assert(false);
        }
    } else {
        let h = blocks[0];
        let nd0 = h.0.deletions@.len() as int;
        let m0 = h.0.insertions@.len() as int;
        assert(key_dv(h.0.deletions@) + blocks_dels(blocks.skip(1)) == key_dv(dels));
        assert(kv_dv(h.0.insertions@) + blocks_ins(blocks.skip(1)) == kv_dv(ins));
        assert(nd0 <= dels.len() && m0 <= ins.len());
        assert(key_dv(h.0.deletions@) =~= key_dv(dels).take(nd0));
        assert(blocks_dels(blocks.skip(1)) =~= key_dv(dels).skip(nd0));
        assert(kv_dv(h.0.insertions@) =~= kv_dv(ins).take(m0));
        assert(blocks_ins(blocks.skip(1)) =~= kv_dv(ins).skip(m0));
        assert(key_dv(dels.skip(nd0)) =~= key_dv(dels).skip(nd0));
        assert(kv_dv(ins.skip(m0)) =~= kv_dv(ins).skip(m0));
        assert(forall|l: int|
            0 <= l < dels.skip(nd0).len() ==> #[trigger] dels.skip(nd0)[l] == dels[l + nd0]);
        assert(forall|l: int|
            0 <= l < ins.skip(m0).len() ==> #[trigger] ins.skip(m0)[l] == ins[l + m0]);
        assert(dels_wf(dels.skip(nd0)) && ins_wf(ins.skip(m0)));
        assert forall|k2: Seq<u8>|
            !(#[trigger] keys_contain(dels.skip(nd0), k2) && insertions_lookup(
                ins.skip(m0),
                k2,
            ) is Some) by {
            if keys_contain(dels.skip(nd0), k2) && insertions_lookup(ins.skip(m0), k2) is Some {
                let i = choose|i: int| 0 <= i < dels.skip(nd0).len() && dels.skip(nd0)[i]@ == k2;
                assert(dels[i + nd0]@ == k2);
                assert(keys_contain(dels, k2));
                lemma_insertions_lookup_index(ins.skip(m0), k2);
                let l = choose|l: int|
                    0 <= l < ins.skip(m0).len() && (#[trigger] ins.skip(m0)[l]).0@ == k2;
                assert(ins[l + m0].0@ == k2);
                lemma_insertions_lookup_at(ins, l + m0);
            }
        }
        lemma_rev_fold_flat(blocks.skip(1), dels.skip(nd0), ins.skip(m0), k, prior);
        assert(keys_contain(h.0.deletions@, k) == keys_contain(dels.take(nd0), k)) by {
            if keys_contain(h.0.deletions@, k) {
                let i = choose|i: int| 0 <= i < h.0.deletions@.len() && h.0.deletions@[i]@ == k;
                assert(key_dv(h.0.deletions@)[i] == key_dv(dels).take(nd0)[i]);
                assert(dels[i]@ == k);
                assert(dels.take(nd0)[i]@ == k);
            }
            if keys_contain(dels.take(nd0), k) {
                let i = choose|i: int| 0 <= i < dels.take(nd0).len() && dels.take(nd0)[i]@ == k;
                assert(key_dv(h.0.deletions@)[i] == key_dv(dels).take(nd0)[i]);
                assert(h.0.deletions@[i]@ == k);
            }
        }
        assert(insertions_lookup(h.0.insertions@, k) == insertions_lookup(ins.take(m0), k)) by {
            lemma_ins_lookup_dv(h.0.insertions@, k);
            lemma_ins_lookup_dv(ins.take(m0), k);
            assert(kv_dv(ins.take(m0)) =~= kv_dv(ins).take(m0));
        }
        lemma_ins_lookup_split(ins, m0, k);
        assert(keys_contain(dels, k) == (keys_contain(dels.take(nd0), k) || keys_contain(
            dels.skip(nd0),
            k,
        ))) by {
            if keys_contain(dels, k) {
                let i = choose|i: int| 0 <= i < dels.len() && dels[i]@ == k;
                if i < nd0 {
                    assert(dels.take(nd0)[i]@ == k);
                } else {
                    assert(dels.skip(nd0)[i - nd0]@ == k);
                }
            }
            if keys_contain(dels.take(nd0), k) {
                let i = choose|i: int| 0 <= i < dels.take(nd0).len() && dels.take(nd0)[i]@ == k;
                assert(dels[i]@ == k);
            }
            if keys_contain(dels.skip(nd0), k) {
                let i = choose|i: int| 0 <= i < dels.skip(nd0).len() && dels.skip(nd0)[i]@ == k;
                assert(dels[i + nd0]@ == k);
            }
        }
    }
}

/// Every block of a chunked batch inherits well-formedness from the flat
/// batch it was cut from.
pub proof fn lemma_blocks_wf_inherit(
    base: Seq<u8>,
    blocks: Seq<DynamoDbBatch>,
    dels: Seq<Vec<u8>>,
    ins: Seq<(Vec<u8>, Vec<u8>)>,
)
    requires
        blocks_dels(blocks) == key_dv(dels),
        blocks_ins(blocks) == kv_dv(ins),
        dels_wf(dels),
        ins_wf(ins),
        forall|k2: Seq<u8>|
            !(#[trigger] keys_contain(dels, k2) && insertions_lookup(ins, k2) is Some),
        forall|i: int| 0 <= i < dels.len() ==> !in_journal_namespace(base, (#[trigger] dels[i])@),
        forall|i: int| 0 <= i < ins.len() ==> !in_journal_namespace(base, (#[trigger] ins[i]).0@),
    ensures
        forall|bi: int|
            0 <= bi < blocks.len() ==> {
                let b = #[trigger] blocks[bi];
                &&& dels_wf(b.0.deletions@)
                &&& ins_wf(b.0.insertions@)
                &&& (forall|k2: Seq<u8>|
                    !(#[trigger] keys_contain(b.0.deletions@, k2) && insertions_lookup(
                        b.0.insertions@,
                        k2,
                    ) is Some))
                &&& (forall|k2: Seq<u8>|
                    #[trigger] block_touches(b, k2) ==> !in_journal_namespace(base, k2))
            },
    decreases blocks.len(),
{
    if blocks.len() > 0 {
        let h = blocks[0];
        let nd0 = h.0.deletions@.len() as int;
        let m0 = h.0.insertions@.len() as int;
        assert(key_dv(h.0.deletions@) + blocks_dels(blocks.skip(1)) == key_dv(dels));
        assert(kv_dv(h.0.insertions@) + blocks_ins(blocks.skip(1)) == kv_dv(ins));
        assert(nd0 <= dels.len() && m0 <= ins.len());
        assert(key_dv(h.0.deletions@) =~= key_dv(dels).take(nd0));
        assert(blocks_dels(blocks.skip(1)) =~= key_dv(dels).skip(nd0));
        assert(kv_dv(h.0.insertions@) =~= kv_dv(ins).take(m0));
        assert(blocks_ins(blocks.skip(1)) =~= kv_dv(ins).skip(m0));
        assert(key_dv(dels.skip(nd0)) =~= key_dv(dels).skip(nd0));
        assert(kv_dv(ins.skip(m0)) =~= kv_dv(ins).skip(m0));
        assert(forall|l: int|
            0 <= l < dels.skip(nd0).len() ==> #[trigger] dels.skip(nd0)[l] == dels[l + nd0]);
        assert(forall|l: int|
            0 <= l < ins.skip(m0).len() ==> #[trigger] ins.skip(m0)[l] == ins[l + m0]);
        assert forall|k2: Seq<u8>|
            !(#[trigger] keys_contain(dels.skip(nd0), k2) && insertions_lookup(
                ins.skip(m0),
                k2,
            ) is Some) by {
            if keys_contain(dels.skip(nd0), k2) && insertions_lookup(ins.skip(m0), k2) is Some {
                let i = choose|i: int| 0 <= i < dels.skip(nd0).len() && dels.skip(nd0)[i]@ == k2;
                assert(dels[i + nd0]@ == k2);
                assert(keys_contain(dels, k2));
                lemma_insertions_lookup_index(ins.skip(m0), k2);
                let l = choose|l: int|
                    0 <= l < ins.skip(m0).len() && (#[trigger] ins.skip(m0)[l]).0@ == k2;
                assert(ins[l + m0].0@ == k2);
                lemma_insertions_lookup_at(ins, l + m0);
            }
        }
        lemma_blocks_wf_inherit(base, blocks.skip(1), dels.skip(nd0), ins.skip(m0));
        assert(dels_wf(h.0.deletions@)) by {
            assert(forall|i: int|
                0 <= i < nd0 ==> (#[trigger] h.0.deletions@[i])@ == key_dv(dels).take(nd0)[i]
                    && dels[i]@ == key_dv(dels)[i]);
        }
        assert forall|i: int| 0 <= i < m0 implies ((#[trigger] h.0.insertions@[i]).0@ == ins[i].0@
            && h.0.insertions@[i].1@ == ins[i].1@) by {
            assert(kv_dv(h.0.insertions@)[i] == (h.0.insertions@[i].0@, h.0.insertions@[i].1@));
            assert(kv_dv(h.0.insertions@)[i] == kv_dv(ins).take(m0)[i]);
            assert(kv_dv(ins).take(m0)[i] == kv_dv(ins)[i]);
            assert(kv_dv(ins)[i] == (ins[i].0@, ins[i].1@));
        }
        assert(ins_wf(h.0.insertions@));
        assert forall|k2: Seq<u8>| #[trigger] block_touches(h, k2) implies !in_journal_namespace(
            base,
            k2,
        ) by {
            if keys_contain(h.0.deletions@, k2) {
                let i = choose|i: int| 0 <= i < h.0.deletions@.len() && h.0.deletions@[i]@ == k2;
                assert(key_dv(h.0.deletions@)[i] == key_dv(dels).take(nd0)[i]);
                assert(dels[i]@ == k2);
            }
            if insertions_lookup(h.0.insertions@, k2) is Some {
                lemma_insertions_lookup_index(h.0.insertions@, k2);
                let i = choose|i: int|
                    0 <= i < h.0.insertions@.len() && (#[trigger] h.0.insertions@[i]).0@ == k2;
                assert(kv_dv(h.0.insertions@)[i] == kv_dv(ins).take(m0)[i]);
                assert(ins[i].0@ == k2);
            }
        }
        assert forall|k2: Seq<u8>|
            !(#[trigger] keys_contain(h.0.deletions@, k2) && insertions_lookup(
                h.0.insertions@,
                k2,
            ) is Some) by {
            if keys_contain(h.0.deletions@, k2) && insertions_lookup(h.0.insertions@, k2) is Some {
                let i = choose|i: int| 0 <= i < h.0.deletions@.len() && h.0.deletions@[i]@ == k2;
                assert(key_dv(h.0.deletions@)[i] == key_dv(dels).take(nd0)[i]);
                assert(key_dv(dels).take(nd0)[i] == key_dv(dels)[i]);
                assert(dels[i]@ == k2);
                assert(keys_contain(dels, k2));
                lemma_insertions_lookup_index(h.0.insertions@, k2);
                let l = choose|l: int|
                    0 <= l < h.0.insertions@.len() && (#[trigger] h.0.insertions@[l]).0@ == k2;
                assert(h.0.insertions@[l].0@ == ins[l].0@);
                lemma_insertions_lookup_at(ins, l);
            }
        }
        assert(forall|bi: int|
            1 <= bi < blocks.len() ==> #[trigger] blocks[bi] == blocks.skip(1)[bi - 1]);
    }
}


/// Journal keys never collide: the header key and the entry keys differ,
/// and entry keys of distinct positions differ.
pub proof fn lemma_journal_keys_distinct(base: Seq<u8>, b1: u32, b2: u32)
    ensures
        journal_header_key_spec(base) != journal_entry_key_spec(base, b1),
        b1 != b2 ==> journal_entry_key_spec(base, b1) != journal_entry_key_spec(base, b2),
{
    assert(journal_header_key_spec(base).len() == base.len() + 2);
    assert(journal_entry_key_spec(base, b1).len() == base.len() + 6);
    if b1 != b2 && journal_entry_key_spec(base, b1) == journal_entry_key_spec(base, b2) {
        let k1 = journal_entry_key_spec(base, b1);
        let k2 = journal_entry_key_spec(base, b2);
        let p = base.len() as int + 2;
        assert(k1[p] == ((b1 >> 24) & 0xff) as u8 && k1[p + 1] == ((b1 >> 16) & 0xff) as u8
            && k1[p + 2] == ((b1 >> 8) & 0xff) as u8 && k1[p + 3] == (b1 & 0xff) as u8);
        assert(k2[p] == ((b2 >> 24) & 0xff) as u8 && k2[p + 1] == ((b2 >> 16) & 0xff) as u8
            && k2[p + 2] == ((b2 >> 8) & 0xff) as u8 && k2[p + 3] == (b2 & 0xff) as u8);
        assert(b1 == b2) by (bit_vector)
            requires
                ((b1 >> 24) & 0xff) as u8 == ((b2 >> 24) & 0xff) as u8,
                ((b1 >> 16) & 0xff) as u8 == ((b2 >> 16) & 0xff) as u8,
                ((b1 >> 8) & 0xff) as u8 == ((b2 >> 8) & 0xff) as u8,
                (b1 & 0xff) as u8 == (b2 & 0xff) as u8,
        ;
    }
}

/// Journal keys lie in the journal namespace of their region.
pub proof fn lemma_journal_keys_in_namespace(base: Seq<u8>, b1: u32)
    ensures
        in_journal_namespace(base, journal_header_key_spec(base)),
        in_journal_namespace(base, journal_entry_key_spec(base, b1)),
{
    let ghost m = base.len() as int + 1;
    assert(base.push(crate::JOURNAL_TAG) =~= journal_header_key_spec(base).subrange(0, m));
    assert(base.push(crate::JOURNAL_TAG) =~= journal_entry_key_spec(base, b1).subrange(0, m));
}

/// Lists with the same key views agree on containment, lookups and
/// well-formedness.
pub proof fn lemma_same_dv_dels(a: Seq<Vec<u8>>, b: Seq<Vec<u8>>)
    requires
        key_dv(a) == key_dv(b),
    ensures
        a.len() == b.len(),
        dels_wf(a) == dels_wf(b),
        forall|k: Seq<u8>| #[trigger] keys_contain(a, k) == keys_contain(b, k),
{
    assert(key_dv(a).len() == a.len());
    assert(key_dv(b).len() == b.len());
    assert forall|i: int| 0 <= i < a.len() implies (#[trigger] a[i])@ == b[i]@ by {
        assert(key_dv(a)[i] == a[i]@);
        assert(key_dv(b)[i] == b[i]@);
    }
    assert forall|k: Seq<u8>| #[trigger] keys_contain(a, k) == keys_contain(b, k) by {
        if keys_contain(a, k) {
            let i = choose|i: int| 0 <= i < a.len() && a[i]@ == k;
            assert(b[i]@ == k);
        }
        if keys_contain(b, k) {
            let i = choose|i: int| 0 <= i < b.len() && b[i]@ == k;
            assert(a[i]@ == k);
        }
    }
    if dels_wf(a) {
        assert forall|i: int, j: int| 0 <= i < j < b.len() implies (#[trigger] b[i])@ != (
        #[trigger] b[j])@ by {
            assert(a[i]@ != a[j]@);
        }
        assert forall|i: int| 0 <= i < b.len() implies ((#[trigger] b[i])@).len() > 0 by {
            assert(a[i]@.len() > 0);
        }
    }
    if dels_wf(b) {
        assert forall|i: int, j: int| 0 <= i < j < a.len() implies (#[trigger] a[i])@ != (
        #[trigger] a[j])@ by {
            assert(b[i]@ != b[j]@);
        }
        assert forall|i: int| 0 <= i < a.len() implies ((#[trigger] a[i])@).len() > 0 by {
            assert(b[i]@.len() > 0);
        }
    }
}

/// Pair lists with the same views agree on lookups and well-formedness.
pub proof fn lemma_same_dv_ins(a: Seq<(Vec<u8>, Vec<u8>)>, b: Seq<(Vec<u8>, Vec<u8>)>)
    requires
        kv_dv(a) == kv_dv(b),
    ensures
        a.len() == b.len(),
        ins_wf(a) == ins_wf(b),
        forall|k: Seq<u8>| #[trigger] insertions_lookup(a, k) == insertions_lookup(b, k),
{
    assert(kv_dv(a).len() == a.len());
    assert(kv_dv(b).len() == b.len());
    assert forall|i: int| 0 <= i < a.len() implies (#[trigger] a[i]).0@ == b[i].0@ && a[i].1@
        == b[i].1@ by {
        assert(kv_dv(a)[i] == (a[i].0@, a[i].1@));
        assert(kv_dv(b)[i] == (b[i].0@, b[i].1@));
    }
    assert forall|k: Seq<u8>| #[trigger] insertions_lookup(a, k) == insertions_lookup(b, k) by {
        lemma_ins_lookup_dv(a, k);
        lemma_ins_lookup_dv(b, k);
    }
    if ins_wf(a) {
        assert forall|i: int, j: int| 0 <= i < j < b.len() implies (#[trigger] b[i]).0@ != (
        #[trigger] b[j]).0@ by {
            assert(a[i].0@ != a[j].0@);
        }
        assert forall|i: int| 0 <= i < b.len() implies ((#[trigger] b[i]).0@.len() > 0
            && b[i].1@.len() <= MAX_VALUE_BYTES) by {
            assert(a[i].0@.len() > 0 && a[i].1@.len() <= MAX_VALUE_BYTES);
        }
    }
    if ins_wf(b) {
        assert forall|i: int, j: int| 0 <= i < j < a.len() implies (#[trigger] a[i]).0@ != (
        #[trigger] a[j]).0@ by {
            assert(b[i].0@ != b[j].0@);
        }
        assert forall|i: int| 0 <= i < a.len() implies ((#[trigger] a[i]).0@.len() > 0
            && a[i].1@.len() <= MAX_VALUE_BYTES) by {
            assert(b[i].0@.len() > 0 && b[i].1@.len() <= MAX_VALUE_BYTES);
        }
    }
}

impl MemoryStore {
    /// Stores one key/value pair through a single-operation transaction, so
    /// that it is durable on its own.
    pub fn write_single_key_value(&mut self, key: Vec<u8>, value: Vec<u8>) -> (r: Result<
        (),
        DynamoDbContextError,
    >)
        requires
            old(self).wf(),
        ensures
            final(self).wf(),
            match r {
                Ok(_) => key@.len() > 0 && value@.len() <= MAX_VALUE_BYTES && (forall|k: Seq<u8>|
                    #[trigger] final(self).lookup(k) == (if k == key@ {
                        Some(value@)
                    } else {
                        old(self).lookup(k)
                    })),
                Err(e) => *final(self) == *old(self) && (if key@.len() == 0 {
                    e is ZeroLengthKey
                } else {
                    value@.len() > MAX_VALUE_BYTES && e is ValueLengthTooLarge
                }),
            },
    {
        let ghost keyv = key@;
        let ghost valuev = value@;
        let mut tb = TransactionBuilder::new();
        match tb.insert_put_request(key, value) {
            Ok(_) => {},
            Err(e) => {
                return Err(e);
            },
        }
        proof {
            assert(tb.transacts@.len() == 1);
            assert(tb.transacts@[0] matches TransactOperation::Put { key: k2, value: v2 } && k2@
                == keyv && v2@ == valuev);
        }
        let r = tb.submit(self);
        proof {
            assert(r is Ok);
            assert forall|k: Seq<u8>|
                #[trigger] self.lookup(k) == (if k == keyv {
                    Some(valuev)
                } else {
                    old(self).lookup(k)
                }) by {
                assert(tb.transacts@.skip(1) =~= Seq::<TransactOperation>::empty());
                let stepped: Option<Seq<u8>> = if k == keyv {
                    Some(valuev)
                } else {
                    old(self).lookup(k)
                };
                assert(txn_lookup(Seq::<TransactOperation>::empty(), stepped, k) == stepped);
                assert(txn_lookup(tb.transacts@, old(self).lookup(k), k) == stepped);
                assert(self.lookup(k) == txn_lookup(tb.transacts@, old(self).lookup(k), k));
            }
        }
        r
    }
}

impl DynamoDbBatch {
    /// Appends the header update that rides with one replay transaction: a
    /// put of the new header while blocks remain, a delete of the header
    /// when the last block drains.
    pub fn add_journal_header_operations(
        transact_builder: &mut TransactionBuilder,
        header: &JournalHeader,
        base_key: &[u8],
    ) -> (r: Result<(), DynamoDbContextError>)
        ensures
            r is Ok,
            final(transact_builder).transacts@.len() == old(transact_builder).transacts@.len() + 1,
            forall|l: int|
                0 <= l < old(transact_builder).transacts@.len()
                    ==> #[trigger] final(transact_builder).transacts@[l] == old(
                    transact_builder,
                ).transacts@[l],
            final(transact_builder).transacts@.last() == (if header.block_count > 0 {
                (TransactOperation::Put {
                    key: final(transact_builder).transacts@.last()->Put_key,
                    value: final(transact_builder).transacts@.last()->Put_value,
                })
            } else {
                (TransactOperation::Delete {
                    key: final(transact_builder).transacts@.last()->Delete_key,
                })
            }),
            header.block_count > 0 ==> (final(transact_builder).transacts@.last() matches
                TransactOperation::Put { key, value } && key@ == journal_header_key_spec(base_key@)
                && value@ == le_u32_bytes(header.block_count)),
            header.block_count == 0 ==> (final(transact_builder).transacts@.last() matches
                TransactOperation::Delete { key } && key@ == journal_header_key_spec(base_key@)),
    {
        let key = journal_header_key(base_key);
        proof {
            assert(key@.len() == base_key@.len() + 2);
        }
        if header.block_count > 0 {
            let value = header.encode();
            let r = transact_builder.insert_put_request(key, value);
            match r {
                Ok(_) => Ok(()),
                Err(e) => {
                    proof {
                        assert(false);
                    }
                    Err(e)
                },
            }
        } else {
            let r = transact_builder.insert_delete_request(key);
            match r {
                Ok(_) => Ok(()),
                Err(e) => {
                    proof {
                        assert(false);
                    }
                    Err(e)
                },
            }
        }
    }

    /// Chunks the batch into blocks and persists them, each block durable on
    /// its own, then writes the header last: the header's appearance is the
    /// atomic commit point that arms replay.
    pub fn write_journal(self, db: &mut MemoryStore, base_key: &[u8]) -> (r: Result<
        JournalHeader,
        DynamoDbContextError,
    >)
        requires
            old(db).wf(),
            dels_wf(self.0.deletions@),
            ins_wf(self.0.insertions@),
            forall|k: Seq<u8>|
                !(#[trigger] keys_contain(self.0.deletions@, k) && insertions_lookup(
                    self.0.insertions@,
                    k,
                ) is Some),
            forall|i: int|
                0 <= i < self.0.deletions@.len() ==> !in_journal_namespace(
                    base_key@,
                    (#[trigger] self.0.deletions@[i])@,
                ),
            forall|i: int|
                0 <= i < self.0.insertions@.len() ==> !in_journal_namespace(
                    base_key@,
                    (#[trigger] self.0.insertions@[i]).0@,
                ),
            forall|k: Seq<u8>|
                in_journal_namespace(base_key@, k) ==> #[trigger] old(db).lookup(k) is None,
            self.0.deletions@.len() + self.0.insertions@.len() <= usize::MAX,
        ensures
            final(db).wf(),
            forall|k: Seq<u8>|
                !in_journal_namespace(base_key@, k) ==> #[trigger] final(db).lookup(k) == old(
                    db,
                ).lookup(k),
            match r {
                Ok(h) => (h.block_count > 0 ==> exists|blocks: Seq<DynamoDbBatch>|
                    #[trigger] journal_state(*final(db), base_key@, blocks) && blocks_dels(blocks)
                        == key_dv(self.0.deletions@) && blocks_ins(blocks) == kv_dv(
                        self.0.insertions@,
                    ) && h.block_count == blocks.len() && (all_op_sizes_bounded(&self)
                        ==> forall|bi: int|
                        0 <= bi < blocks.len() ==> block_size(#[trigger] blocks[bi])
                            <= MAX_BATCH_WRITE_ITEM_BYTES)) && (h.block_count == 0
                    ==> self.0.deletions@.len() + self.0.insertions@.len() == 0 && (forall|
                        k: Seq<u8>,
                    |
                        #[trigger] final(db).lookup(k) == old(db).lookup(k))) && (
                    self.0.deletions@.len() + self.0.insertions@.len() > 0 ==> h.block_count > 0),
                Err(e) => e is ValueLengthTooLarge || e is BcsError,
            },
            r is Ok ==> forall|k: Seq<u8>|
                in_journal_namespace(base_key@, k) && k != journal_header_key_spec(base_key@) && !(
                exists|bi: int|
                    0 <= bi < (r->Ok_0).block_count && k == #[trigger] journal_entry_key_spec(
                        base_key@,
                        bi as u32,
                    )) ==> #[trigger] final(db).lookup(k) is None,
            (journal_writable(self.0.deletions@, self.0.insertions@) && self.0.deletions@.len()
                + self.0.insertions@.len() <= u32::MAX) ==> r is Ok,
    {
        let ghost base = base_key@;
        let ghost writable = journal_writable(self.0.deletions@, self.0.insertions@)
            && self.0.deletions@.len() + self.0.insertions@.len() <= u32::MAX;
        let blocks = self.plan_blocks();
        proof {
            lemma_blocks_wf_inherit(base, blocks@, self.0.deletions@, self.0.insertions@);
        }
        let n = blocks.len();
        if n > 4294967295 {
            proof {
                assert(n <= self.0.deletions@.len() + self.0.insertions@.len());
                assert(!writable);
            }
            return Err(DynamoDbContextError::BcsError);
        }
        for i in 0..n
            invariant
                db.wf(),
                n == blocks@.len(),
                n <= u32::MAX,
                base == base_key@,
                writable == (journal_writable(self.0.deletions@, self.0.insertions@)
                    && self.0.deletions@.len() + self.0.insertions@.len() <= u32::MAX),
                blocks_dels(blocks@) == key_dv(self.0.deletions@),
                blocks_ins(blocks@) == kv_dv(self.0.insertions@),
                forall|bi: int|
                    0 <= bi < blocks@.len() ==> 1 <= block_op_count(#[trigger] blocks@[bi])
                        <= MAX_TRANSACT_WRITE_ITEM_SIZE - 2,
                forall|k: Seq<u8>|
                    !in_journal_namespace(base, k) ==> #[trigger] db.lookup(k) == old(db).lookup(
                        k,
                    ),
                forall|bi: int|
                    0 <= bi < i ==> db.lookup(journal_entry_key_spec(base, bi as u32)) == Some(
                        block_payload(#[trigger] blocks@[bi]),
                    ),
                forall|k: Seq<u8>|
                    in_journal_namespace(base, k) && !(exists|bi: int|
                        0 <= bi < i && k == #[trigger] journal_entry_key_spec(base, bi as u32))
                        ==> #[trigger] db.lookup(k) is None,
        {
            proof {
                if writable {
                    lemma_block_is_subrange(blocks@, self.0.deletions@, self.0.insertions@, i as int);
                }
            }
            let ghost bd = blocks@[i as int].0.deletions@;
            let ghost bins = blocks@[i as int].0.insertions@;
            let ghost spans = choose|a: int, c: int|
                #![trigger key_dv(self.0.deletions@).subrange(a, a + bd.len()),
                    kv_dv(self.0.insertions@).subrange(c, c + bins.len())]
                {
                    &&& 0 <= a
                    &&& 0 <= c
                    &&& a + bd.len() <= self.0.deletions@.len()
                    &&& c + bins.len() <= self.0.insertions@.len()
                    &&& key_dv(bd) == key_dv(self.0.deletions@).subrange(a, a + bd.len())
                    &&& kv_dv(bins) == kv_dv(self.0.insertions@).subrange(c, c + bins.len())
                };
            proof {
                if writable {
                    assert(codec_sizes_ok(key_dv(bd), kv_dv(bins))) by {
                        assert(key_dv(bd).len() <= MAX_TRANSACT_WRITE_ITEM_SIZE - 2);
                        assert forall|l: int| 0 <= l < key_dv(bd).len() implies (
                        #[trigger] key_dv(bd)[l]).len() <= MAX_CODEC_SEQUENCE_LENGTH by {
                            assert(key_dv(bd)[l] == key_dv(self.0.deletions@)[spans.0 + l]);
                            assert(key_dv(self.0.deletions@)[spans.0 + l]
                                == self.0.deletions@[spans.0 + l]@);
                        }
                        assert forall|l: int| 0 <= l < kv_dv(bins).len() implies (
                        #[trigger] kv_dv(bins)[l]).0.len() <= MAX_CODEC_SEQUENCE_LENGTH && kv_dv(
                            bins,
                        )[l].1.len() <= MAX_CODEC_SEQUENCE_LENGTH by {
                            assert(kv_dv(bins)[l] == kv_dv(self.0.insertions@)[spans.1 + l]);
                            assert(kv_dv(self.0.insertions@)[spans.1 + l] == (
                            self.0.insertions@[spans.1 + l].0@,
                            self.0.insertions@[spans.1 + l].1@,
                            ));
                        }
                    }
                    assert(batch_encoding(key_dv(bd), kv_dv(bins)).len() <= MAX_VALUE_BYTES) by {
                        assert(key_dv(bd) == key_dv(self.0.deletions@).subrange(
                            spans.0,
                            spans.0 + bd.len(),
                        ));
                        assert(kv_dv(bins) == kv_dv(self.0.insertions@).subrange(
                            spans.1,
                            spans.1 + bins.len(),
                        ));
                        assert((spans.0 + bd.len() as int - spans.0) + (spans.1 + bins.len() as int
                            - spans.1) <= MAX_TRANSACT_WRITE_ITEM_SIZE - 2);
                    }
                }
            }
            let bytes = match crate::codec::serialize_batch(&blocks[i]) {
                Ok(b) => b,
                Err(e) => {
                    proof {
                        assert(!writable);
                    }
                    return Err(e);
                },
            };
            let key = journal_entry_key(base_key, i as u32);
            proof {
                lemma_journal_keys_in_namespace(base, i as u32);
                assert(key@.len() > 0);
            }
            let ghost pre = *db;
            match db.write_single_key_value(key, bytes) {
                Ok(_) => {},
                Err(e) => {
                    proof {
                        assert(e is ValueLengthTooLarge);
                        assert(!writable);
                    }
                    return Err(e);
                },
            }
            proof {
                assert forall|k: Seq<u8>|
                    in_journal_namespace(base, k) && !(exists|bi: int|
                        0 <= bi < i + 1 && k == #[trigger] journal_entry_key_spec(base, bi as u32))
                        implies #[trigger] db.lookup(k) is None by {
                    if k != journal_entry_key_spec(base, i as u32) {
                        assert(db.lookup(k) == pre.lookup(k));
                        if pre.lookup(k) is Some {
                            let bi = choose|bi: int|
                                0 <= bi < i && k == #[trigger] journal_entry_key_spec(
                                    base,
                                    bi as u32,
                                );
                            assert(false);
                        }
                    }
                }
                assert forall|bi: int|
                    0 <= bi < i + 1 implies db.lookup(journal_entry_key_spec(base, bi as u32))
                    == Some(block_payload(#[trigger] blocks@[bi])) by {
                    if bi < i {
                        lemma_journal_keys_distinct(base, bi as u32, i as u32);
                        assert(db.lookup(journal_entry_key_spec(base, bi as u32)) == pre.lookup(
                            journal_entry_key_spec(base, bi as u32),
                        ));
                    } else {
                        assert(db.lookup(journal_entry_key_spec(base, i as u32)) == Some(
                            block_payload(blocks@[i as int]),
                        ));
                    }
                }
            }
        }
        let header = JournalHeader { block_count: n as u32 };
        if n > 0 {
            let hkey = journal_header_key(base_key);
            let hval = header.encode();
            proof {
                lemma_journal_keys_in_namespace(base, 0);
                assert(hkey@.len() > 0);
                assert(hval@.len() == 4);
            }
            let ghost pre = *db;
            match db.write_single_key_value(hkey, hval) {
                Ok(_) => {},
                Err(e) => {
                    proof {
                        assert(false);
                    }
                    return Err(e);
                },
            }
            proof {
                assert forall|bi: int|
                    0 <= bi < blocks@.len() implies db.lookup(
                    journal_entry_key_spec(base, bi as u32),
                ) == Some(block_payload(#[trigger] blocks@[bi])) by {
                    lemma_journal_keys_distinct(base, bi as u32, 0);
                    assert(journal_header_key_spec(base) != journal_entry_key_spec(
                        base,
                        bi as u32,
                    ));
                }
                assert(journal_state(*db, base_key@, blocks@));
                assert(blocks_dels(blocks@) == key_dv(self.0.deletions@));
                assert(blocks_ins(blocks@) == kv_dv(self.0.insertions@));
                assert(header.block_count == blocks@.len());
                assert forall|k: Seq<u8>|
                    in_journal_namespace(base, k) && k != journal_header_key_spec(base) && !(
                    exists|bi: int|
                        0 <= bi < header.block_count && k == #[trigger] journal_entry_key_spec(
                            base,
                            bi as u32,
                        )) implies #[trigger] db.lookup(k) is None by {
                    assert(db.lookup(k) == pre.lookup(k));
                    if pre.lookup(k) is Some {
                        let bi = choose|bi: int|
                            0 <= bi < n && k == #[trigger] journal_entry_key_spec(base, bi as u32);
                        assert(false);
                    }
                }
            }
        } else {
            proof {
                assert(key_dv(self.0.deletions@).len() == 0 && kv_dv(self.0.insertions@).len()
                    == 0);
                assert(self.0.deletions@.len() == 0 && self.0.insertions@.len() == 0);
                assert forall|k: Seq<u8>| #[trigger] db.lookup(k) == old(db).lookup(k) by {
                    if in_journal_namespace(base, k) {
                        assert(db.lookup(k) is None && old(db).lookup(k) is None);
                    }
                }
            }
        }
        Ok(header)
    }
}

/// The effect of a one-operation transaction.
pub proof fn lemma_txn_lookup_one(op: TransactOperation, prior: Option<Seq<u8>>, k: Seq<u8>)
    ensures
        txn_lookup(seq![op], prior, k) == (match op {
            TransactOperation::Delete { key } => if key@ == k {
                None
            } else {
                prior
            },
            TransactOperation::Put { key, value } => if key@ == k {
                Some(value@)
            } else {
                prior
            },
        }),
{
    assert(seq![op].len() == 1 && seq![op][0] == op);
    assert(seq![op].skip(1) =~= Seq::<TransactOperation>::empty());
    let stepped = match op {
        TransactOperation::Delete { key } => if key@ == k {
            None
        } else {
            prior
        },
        TransactOperation::Put { key, value } => if key@ == k {
            Some(value@)
        } else {
            prior
        },
    };
    assert(txn_lookup(Seq::<TransactOperation>::empty(), stepped, k) == stepped);
}

impl JournalHeader {
    /// Drains the journal this header describes, highest block first: each
    /// step commits, in one atomic transaction, the entry delete, every
    /// operation of the block, and the header update (a delete when the last
    /// block drains).  Replaying after a crash repeats the same steps from
    /// wherever the header points, to the same final state.
    #[verifier::rlimit(50)]
    pub fn coherently_resolve_journal(
        self,
        db: &mut MemoryStore,
        base_key: &[u8],
        Ghost(blocks): Ghost<Seq<DynamoDbBatch>>,
    ) -> (r: Result<(), DynamoDbContextError>)
        requires
            old(db).wf(),
            journal_state_partial(*old(db), base_key@, blocks),
            self.block_count == blocks.len(),
        ensures
            final(db).wf(),
            forall|k: Seq<u8>|
                in_journal_namespace(base_key@, k) && k != journal_header_key_spec(base_key@) && !(
                exists|bi: int|
                    0 <= bi < blocks.len() && k == #[trigger] journal_entry_key_spec(
                        base_key@,
                        bi as u32,
                    )) ==> #[trigger] final(db).lookup(k) == old(db).lookup(k),
            match r {
                Ok(_) => {
                    &&& forall|bi: int|
                        0 <= bi < blocks.len() ==> old(db).lookup(
                            #[trigger] journal_entry_key_spec(base_key@, bi as u32),
                        ) == Some(block_payload(blocks[bi]))
                    &&& forall|k: Seq<u8>|
                        !in_journal_namespace(base_key@, k) ==> #[trigger] final(db).lookup(k)
                            == blocks_rev_fold(blocks, k, old(db).lookup(k))
                    &&& blocks.len() > 0 ==> final(db).lookup(
                        journal_header_key_spec(base_key@),
                    ) is None
                    &&& blocks.len() == 0 ==> forall|k: Seq<u8>|
                        #[trigger] final(db).lookup(k) == old(db).lookup(k)
                    &&& forall|bi: int|
                        0 <= bi < blocks.len() ==> final(db).lookup(
                            #[trigger] journal_entry_key_spec(base_key@, bi as u32),
                        ) is None
                },
                Err(e) => e is DatabaseRecoveryFailed && (exists|g: int|
                    {
                        &&& 0 <= g < blocks.len()
                        &&& old(db).lookup(#[trigger] journal_entry_key_spec(base_key@, g as u32))
                            is None
                        &&& (forall|k: Seq<u8>|
                            !in_journal_namespace(base_key@, k) ==> #[trigger] final(db).lookup(k)
                                == blocks_rev_fold(blocks.skip(g + 1), k, old(db).lookup(k)))
                        &&& final(db).lookup(journal_header_key_spec(base_key@)) == Some(
                            le_u32_bytes((g + 1) as u32),
                        )
                        &&& (forall|bi: int|
                            g < bi < blocks.len() ==> final(db).lookup(
                                #[trigger] journal_entry_key_spec(base_key@, bi as u32),
                            ) is None)
                        &&& (forall|bi: int|
                            0 <= bi <= g ==> final(db).lookup(
                                #[trigger] journal_entry_key_spec(base_key@, bi as u32),
                            ) == old(db).lookup(journal_entry_key_spec(base_key@, bi as u32)))
                    }),
            },
    {
        let ghost base = base_key@;
        let mut header = self;
        while header.block_count > 0
            invariant
                db.wf(),
                base == base_key@,
                journal_state_partial(*old(db), base, blocks),
                header.block_count <= blocks.len(),
                blocks.len() <= u32::MAX,
                forall|bi: int| 0 <= bi < blocks.len() ==> block_wf(base, #[trigger] blocks[bi]),
                (header.block_count == blocks.len() && db.lookup(journal_header_key_spec(base))
                    == Some(le_u32_bytes(blocks.len() as u32))) || (header.block_count
                    < blocks.len() && db.lookup(journal_header_key_spec(base)) == (if header.block_count
                    > 0 {
                    Some(le_u32_bytes(header.block_count))
                } else {
                    None::<Seq<u8>>
                })),
                forall|bi: int|
                    0 <= bi < header.block_count ==> db.lookup(
                        #[trigger] journal_entry_key_spec(base, bi as u32),
                    ) == old(db).lookup(journal_entry_key_spec(base, bi as u32)),
                forall|bi: int|
                    header.block_count <= bi < blocks.len() ==> db.lookup(
                        #[trigger] journal_entry_key_spec(base, bi as u32),
                    ) is None,
                forall|bi: int|
                    header.block_count <= bi < blocks.len() ==> old(db).lookup(
                        #[trigger] journal_entry_key_spec(base, bi as u32),
                    ) == Some(block_payload(blocks[bi])),
                forall|k: Seq<u8>|
                    in_journal_namespace(base, k) && k != journal_header_key_spec(base) && !(
                    exists|bi: int|
                        0 <= bi < blocks.len() && k == #[trigger] journal_entry_key_spec(
                            base,
                            bi as u32,
                        )) ==> #[trigger] db.lookup(k) == old(db).lookup(k),
                forall|k: Seq<u8>|
                    !in_journal_namespace(base, k) ==> #[trigger] db.lookup(k) == blocks_rev_fold(
                        blocks.skip(header.block_count as int),
                        k,
                        old(db).lookup(k),
                    ),
            decreases header.block_count,
        {
            let pos = header.block_count - 1;
            let ghost posi = pos as int;
            let key = journal_entry_key(base_key, pos);
            proof {
                lemma_journal_keys_in_namespace(base, pos);
            }
            let value_opt = match db.read_key_bytes(key.as_slice()) {
                Ok(v) => v,
                Err(e) => {
                    proof {
                        assert(false);
                    }
                    return Err(e);
                },
            };
            let value = match value_opt {
                Some(v) => v,
                None => {
                    // the header points at a missing block entry: storage
                    // corruption, surfaced without submitting anything
                    proof {
                        assert(db.lookup(journal_entry_key_spec(base, pos)) is None);
                        assert(old(db).lookup(journal_entry_key_spec(base, pos)) is None);
                        assert(blocks.skip(posi + 1) =~= blocks.skip(header.block_count as int));
                        assert(0 <= posi < blocks.len() && old(db).lookup(
                            #[trigger] journal_entry_key_spec(base, posi as u32),
                        ) is None);
                    }
                    return Err(DynamoDbContextError::DatabaseRecoveryFailed);
                },
            };
            proof {
                assert(old(db).lookup(journal_entry_key_spec(base, pos)) == Some(value@));
                assert(posi as u32 == pos);
                assert(old(db).lookup(#[trigger] journal_entry_key_spec(base, posi as u32))
                    == Some(block_payload(blocks[posi])) || old(db).lookup(
                    journal_entry_key_spec(base, posi as u32),
                ) is None);
                assert(value@ == block_payload(blocks[posi]));
            }
            let entry = match crate::codec::deserialize_batch(value.as_slice()) {
                Ok(b) => b,
                Err(e) => {
                    proof {
                        assert(false);
                    }
                    return Err(e);
                },
            };
            proof {
                assert(value@ == block_payload(blocks[posi]));
                assert(key_dv(entry.0.deletions@) == key_dv(blocks[posi].0.deletions@) && kv_dv(
                    entry.0.insertions@,
                ) == kv_dv(blocks[posi].0.insertions@));
                lemma_same_dv_dels(entry.0.deletions@, blocks[posi].0.deletions@);
                lemma_same_dv_ins(entry.0.insertions@, blocks[posi].0.insertions@);
                assert(block_wf(base, blocks[posi]));
            }
            let ghost nd = entry.0.deletions@.len() as int;
            let ghost ni = entry.0.insertions@.len() as int;
            let mut tb = TransactionBuilder::new();
            match tb.insert_delete_request(key) {
                Ok(_) => {},
                Err(e) => {
                    proof {
                        assert(false);
                    }
                    return Err(e);
                },
            }
            proof {
                assert(tb.transacts@.len() == 1);
                assert(tb.transacts@[0] matches TransactOperation::Delete { key: k0 } && k0@
                    == journal_entry_key_spec(base, pos));
            }
            match add_batch_operations(&mut tb, &entry) {
                Ok(_) => {},
                Err(e) => {
                    proof {
                        assert(false);
                    }
                    return Err(e);
                },
            }
            let ghost mid0 = tb.transacts@.skip(1);
            proof {
                assert(ops_match_block(mid0, entry.0.deletions@, entry.0.insertions@));
            }
            let new_header = JournalHeader { block_count: pos };
            match DynamoDbBatch::add_journal_header_operations(&mut tb, &new_header, base_key) {
                Ok(_) => {},
                Err(e) => {
                    proof {
                        assert(false);
                    }
                    return Err(e);
                },
            }
            let ghost ops = tb.transacts@;
            let ghost mid = ops.subrange(1, 1 + nd + ni);
            proof {
                assert(ops.len() == 2 + nd + ni);
                assert(block_op_count(blocks[posi]) == nd + ni);
                assert(ops.len() <= MAX_TRANSACT_WRITE_ITEM_SIZE);
                assert(forall|l: int| 0 <= l < nd + ni ==> #[trigger] mid[l] == ops[l + 1]);
                assert(mid =~= mid0);
                assert(ops_match_block(mid, entry.0.deletions@, entry.0.insertions@));
                lemma_block_ops_wf_distinct(mid, entry.0.deletions@, entry.0.insertions@);
                // every middle operation touches a user key of the block
                assert forall|l: int| 1 <= l < 1 + nd + ni implies !in_journal_namespace(
                    base,
                    transact_op_key(#[trigger] ops[l]),
                ) && block_touches(blocks[posi], transact_op_key(ops[l])) by {
                    assert(ops[l] == mid[l - 1]);
                    if l - 1 < nd {
                        assert(mid[l - 1] matches TransactOperation::Delete { key: k2 } && k2@
                            == entry.0.deletions@[l - 1]@);
                        assert(keys_contain(entry.0.deletions@, transact_op_key(ops[l])));
                    } else {
                        assert(mid[(l - 1 - nd) + nd] matches TransactOperation::Put {
                            key: k2,
                            ..
                        } && k2@ == entry.0.insertions@[l - 1 - nd].0@);
                        lemma_insertions_lookup_at(entry.0.insertions@, l - 1 - nd);
                        assert(insertions_lookup(
                            entry.0.insertions@,
                            transact_op_key(ops[l]),
                        ) is Some);
                    }
                    assert(block_touches(blocks[posi], transact_op_key(ops[l])));
                }
                assert(transact_ops_wf(ops)) by {
                    assert(forall|l: int|
                        1 <= l < 1 + nd + ni ==> crate::transaction::transact_op_wf(
                            #[trigger] ops[l],
                        )) by {
                        assert(forall|l: int|
                            0 <= l < nd + ni ==> crate::transaction::transact_op_wf(
                                #[trigger] mid[l],
                            ));
                        assert(forall|l: int| 1 <= l < 1 + nd + ni ==> #[trigger] ops[l] == mid[l
                            - 1]);
                    }
                    assert(journal_entry_key_spec(base, pos).len() > 0);
                    assert(crate::transaction::transact_op_wf(ops[0]));
                    assert(ops.last() == ops[1 + nd + ni]);
                    assert(crate::transaction::transact_op_wf(ops[1 + nd + ni]));
                }
                assert(transact_ops_distinct(ops)) by {
                    lemma_journal_keys_in_namespace(base, pos);
                    assert(transact_op_key(ops[0]) == journal_entry_key_spec(base, pos));
                    assert(transact_op_key(ops[1 + nd + ni]) == journal_header_key_spec(base));
                    lemma_journal_keys_distinct(base, pos, 0);
                    assert forall|i: int, j: int| 0 <= i < j < ops.len() implies transact_op_key(
                        #[trigger] ops[i],
                    ) != transact_op_key(#[trigger] ops[j]) by {
                        if i == 0 && j < 1 + nd + ni {
                            assert(!in_journal_namespace(base, transact_op_key(ops[j])));
                        } else if i == 0 && j == 1 + nd + ni {
                        } else if j == 1 + nd + ni {
                            assert(!in_journal_namespace(base, transact_op_key(ops[i])));
                            lemma_journal_keys_in_namespace(base, 0);
                        } else {
                            assert(ops[i] == mid[i - 1] && ops[j] == mid[j - 1]);
                        }
                    }
                }
            }
            let ghost pre = *db;
            match tb.submit(db) {
                Ok(_) => {},
                Err(e) => {
                    proof {
                        assert(false);
                    }
                    return Err(e);
                },
            }
            proof {
                let a = seq![ops[0]];
                let c = seq![ops[1 + nd + ni]];
                assert(ops =~= (a + mid) + c);
                assert forall|k: Seq<u8>|
                    #[trigger] db.lookup(k) == txn_lookup(
                        c,
                        txn_lookup(mid, txn_lookup(a, pre.lookup(k), k), k),
                        k,
                    ) by {
                    lemma_txn_lookup_concat(a + mid, c, pre.lookup(k), k);
                    lemma_txn_lookup_concat(a, mid, pre.lookup(k), k);
                    assert(db.lookup(k) == txn_lookup(ops, pre.lookup(k), k));
                }
                // user keys: one block applied
                assert forall|k: Seq<u8>| !in_journal_namespace(base, k) implies #[trigger] db.lookup(
                    k,
                ) == blocks_rev_fold(blocks.skip(posi), k, old(db).lookup(k)) by {
                    lemma_txn_lookup_one(ops[0], pre.lookup(k), k);
                    assert(txn_lookup(a, pre.lookup(k), k) == pre.lookup(k));
                    lemma_txn_lookup_block(
                        mid,
                        entry.0.deletions@,
                        entry.0.insertions@,
                        pre.lookup(k),
                        k,
                    );
                    lemma_txn_lookup_one(ops[1 + nd + ni], txn_lookup(mid, pre.lookup(k), k), k);
                    lemma_journal_keys_in_namespace(base, 0);
                    assert(txn_lookup(mid, pre.lookup(k), k) == block_apply(
                        blocks[posi],
                        pre.lookup(k),
                        k,
                    ));
                    assert(blocks.skip(posi)[0] == blocks[posi]);
                    assert(blocks.skip(posi).skip(1) =~= blocks.skip(posi + 1));
                    assert(pre.lookup(k) == blocks_rev_fold(blocks.skip(posi + 1), k, old(
                        db,
                    ).lookup(k)));
                }
                // header cell
                assert(db.lookup(journal_header_key_spec(base)) == (if pos > 0 {
                    Some(le_u32_bytes(pos))
                } else {
                    None::<Seq<u8>>
                })) by {
                    let hk = journal_header_key_spec(base);
                    lemma_txn_lookup_one(ops[0], pre.lookup(hk), hk);
                    lemma_journal_keys_distinct(base, pos, 0);
                    lemma_txn_lookup_block(
                        mid,
                        entry.0.deletions@,
                        entry.0.insertions@,
                        pre.lookup(hk),
                        hk,
                    );
                    lemma_journal_keys_in_namespace(base, 0);
                    assert(insertions_lookup(entry.0.insertions@, hk) is None && !keys_contain(
                        entry.0.deletions@,
                        hk,
                    )) by {
                        if insertions_lookup(entry.0.insertions@, hk) is Some || keys_contain(
                            entry.0.deletions@,
                            hk,
                        ) {
                            assert(block_touches(blocks[posi], hk));
                        }
                    }
                    lemma_txn_lookup_one(ops[1 + nd + ni], pre.lookup(hk), hk);
                }
                // entry cells
                assert forall|bi: int| 0 <= bi < blocks.len() implies db.lookup(
                    #[trigger] journal_entry_key_spec(base, bi as u32),
                ) == (if bi < pos {
                    old(db).lookup(journal_entry_key_spec(base, bi as u32))
                } else {
                    None::<Seq<u8>>
                }) by {
                    let ek = journal_entry_key_spec(base, bi as u32);
                    lemma_journal_keys_in_namespace(base, bi as u32);
                    lemma_txn_lookup_one(ops[0], pre.lookup(ek), ek);
                    lemma_journal_keys_distinct(base, bi as u32, pos);
                    let after_a = txn_lookup(a, pre.lookup(ek), ek);
                    lemma_txn_lookup_block(
                        mid,
                        entry.0.deletions@,
                        entry.0.insertions@,
                        after_a,
                        ek,
                    );
                    assert(insertions_lookup(entry.0.insertions@, ek) is None && !keys_contain(
                        entry.0.deletions@,
                        ek,
                    )) by {
                        if insertions_lookup(entry.0.insertions@, ek) is Some || keys_contain(
                            entry.0.deletions@,
                            ek,
                        ) {
                            assert(block_touches(blocks[posi], ek));
                        }
                    }
                    lemma_txn_lookup_one(ops[1 + nd + ni], after_a, ek);
                    assert(journal_header_key_spec(base) != ek) by {
                        lemma_journal_keys_distinct(base, bi as u32, 0);
                    }
                }
                // untouched journal keys
                assert forall|k: Seq<u8>|
                    in_journal_namespace(base, k) && k != journal_header_key_spec(base) && !(
                    exists|bi: int|
                        0 <= bi < blocks.len() && k == #[trigger] journal_entry_key_spec(
                            base,
                            bi as u32,
                        )) implies #[trigger] db.lookup(k) == old(db).lookup(k) by {
                    lemma_txn_lookup_one(ops[0], pre.lookup(k), k);
                    assert(k != journal_entry_key_spec(base, pos));
                    lemma_txn_lookup_block(
                        mid,
                        entry.0.deletions@,
                        entry.0.insertions@,
                        pre.lookup(k),
                        k,
                    );
                    assert(insertions_lookup(entry.0.insertions@, k) is None && !keys_contain(
                        entry.0.deletions@,
                        k,
                    )) by {
                        if insertions_lookup(entry.0.insertions@, k) is Some || keys_contain(
                            entry.0.deletions@,
                            k,
                        ) {
                            assert(block_touches(blocks[posi], k));
                        }
                    }
                    lemma_txn_lookup_one(ops[1 + nd + ni], pre.lookup(k), k);
                }
            }
            header = new_header;
        }
        proof {
            assert(blocks.skip(0) =~= blocks);
        }
        Ok(())
    }
}

/// Expansions indexed by prefix-delete order line up with the batch when
/// each expanded key is under its prefix.
pub proof fn lemma_expansions_via_nth(ops: Seq<WriteOperation>, exps: Seq<Vec<Vec<u8>>>)
    requires
        exps.len() == prefix_ops_count(ops),
        forall|e: int, i: int|
            0 <= e < exps.len() && 0 <= i < (#[trigger] exps[e])@.len() ==> nth_prefix(
                ops,
                e,
            ).is_prefix_of((#[trigger] exps[e]@[i])@),
    ensures
        crate::batch::expansions_match(ops, exps),
    decreases ops.len(),
{
    if ops.len() == 0 {
    } else if ops[0] is DeletePrefix {
        assert(exps.len() > 0);
        assert(forall|e: int|
            0 <= e < exps.skip(1).len() ==> #[trigger] exps.skip(1)[e] == exps[e + 1]
                && nth_prefix(ops.skip(1), e) == nth_prefix(ops, e + 1));
        lemma_expansions_via_nth(ops.skip(1), exps.skip(1));
        assert(nth_prefix(ops, 0) == ops[0]->DeletePrefix_key_prefix@);
    } else {
        assert(forall|e: int|
            0 <= e < exps.len() ==> nth_prefix(ops.skip(1), e) == nth_prefix(ops, e));
        lemma_expansions_via_nth(ops.skip(1), exps);
    }
}

impl MemoryStore {
    /// The write coordinator: validates the whole batch before any backend
    /// work, expands its prefix deletes, normalizes it, and commits it — in
    /// one atomic transaction when it fits under the operation ceiling,
    /// through the journaled path otherwise.  On success the region holds
    /// exactly the batch's effect and no journal key remains under the base.
    pub fn write_batch(&mut self, batch: Batch, base_key: &[u8]) -> (r: Result<
        (),
        DynamoDbContextError,
    >)
        requires
            old(self).wf(),
            forall|k: Seq<u8>|
                in_journal_namespace(base_key@, k) ==> #[trigger] old(self).lookup(k) is None,
            forall|j: int|
                0 <= j < batch.operations@.len() ==> (match #[trigger] batch.operations@[j] {
                    WriteOperation::Delete { key } => !in_journal_namespace(base_key@, key@),
                    WriteOperation::Put { key, .. } => !in_journal_namespace(base_key@, key@),
                    WriteOperation::DeletePrefix { .. } => true,
                }),
        ensures
            final(self).wf(),
            match r {
                Ok(_) => (forall|k: Seq<u8>|
                    !in_journal_namespace(base_key@, k) ==> #[trigger] final(self).lookup(k)
                        == batch_effect_key(batch.operations@, old(self).lookup(k), k)) && (forall|
                    k: Seq<u8>,
                |
                    in_journal_namespace(base_key@, k) ==> #[trigger] final(self).lookup(
                        k,
                    ) is None),
                Err(e) => (forall|k: Seq<u8>|
                    !in_journal_namespace(base_key@, k) ==> #[trigger] final(self).lookup(k) == old(
                        self,
                    ).lookup(k)) && (match first_op_error(batch.operations@) {
                    Some(e0) => e == e0 && *final(self) == *old(self),
                    None => e is ValueLengthTooLarge || e is BcsError,
                }),
            },
            first_op_error(batch.operations@) is Some ==> r is Err,
            (first_op_error(batch.operations@) is None && (forall|j: int|
                0 <= j < batch.operations@.len() ==> !((#[trigger] batch.operations@[j])
                    is DeletePrefix)) && batch.operations@.len() <= MAX_TRANSACT_WRITE_ITEM_SIZE)
                ==> r is Ok,
    {
        let ghost base = base_key@;
        let ghost ops = batch.operations@;
        match batch.validate() {
            Ok(_) => {},
            Err(e) => {
                return Err(e);
            },
        }
        proof {
            crate::batch::lemma_first_op_error_none(ops);
        }
        let mut expansions: Vec<Vec<Vec<u8>>> = Vec::new();
        let n = batch.operations.len();
        proof {
            assert(ops.take(0) =~= Seq::<WriteOperation>::empty());
        }
        for j in 0..n
            invariant
                self.wf(),
                *self == *old(self),
                n == ops.len(),
                ops == batch.operations@,
                crate::batch::ops_valid(ops),
                expansions@.len() == prefix_ops_count(ops.take(j as int)),
                forall|e: int, k: Seq<u8>|
                    0 <= e < expansions@.len() ==> (#[trigger] keys_contain(
                        (expansions@[e])@,
                        k,
                    ) <==> (self.lookup(k) is Some && nth_prefix(ops, e).is_prefix_of(k))),
        {
            proof {
                lemma_nth_prefix_at(ops, j as int);
            }
            match &batch.operations[j] {
                WriteOperation::DeletePrefix { key_prefix } => {
                    let exp = match self.expand_delete_prefix(key_prefix.as_slice()) {
                        Ok(x) => x,
                        Err(e) => {
                            proof {
                                assert(crate::batch::op_valid(ops[j as int]));
                                assert(false);
                            }
                            return Err(e);
                        },
                    };
                    let ghost e0 = expansions@.len() as int;
                    let ghost pre_exps = expansions@;
                    expansions.push(exp);
                    proof {
                        assert(nth_prefix(ops, e0) == key_prefix@);
                        assert forall|e: int, k: Seq<u8>|
                            0 <= e < expansions@.len() implies (#[trigger] keys_contain(
                            (expansions@[e])@,
                            k,
                        ) <==> (self.lookup(k) is Some && nth_prefix(ops, e).is_prefix_of(
                            k,
                        ))) by {
                            if e < e0 {
                                assert(expansions@[e] == pre_exps[e]);
                            } else {
                                assert(expansions@[e] == exp);
                                if keys_contain(exp@, k) {
                                    let i = choose|i: int| 0 <= i < exp@.len() && exp@[i]@ == k;
                                    assert(key_prefix@.is_prefix_of(k) && self.lookup(k) is Some);
                                }
                            }
                        }
                    }
                },
                _ => {},
            }
        }
        proof {
            assert(ops.take(n as int) =~= ops);
            assert forall|e: int, i: int|
                0 <= e < expansions@.len() && 0 <= i < (#[trigger] expansions@[e])@.len()
                    implies nth_prefix(ops, e).is_prefix_of((#[trigger] expansions@[e]@[i])@) by {
                assert(keys_contain(expansions@[e]@, expansions@[e]@[i]@));
            }
            lemma_expansions_via_nth(ops, expansions@);
        }
        let b = crate::batch::DynamoDbBatch::from_batch(&batch, &expansions);
        let ghost bdels = b.0.deletions@;
        let ghost bins = b.0.insertions@;
        proof {
            // no normalized key reaches into the journal namespace
            assert forall|k: Seq<u8>| #[trigger] in_journal_namespace(base, k) implies !(
            keys_contain(bdels, k) || insertions_lookup(bins, k) is Some) by {
                if keys_contain(bdels, k) || insertions_lookup(bins, k) is Some {
                    assert(norm_outcome(ops, expansions@, None::<Option<Seq<u8>>>, k) is Some);
                    assert forall|e: int|
                        0 <= e < expansions@.len() implies !(#[trigger] keys_contain(
                        (expansions@[e])@,
                        k,
                    )) by {
                        assert(old(self).lookup(k) is None);
                    }
                    lemma_norm_outcome_untouched(ops, expansions@, k);
                }
            }
            assert forall|i: int| 0 <= i < bdels.len() implies !in_journal_namespace(
                base,
                (#[trigger] bdels[i])@,
            ) by {
                assert(keys_contain(bdels, bdels[i]@));
            }
            assert forall|i: int| 0 <= i < bins.len() implies !in_journal_namespace(
                base,
                (#[trigger] bins[i]).0@,
            ) by {
                lemma_insertions_lookup_at(bins, i);
            }
        }
        let feasible = b.0.deletions.len() <= MAX_TRANSACT_WRITE_ITEM_SIZE && b.0.insertions.len()
            <= MAX_TRANSACT_WRITE_ITEM_SIZE && b.is_fastpath_feasible();
        if feasible {
            match b.write_fastpath_failsafe(self) {
                Ok(_) => {},
                Err(e) => {
                    proof {
                        assert(false);
                    }
                    return Err(e);
                },
            }
            proof {
                assert forall|k: Seq<u8>| !in_journal_namespace(base, k) implies #[trigger] self.lookup(
                    k,
                ) == batch_effect_key(ops, old(self).lookup(k), k) by {
                    lemma_norm_vs_direct(
                        ops,
                        expansions@,
                        k,
                        old(self).lookup(k),
                        None::<Option<Seq<u8>>>,
                    );
                }
                assert forall|k: Seq<u8>| in_journal_namespace(base, k) implies #[trigger] self.lookup(
                    k,
                ) is None by {
                    assert(flat_outcome(bdels, bins, k) is None);
                }
            }
            Ok(())
        } else {
            proof {
                if first_op_error(ops) is None && (forall|j: int|
                    0 <= j < ops.len() ==> !((#[trigger] ops[j]) is DeletePrefix)) && ops.len()
                    <= MAX_TRANSACT_WRITE_ITEM_SIZE {
                    assert(bdels.len() + bins.len() <= ops.len());
                    assert(false);
                }
            }
            if b.0.insertions.len() > usize::MAX - b.0.deletions.len() {
                return Err(DynamoDbContextError::BcsError);
            }
            let ghost pre_journal = *self;
            let header = match b.write_journal(self, base_key) {
                Ok(h) => h,
                Err(e) => {
                    return Err(e);
                },
            };
            proof {
                assert(bdels.len() + bins.len() > 0) by {
                    if bdels.len() + bins.len() == 0 {
                        assert(bdels.len() <= MAX_TRANSACT_WRITE_ITEM_SIZE);
                    }
                }
                assert(header.block_count > 0);
            }
            let ghost blocks = choose|blocks: Seq<DynamoDbBatch>|
                #[trigger] journal_state(*self, base, blocks) && blocks_dels(blocks) == key_dv(
                    bdels,
                ) && blocks_ins(blocks) == kv_dv(bins) && header.block_count == blocks.len();
            let ghost mid_state = *self;
            proof {
                assert(journal_state_partial(mid_state, base, blocks));
            }
            let r2 = header.coherently_resolve_journal(self, base_key, Ghost(blocks));
            match r2 {
                Ok(_) => {},
                Err(e) => {
                    proof {
                        let g = choose|g: int|
                            0 <= g < blocks.len() && mid_state.lookup(
                                #[trigger] journal_entry_key_spec(base, g as u32),
                            ) is None;
                        assert(mid_state.lookup(journal_entry_key_spec(base, g as u32)) == Some(
                            block_payload(blocks[g]),
                        ));
                        assert(false);
                    }
                    return Err(e);
                },
            }
            proof {
                assert forall|k: Seq<u8>| !in_journal_namespace(base, k) implies #[trigger] self.lookup(
                    k,
                ) == batch_effect_key(ops, old(self).lookup(k), k) by {
                    assert(mid_state.lookup(k) == old(self).lookup(k));
                    assert(self.lookup(k) == blocks_rev_fold(blocks, k, mid_state.lookup(k)));
                    lemma_rev_fold_flat(blocks, bdels, bins, k, old(self).lookup(k));
                    assert(interp_outcome(flat_outcome(bdels, bins, k), old(self).lookup(k))
                        == interp_outcome(
                        norm_outcome(ops, expansions@, None::<Option<Seq<u8>>>, k),
                        old(self).lookup(k),
                    ));
                    lemma_norm_vs_direct(
                        ops,
                        expansions@,
                        k,
                        old(self).lookup(k),
                        None::<Option<Seq<u8>>>,
                    );
                }
                assert forall|k: Seq<u8>| in_journal_namespace(base, k) implies #[trigger] self.lookup(
                    k,
                ) is None by {
                    if k == journal_header_key_spec(base) {
                    } else if exists|bi: int|
                        0 <= bi < blocks.len() && k == #[trigger] journal_entry_key_spec(
                            base,
                            bi as u32,
                        ) {
                        let bi = choose|bi: int|
                            0 <= bi < blocks.len() && k == #[trigger] journal_entry_key_spec(
                                base,
                                bi as u32,
                            );
                        assert(self.lookup(journal_entry_key_spec(base, bi as u32)) is None);
                    } else {
                        assert(self.lookup(k) == mid_state.lookup(k));
                        assert(mid_state.lookup(k) is None);
                    }
                }
            }
            Ok(())
        }
    }

    /// Recovery: reads the region's journal header and, when one is
    /// present, drains the journal to completion.  On a clean region this is
    /// a no-op, and running it twice is the same as running it once: every
    /// successful run leaves the region without a header.  A header pointing
    /// at a missing block entry is storage corruption and is reported as the
    /// recovery failure, with the journal left at the failed step.
    pub fn clear_journal(&mut self, base_key: &[u8]) -> (r: Result<(), DynamoDbContextError>)
        requires
            old(self).wf(),
            old(self).lookup(journal_header_key_spec(base_key@)) is Some ==> exists|
                blocks: Seq<DynamoDbBatch>,
            |
                #[trigger] journal_state_partial(*old(self), base_key@, blocks) && blocks.len()
                    > 0,
        ensures
            final(self).wf(),
            old(self).lookup(journal_header_key_spec(base_key@)) is None ==> r is Ok && (forall|
                k: Seq<u8>,
            |
                #[trigger] final(self).lookup(k) == old(self).lookup(k)),
            r is Ok ==> final(self).lookup(journal_header_key_spec(base_key@)) is None,
            r matches Err(e) ==> e is DatabaseRecoveryFailed,
            old(self).lookup(journal_header_key_spec(base_key@)) is Some ==> exists|
                blocks: Seq<DynamoDbBatch>,
            |
                #[trigger] journal_state_partial(*old(self), base_key@, blocks) && blocks.len()
                    > 0 && (match r {
                    Ok(_) => (forall|bi: int|
                        0 <= bi < blocks.len() ==> old(self).lookup(
                            #[trigger] journal_entry_key_spec(base_key@, bi as u32),
                        ) == Some(block_payload(blocks[bi]))) && (forall|k: Seq<u8>|
                        !in_journal_namespace(base_key@, k) ==> #[trigger] final(self).lookup(k)
                            == blocks_rev_fold(blocks, k, old(self).lookup(k))) && (forall|bi: int|
                        0 <= bi < blocks.len() ==> final(self).lookup(
                            #[trigger] journal_entry_key_spec(base_key@, bi as u32),
                        ) is None),
                    Err(_) => exists|g: int|
                        0 <= g < blocks.len() && old(self).lookup(
                            #[trigger] journal_entry_key_spec(base_key@, g as u32),
                        ) is None,
                }),
    {
        let ghost base = base_key@;
        let key = journal_header_key(base_key);
        let value = match self.read_key_bytes(key.as_slice()) {
            Ok(v) => v,
            Err(e) => {
                proof {
                    assert(false);
                }
                return Err(e);
            },
        };
        match value {
            Some(bytes) => {
                let ghost blocks = choose|blocks: Seq<DynamoDbBatch>|
                    #[trigger] journal_state_partial(*self, base, blocks) && blocks.len() > 0;
                proof {
                    assert(journal_state_partial(*self, base, blocks) && blocks.len() > 0);
                    assert(bytes@ == le_u32_bytes(blocks.len() as u32));
                }
                let header = match JournalHeader::decode(bytes.as_slice()) {
                    Ok(h) => h,
                    Err(e) => {
                        proof {
                            assert(false);
                        }
                        return Err(e);
                    },
                };
                proof {
                    let c1 = header.block_count;
                    let c2 = (blocks.len() as u32);
                    assert(le_u32_bytes(c1) == le_u32_bytes(c2));
                    assert((c1 & 0xff) as u8 == (c2 & 0xff) as u8 && ((c1 >> 8) & 0xff) as u8 == ((
                    c2 >> 8) & 0xff) as u8 && ((c1 >> 16) & 0xff) as u8 == ((c2 >> 16) & 0xff) as u8
                        && ((c1 >> 24) & 0xff) as u8 == ((c2 >> 24) & 0xff) as u8);
                    assert(c1 == c2) by (bit_vector)
                        requires
                            (c1 & 0xff) as u8 == (c2 & 0xff) as u8,
                            ((c1 >> 8) & 0xff) as u8 == ((c2 >> 8) & 0xff) as u8,
                            ((c1 >> 16) & 0xff) as u8 == ((c2 >> 16) & 0xff) as u8,
                            ((c1 >> 24) & 0xff) as u8 == ((c2 >> 24) & 0xff) as u8,
                    ;
                }
                let r2 = header.coherently_resolve_journal(self, base_key, Ghost(blocks));
                match r2 {
                    Ok(_) => Ok(()),
                    Err(e) => {
                        proof {
                            assert(e is DatabaseRecoveryFailed);
                        }
                        Err(e)
                    },
                }
            },
            None => Ok(()),
        }
    }
}

/// Whether one operation affects the binding of `k`.
pub open spec fn op_touches_key(op: WriteOperation, k: Seq<u8>) -> bool {
    match op {
        WriteOperation::Delete { key } => key@ == k,
        WriteOperation::Put { key, .. } => key@ == k,
        WriteOperation::DeletePrefix { key_prefix } => key_prefix@.is_prefix_of(k),
    }
}

/// A key no operation of a batch touches keeps its prior binding.
pub proof fn lemma_untouched_batch_effect(
    ops: Seq<WriteOperation>,
    prior: Option<Seq<u8>>,
    k: Seq<u8>,
)
    requires
        forall|l: int| 0 <= l < ops.len() ==> !op_touches_key(#[trigger] ops[l], k),
    ensures
        batch_effect_key(ops, prior, k) == prior,
    decreases ops.len(),
{
    if ops.len() > 0 {
        assert(!op_touches_key(ops[0], k));
        assert(forall|l: int| 0 <= l < ops.skip(1).len() ==> #[trigger] ops.skip(1)[l] == ops[l
            + 1]);
        lemma_untouched_batch_effect(ops.skip(1), prior, k);
    }
}

/// Last write wins, and a put round-trips: when the last operation of a
/// batch that touches `k` is a put of `v`, the batch leaves `k` bound to
/// `v`, so a subsequent point read returns `Some(v)`.
pub proof fn lemma_last_put_wins(
    ops: Seq<WriteOperation>,
    prior: Option<Seq<u8>>,
    k: Seq<u8>,
    j: int,
)
    requires
        0 <= j < ops.len(),
        ops[j] matches WriteOperation::Put { key, .. } && key@ == k,
        forall|l: int| j < l < ops.len() ==> !op_touches_key(#[trigger] ops[l], k),
    ensures
        batch_effect_key(ops, prior, k) == Some(ops[j]->Put_value@),
    decreases j,
{
    assert(forall|l: int| 0 <= l < ops.skip(1).len() ==> #[trigger] ops.skip(1)[l] == ops[l + 1]);
    let stepped = match ops[0] {
        WriteOperation::Delete { key } => if key@ == k {
            None
        } else {
            prior
        },
        WriteOperation::Put { key, value } => if key@ == k {
            Some(value@)
        } else {
            prior
        },
        WriteOperation::DeletePrefix { key_prefix } => if key_prefix@.is_prefix_of(k) {
            None
        } else {
            prior
        },
    };
    if j == 0 {
        assert(stepped == Some(ops[0]->Put_value@));
        lemma_untouched_batch_effect(ops.skip(1), stepped, k);
    } else {
        lemma_last_put_wins(ops.skip(1), stepped, k, j - 1);
    }
}

/// A late delete erases earlier writes: when the last operation of a batch
/// that touches `k` is a delete of `k` (or a prefix delete covering it),
/// the batch leaves `k` absent, so a subsequent point read returns nothing.
pub proof fn lemma_last_delete_wins(
    ops: Seq<WriteOperation>,
    prior: Option<Seq<u8>>,
    k: Seq<u8>,
    j: int,
)
    requires
        0 <= j < ops.len(),
        op_touches_key(ops[j], k),
        !(ops[j] is Put),
        forall|l: int| j < l < ops.len() ==> !op_touches_key(#[trigger] ops[l], k),
    ensures
        batch_effect_key(ops, prior, k) is None,
    decreases j,
{
    assert(forall|l: int| 0 <= l < ops.skip(1).len() ==> #[trigger] ops.skip(1)[l] == ops[l + 1]);
    let stepped = match ops[0] {
        WriteOperation::Delete { key } => if key@ == k {
            None
        } else {
            prior
        },
        WriteOperation::Put { key, value } => if key@ == k {
            Some(value@)
        } else {
            prior
        },
        WriteOperation::DeletePrefix { key_prefix } => if key_prefix@.is_prefix_of(k) {
            None
        } else {
            prior
        },
    };
    if j == 0 {
        assert(stepped is None);
        lemma_untouched_batch_effect(ops.skip(1), stepped, k);
    } else {
        lemma_last_delete_wins(ops.skip(1), stepped, k, j - 1);
    }
}

/// Crash recovery resumes where it stopped: draining the top blocks and
/// then, after a restart, the remaining ones leaves the same state as one
/// uninterrupted drain of the whole journal.
pub proof fn lemma_replay_resumes(
    blocks: Seq<DynamoDbBatch>,
    h: int,
    k: Seq<u8>,
    prior: Option<Seq<u8>>,
)
    requires
        0 <= h <= blocks.len(),
    ensures
        blocks_rev_fold(blocks, k, prior) == blocks_rev_fold(
            blocks.take(h),
            k,
            blocks_rev_fold(blocks.skip(h), k, prior),
        ),
    decreases h,
{
    if h == 0 {
        assert(blocks.take(0) =~= Seq::<DynamoDbBatch>::empty());
        assert(blocks.skip(0) =~= blocks);
    } else {
        assert(blocks.take(h)[0] == blocks[0]);
        assert(blocks.take(h).skip(1) =~= blocks.skip(1).take(h - 1));
        assert(blocks.skip(h) =~= blocks.skip(1).skip(h - 1));
        lemma_replay_resumes(blocks.skip(1), h - 1, k, prior);
    }
}

/// Size ceiling of one replay transaction: a block leaves room for exactly
/// the entry delete and the header update that ride with it, so the whole
/// transaction stays within what the backend commits atomically.
pub proof fn lemma_replay_transaction_fits(base: Seq<u8>, b: DynamoDbBatch)
    requires
        block_wf(base, b),
    ensures
        2 + block_op_count(b) <= MAX_TRANSACT_WRITE_ITEM_SIZE,
{
}

} // verus!
