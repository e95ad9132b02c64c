//! The journal: per-region keys, the header codec, and the chunk planner
//! that splits an oversized batch into blocks, each small enough to commit
//! (together with one header update and one entry delete) in a single atomic
//! backend transaction.
//!
//! Within a region rooted at a base key, the journal owns the keys starting
//! with `base_key` followed by [`crate::JOURNAL_TAG`]: one header key, and
//! one entry key per block, indexed by a big-endian 32-bit position.

use vstd::prelude::*;
use vstd::slice::slice_to_vec;

use crate::batch::DynamoDbBatch;
use crate::batch::SimpleUnorderedBatch;
use crate::errors::DynamoDbContextError;
use crate::JOURNAL_TAG;
use crate::MAX_BATCH_WRITE_ITEM_BYTES;
use crate::MAX_TRANSACT_WRITE_ITEM_SIZE;

verus! {

/// Sub-tag of the single journal header of a region.
pub const JOURNAL_HEADER_TAG: u8 = 1;

/// Sub-tag of the journal block entries of a region.
pub const JOURNAL_ENTRY_TAG: u8 = 2;

/// The persisted state of a journal: how many block entries exist.  While a
/// header with count `n` is stored, entries `0 .. n-1` are all stored.
#[derive(Clone, Copy, Debug, PartialEq, Eq, Structural)]
pub struct JournalHeader {
    /// The number of block entries still to drain.
    pub block_count: u32,
}

/// The four big-endian bytes of a 32-bit block position.
pub open spec fn be_u32_bytes(x: u32) -> Seq<u8> {
    seq![
        ((x >> 24) & 0xff) as u8,
        ((x >> 16) & 0xff) as u8,
        ((x >> 8) & 0xff) as u8,
        (x & 0xff) as u8,
    ]
}

/// The four little-endian bytes of the stored header payload.
pub open spec fn le_u32_bytes(x: u32) -> Seq<u8> {
    seq![
        (x & 0xff) as u8,
        ((x >> 8) & 0xff) as u8,
        ((x >> 16) & 0xff) as u8,
        ((x >> 24) & 0xff) as u8,
    ]
}

/// The key of the journal header of the region rooted at `base`.
pub open spec fn journal_header_key_spec(base: Seq<u8>) -> Seq<u8> {
    base.push(JOURNAL_TAG).push(JOURNAL_HEADER_TAG)
}

/// The key of journal block entry `pos` of the region rooted at `base`.
pub open spec fn journal_entry_key_spec(base: Seq<u8>, pos: u32) -> Seq<u8> {
    base.push(JOURNAL_TAG).push(JOURNAL_ENTRY_TAG) + be_u32_bytes(pos)
}

/// Whether `k` lies in the journal namespace of the region rooted at `base`.
pub open spec fn in_journal_namespace(base: Seq<u8>, k: Seq<u8>) -> bool {
    base.push(JOURNAL_TAG).is_prefix_of(k)
}

/// Builds the journal header key of a region.
pub fn journal_header_key(base_key: &[u8]) -> (r: Vec<u8>)
    ensures
        r@ == journal_header_key_spec(base_key@),
{
    let mut key = slice_to_vec(base_key);
    key.push(JOURNAL_TAG);
    key.push(JOURNAL_HEADER_TAG);
    key
}

/// Builds the journal block entry key of a region at a position.
pub fn journal_entry_key(base_key: &[u8], pos: u32) -> (r: Vec<u8>)
    ensures
        r@ == journal_entry_key_spec(base_key@, pos),
{
    let mut key = slice_to_vec(base_key);
    key.push(JOURNAL_TAG);
    key.push(JOURNAL_ENTRY_TAG);
    key.push(((pos >> 24) & 0xff) as u8);
    key.push(((pos >> 16) & 0xff) as u8);
    key.push(((pos >> 8) & 0xff) as u8);
    key.push((pos & 0xff) as u8);
    proof {
        assert(key@ =~= journal_entry_key_spec(base_key@, pos));
    }
    key
}

impl JournalHeader {
    /// Encodes the header as its stable four-byte little-endian payload.
    pub fn encode(&self) -> (r: Vec<u8>)
        ensures
            r@ == le_u32_bytes(self.block_count),
    {
        let x = self.block_count;
        let mut out: Vec<u8> = Vec::new();
        out.push((x & 0xff) as u8);
        out.push(((x >> 8) & 0xff) as u8);
        out.push(((x >> 16) & 0xff) as u8);
        out.push(((x >> 24) & 0xff) as u8);
        proof {
            assert(out@ =~= le_u32_bytes(x));
        }
        out
    }

    /// Decodes a stored header payload; any payload that is not exactly four
    /// bytes is a codec error.
    pub fn decode(bytes: &[u8]) -> (r: Result<JournalHeader, DynamoDbContextError>)
        ensures
            match r {
                Ok(h) => bytes@ == le_u32_bytes(h.block_count),
                Err(e) => e is BcsError && bytes@.len() != 4,
            },
            bytes@.len() == 4 ==> r is Ok,
    {
        if bytes.len() != 4 {
            return Err(DynamoDbContextError::BcsError);
        }
        let b0 = bytes[0];
        let b1 = bytes[1];
        let b2 = bytes[2];
        let b3 = bytes[3];
        let x: u32 = (b0 as u32) | ((b1 as u32) << 8) | ((b2 as u32) << 16) | ((b3 as u32) << 24);
        proof {
            assert((x & 0xff) as u8 == b0 && ((x >> 8) & 0xff) as u8 == b1 && ((x >> 16) & 0xff)
                as u8 == b2 && ((x >> 24) & 0xff) as u8 == b3) by (bit_vector)
                requires
                    x == (b0 as u32) | ((b1 as u32) << 8) | ((b2 as u32) << 16) | ((b3 as u32)
                        << 24),
            ;
            assert(bytes@ =~= le_u32_bytes(x));
        }
        Ok(JournalHeader { block_count: x })
    }
}

/// The views of a list of keys.
pub open spec fn key_dv(s: Seq<Vec<u8>>) -> Seq<Seq<u8>> {
    s.map_values(|x: Vec<u8>| x@)
}

/// The views of a list of key/value pairs.
pub open spec fn kv_dv(s: Seq<(Vec<u8>, Vec<u8>)>) -> Seq<(Seq<u8>, Seq<u8>)> {
    s.map_values(|x: (Vec<u8>, Vec<u8>)| (x.0@, x.1@))
}

/// The deletions of a list of blocks, concatenated in block order.
pub open spec fn blocks_dels(blocks: Seq<DynamoDbBatch>) -> Seq<Seq<u8>>
    decreases blocks.len(),
{
    if blocks.len() == 0 {
        Seq::empty()
    } else {
        key_dv(blocks[0].0.deletions@) + blocks_dels(blocks.skip(1))
    }
}

/// The insertions of a list of blocks, concatenated in block order.
pub open spec fn blocks_ins(blocks: Seq<DynamoDbBatch>) -> Seq<(Seq<u8>, Seq<u8>)>
    decreases blocks.len(),
{
    if blocks.len() == 0 {
        Seq::empty()
    } else {
        kv_dv(blocks[0].0.insertions@) + blocks_ins(blocks.skip(1))
    }
}

/// Appending a block appends its operations to the concatenations.
pub proof fn lemma_blocks_push(blocks: Seq<DynamoDbBatch>, b: DynamoDbBatch)
    ensures
        blocks_dels(blocks.push(b)) == blocks_dels(blocks) + key_dv(b.0.deletions@),
        blocks_ins(blocks.push(b)) == blocks_ins(blocks) + kv_dv(b.0.insertions@),
    decreases blocks.len(),
{
    assert(blocks_dels(Seq::<DynamoDbBatch>::empty()) == Seq::<Seq<u8>>::empty());
    assert(blocks_ins(Seq::<DynamoDbBatch>::empty()) == Seq::<(Seq<u8>, Seq<u8>)>::empty());
    if blocks.len() == 0 {
        assert(blocks.push(b)[0] == b);
        assert(blocks.push(b).skip(1) =~= Seq::<DynamoDbBatch>::empty());
        assert(blocks_dels(blocks.push(b)) =~= blocks_dels(blocks) + key_dv(b.0.deletions@));
        assert(blocks_ins(blocks.push(b)) =~= blocks_ins(blocks) + kv_dv(b.0.insertions@));
    } else {
        assert(blocks.push(b)[0] == blocks[0]);
        assert(blocks.push(b).skip(1) =~= blocks.skip(1).push(b));
        lemma_blocks_push(blocks.skip(1), b);
        assert(blocks_dels(blocks.push(b)) =~= blocks_dels(blocks) + key_dv(b.0.deletions@));
        assert(blocks_ins(blocks.push(b)) =~= blocks_ins(blocks) + kv_dv(b.0.insertions@));
    }
}

/// The number of operations in one block.
pub open spec fn block_op_count(b: DynamoDbBatch) -> nat {
    b.0.deletions@.len() + b.0.insertions@.len()
}

/// The byte footprint of a list of keys.
pub open spec fn keys_size(s: Seq<Seq<u8>>) -> nat
    decreases s.len(),
{
    if s.len() == 0 {
        0
    } else {
        s[0].len() + keys_size(s.skip(1))
    }
}

/// The byte footprint of a list of key/value pairs.
pub open spec fn pairs_size(s: Seq<(Seq<u8>, Seq<u8>)>) -> nat
    decreases s.len(),
{
    if s.len() == 0 {
        0
    } else {
        s[0].0.len() + s[0].1.len() + pairs_size(s.skip(1))
    }
}

/// The byte footprint of one block.
pub open spec fn block_size(b: DynamoDbBatch) -> nat {
    keys_size(key_dv(b.0.deletions@)) + pairs_size(kv_dv(b.0.insertions@))
}

/// Appending a key adds its length to the footprint.
pub proof fn lemma_keys_size_push(s: Seq<Seq<u8>>, x: Seq<u8>)
    ensures
        keys_size(s.push(x)) == keys_size(s) + x.len(),
    decreases s.len(),
{
    assert(keys_size(Seq::<Seq<u8>>::empty()) == 0);
    if s.len() == 0 {
        assert(s.push(x)[0] == x);
        assert(s.push(x).skip(1) =~= Seq::<Seq<u8>>::empty());
    } else {
        assert(s.push(x)[0] == s[0]);
        assert(s.push(x).skip(1) =~= s.skip(1).push(x));
        lemma_keys_size_push(s.skip(1), x);
    }
}

/// Appending a pair adds its lengths to the footprint.
pub proof fn lemma_pairs_size_push(s: Seq<(Seq<u8>, Seq<u8>)>, x: (Seq<u8>, Seq<u8>))
    ensures
        pairs_size(s.push(x)) == pairs_size(s) + x.0.len() + x.1.len(),
    decreases s.len(),
{
    assert(pairs_size(Seq::<(Seq<u8>, Seq<u8>)>::empty()) == 0);
    if s.len() == 0 {
        assert(s.push(x)[0] == x);
        assert(s.push(x).skip(1) =~= Seq::<(Seq<u8>, Seq<u8>)>::empty());
    } else {
        assert(s.push(x)[0] == s[0]);
        assert(s.push(x).skip(1) =~= s.skip(1).push(x));
        lemma_pairs_size_push(s.skip(1), x);
    }
}

/// Whether every single operation of a normalized batch fits in a block by
/// itself.  Validated values always do; this additionally bounds the keys.
pub open spec fn all_op_sizes_bounded(b: &DynamoDbBatch) -> bool {
    &&& forall|i: int|
        0 <= i < b.0.deletions@.len() ==> (#[trigger] b.0.deletions@[i])@.len()
            <= MAX_BATCH_WRITE_ITEM_BYTES
    &&& forall|i: int|
        0 <= i < b.0.insertions@.len() ==> (#[trigger] b.0.insertions@[i]).0@.len()
            + b.0.insertions@[i].1@.len() <= MAX_BATCH_WRITE_ITEM_BYTES
}

impl DynamoDbBatch {
    /// Splits the batch into blocks, walking the deletions then the
    /// insertions in order.  A block is closed after its last operation when
    /// the batch is exhausted, when it holds two operations fewer than one
    /// atomic transaction accepts (the slack carries the header update and
    /// the entry delete of replay), or when the next operation would push
    /// its byte footprint over the block ceiling.
    #[verifier::rlimit(80)]
    pub fn plan_blocks(&self) -> (r: Vec<DynamoDbBatch>)
        requires
            self.0.deletions@.len() + self.0.insertions@.len() <= usize::MAX,
        ensures
            blocks_dels(r@) == key_dv(self.0.deletions@),
            blocks_ins(r@) == kv_dv(self.0.insertions@),
            forall|bi: int|
                0 <= bi < r@.len() ==> 1 <= block_op_count(#[trigger] r@[bi])
                    <= MAX_TRANSACT_WRITE_ITEM_SIZE - 2,
            all_op_sizes_bounded(self) ==> forall|bi: int|
                0 <= bi < r@.len() ==> block_size(#[trigger] r@[bi]) <= MAX_BATCH_WRITE_ITEM_BYTES,
            r@.len() <= self.0.deletions@.len() + self.0.insertions@.len(),
            self.0.deletions@.len() + self.0.insertions@.len() > 0 ==> r@.len() > 0,
            total_batch_size(self) <= MAX_BATCH_WRITE_ITEM_BYTES ==> forall|bi: int|
                0 <= bi < r@.len() - 1 ==> block_op_count(#[trigger] r@[bi])
                    == MAX_TRANSACT_WRITE_ITEM_SIZE - 2,
    {
        let delete_count = self.0.deletions.len();
        let insert_count = self.0.insertions.len();
        let total = delete_count + insert_count;
        let mut blocks: Vec<DynamoDbBatch> = Vec::new();
        let mut deletions: Vec<Vec<u8>> = Vec::new();
        let mut insertions: Vec<(Vec<u8>, Vec<u8>)> = Vec::new();
        let mut curr_size: usize = 0;
        let mut curr_len: usize = 0;
        proof {
            assert(key_dv(self.0.deletions@).take(0) =~= Seq::<Seq<u8>>::empty());
            assert(kv_dv(self.0.insertions@).take(0) =~= Seq::<(Seq<u8>, Seq<u8>)>::empty());
            assert(blocks_dels(blocks@) + key_dv(deletions@) =~= Seq::<Seq<u8>>::empty());
            assert(blocks_ins(blocks@) + kv_dv(insertions@) =~= Seq::<(Seq<u8>, Seq<u8>)>::empty());
            assert(key_dv(self.0.deletions@).skip(0) =~= key_dv(self.0.deletions@));
            assert(tail_size(self, 0) == total_batch_size(self));
        }
        for i in 0..total
            invariant
                total == delete_count + insert_count,
                delete_count == self.0.deletions@.len(),
                insert_count == self.0.insertions@.len(),
                blocks_dels(blocks@) + key_dv(deletions@) == key_dv(self.0.deletions@).take(
                    if i <= delete_count {
                        i as int
                    } else {
                        delete_count as int
                    },
                ),
                blocks_ins(blocks@) + kv_dv(insertions@) == kv_dv(self.0.insertions@).take(
                    if i <= delete_count {
                        0
                    } else {
                        i - delete_count
                    },
                ),
                curr_len == deletions@.len() + insertions@.len(),
                curr_len < MAX_TRANSACT_WRITE_ITEM_SIZE - 2,
                i == total ==> curr_len == 0,
                blocks@.len() + curr_len <= i,
                forall|bi: int|
                    0 <= bi < blocks@.len() ==> 1 <= block_op_count(#[trigger] blocks@[bi])
                        <= MAX_TRANSACT_WRITE_ITEM_SIZE - 2,
                total_batch_size(self) <= MAX_BATCH_WRITE_ITEM_BYTES ==> {
                    &&& curr_size + tail_size(self, i as int) <= total_batch_size(self)
                    &&& (forall|bi: int|
                        0 <= bi < blocks@.len() - 1 ==> block_op_count(#[trigger] blocks@[bi])
                            == MAX_TRANSACT_WRITE_ITEM_SIZE - 2)
                    &&& (i < total && blocks@.len() > 0 ==> block_op_count(
                        blocks@[blocks@.len() - 1],
                    ) == MAX_TRANSACT_WRITE_ITEM_SIZE - 2)
                },
                all_op_sizes_bounded(self) ==> {
                    &&& curr_size == keys_size(key_dv(deletions@)) + pairs_size(kv_dv(insertions@))
                    &&& (curr_len == 0 || (i < total && curr_size + combined_size_at(
                        self,
                        i as int,
                    ) <= MAX_BATCH_WRITE_ITEM_BYTES))
                    &&& forall|bi: int|
                        0 <= bi < blocks@.len() ==> block_size(#[trigger] blocks@[bi])
                            <= MAX_BATCH_WRITE_ITEM_BYTES
                },
        {
            let ghost dels0 = deletions@;
            let ghost ins0 = insertions@;
            // append operation i to the current block
            if i < delete_count {
                let x = self.0.deletions[i].clone();
                curr_size = curr_size.saturating_add(x.len());
                proof {
                    assert(x@ == self.0.deletions@[i as int]@);
                    if total_batch_size(self) <= MAX_BATCH_WRITE_ITEM_BYTES {
                        assert(key_dv(self.0.deletions@).skip(i as int)[0] == key_dv(
                            self.0.deletions@,
                        )[i as int]);
                        assert(key_dv(self.0.deletions@).skip(i as int).skip(1) =~= key_dv(
                            self.0.deletions@,
                        ).skip(i as int + 1));
                        assert(tail_size(self, i as int) == x@.len() + tail_size(
                            self,
                            i as int + 1,
                        ));
                    }
                    lemma_keys_size_push(key_dv(dels0), x@);
                    assert(key_dv(dels0.push(x)) =~= key_dv(dels0).push(x@));
                    assert(key_dv(self.0.deletions@).take(i as int + 1) =~= key_dv(
                        self.0.deletions@,
                    ).take(i as int).push(x@));
                    assert((blocks_dels(blocks@) + key_dv(dels0)).push(x@) =~= blocks_dels(blocks@)
                        + key_dv(dels0).push(x@));
                }
                deletions.push(x);
            } else {
                let x = (self.0.insertions[i - delete_count].0.clone(), self.0.insertions[i
                    - delete_count].1.clone());
                curr_size = curr_size.saturating_add(x.0.len().saturating_add(x.1.len()));
                proof {
                    assert(x.0@ == self.0.insertions@[i - delete_count].0@ && x.1@
                        == self.0.insertions@[i - delete_count].1@);
                    if total_batch_size(self) <= MAX_BATCH_WRITE_ITEM_BYTES {
                        let j = i - delete_count;
                        if i == delete_count {
                            assert(key_dv(self.0.deletions@).skip(delete_count as int) =~= Seq::<
                                Seq<u8>,
                            >::empty());
                            assert(keys_size(Seq::<Seq<u8>>::empty()) == 0);
                            assert(kv_dv(self.0.insertions@).skip(0) =~= kv_dv(
                                self.0.insertions@,
                            ));
                        }
                        assert(kv_dv(self.0.insertions@).skip(j as int)[0] == kv_dv(
                            self.0.insertions@,
                        )[j as int]);
                        assert(kv_dv(self.0.insertions@).skip(j as int).skip(1) =~= kv_dv(
                            self.0.insertions@,
                        ).skip(j as int + 1));
                        assert(tail_size(self, i as int) == (x.0@.len() + x.1@.len()) + tail_size(
                            self,
                            i as int + 1,
                        ));
                    }
                    lemma_pairs_size_push(kv_dv(ins0), (x.0@, x.1@));
                    assert(kv_dv(ins0.push(x)) =~= kv_dv(ins0).push((x.0@, x.1@)));
                    assert(kv_dv(self.0.insertions@).take(i - delete_count + 1) =~= kv_dv(
                        self.0.insertions@,
                    ).take(i - delete_count).push((x.0@, x.1@)));
                    assert((blocks_ins(blocks@) + kv_dv(ins0)).push((x.0@, x.1@)) =~= blocks_ins(
                        blocks@,
                    ) + kv_dv(ins0).push((x.0@, x.1@)));
                }
                insertions.push(x);
            }
            curr_len = curr_len + 1;
            // decide whether to close the block
            let do_flush = if i == total - 1 || curr_len == MAX_TRANSACT_WRITE_ITEM_SIZE - 2 {
                true
            } else {
                let size_next = if i + 1 < delete_count {
                    self.0.deletions[i + 1].len()
                } else {
                    let kv = &self.0.insertions[i + 1 - delete_count];
                    kv.0.len().saturating_add(kv.1.len())
                };
                proof {
                    if all_op_sizes_bounded(self) {
                        assert(size_next == combined_size_at(self, i as int + 1));
                    }
                    if total_batch_size(self) <= MAX_BATCH_WRITE_ITEM_BYTES {
                        // the whole batch fits one block, so the next
                        // operation can never overflow the current one
                        if i + 1 < delete_count {
                            assert(key_dv(self.0.deletions@).skip(i as int + 1)[0] == key_dv(
                                self.0.deletions@,
                            )[i as int + 1]);
                            assert(size_next <= tail_size(self, i as int + 1));
                        } else {
                            let j = i + 1 - delete_count;
                            if i + 1 == delete_count {
                                assert(key_dv(self.0.deletions@).skip(delete_count as int) =~= Seq::<
                                    Seq<u8>,
                                >::empty());
                                assert(keys_size(Seq::<Seq<u8>>::empty()) == 0);
                                assert(kv_dv(self.0.insertions@).skip(0) =~= kv_dv(
                                    self.0.insertions@,
                                ));
                            }
                            assert(kv_dv(self.0.insertions@).skip(j as int)[0] == kv_dv(
                                self.0.insertions@,
                            )[j as int]);
                            assert(size_next <= tail_size(self, i as int + 1));
                        }
                        assert(curr_size + size_next <= MAX_BATCH_WRITE_ITEM_BYTES);
                    }
                }
                curr_size.saturating_add(size_next) > MAX_BATCH_WRITE_ITEM_BYTES
            };
            if do_flush {
                let ghost blocks0 = blocks@;
                let d = deletions;
                let ins = insertions;
                deletions = Vec::new();
                insertions = Vec::new();
                let entry = DynamoDbBatch(SimpleUnorderedBatch { deletions: d, insertions: ins });
                blocks.push(entry);
                curr_size = 0;
                curr_len = 0;
                proof {
                    lemma_blocks_push(blocks0, entry);
                    assert(blocks_dels(blocks@) + key_dv(deletions@) =~= blocks_dels(blocks0)
                        + key_dv(entry.0.deletions@));
                    assert(blocks_ins(blocks@) + kv_dv(insertions@) =~= blocks_ins(blocks0)
                        + kv_dv(entry.0.insertions@));
                }
            }
        }
        proof {
            assert(key_dv(self.0.deletions@).take(delete_count as int) =~= key_dv(
                self.0.deletions@,
            ));
            assert(kv_dv(self.0.insertions@).take(insert_count as int) =~= kv_dv(
                self.0.insertions@,
            ));
            assert(deletions@.len() == 0 && insertions@.len() == 0);
            assert(key_dv(deletions@).len() == 0 && kv_dv(insertions@).len() == 0);
            if total > 0 && blocks@.len() == 0 {
                assert(blocks_dels(blocks@) == Seq::<Seq<u8>>::empty());
                assert(blocks_ins(blocks@) == Seq::<(Seq<u8>, Seq<u8>)>::empty());
                assert(key_dv(self.0.deletions@).take(delete_count as int).len() == 0);
                assert(kv_dv(self.0.insertions@).take(insert_count as int).len() == 0);
                assert(false);
            }
            assert(blocks_dels(blocks@) + key_dv(deletions@) =~= blocks_dels(blocks@));
            assert(blocks_ins(blocks@) + kv_dv(insertions@) =~= blocks_ins(blocks@));
        }
        blocks
    }
}

/// The byte footprint of operation `i` of the walk: the deletions first,
/// then the insertions.
pub open spec fn combined_size_at(b: &DynamoDbBatch, i: int) -> nat {
    if i < b.0.deletions@.len() {
        b.0.deletions@[i]@.len()
    } else {
        b.0.insertions@[i - b.0.deletions@.len()].0@.len() + b.0.insertions@[i
            - b.0.deletions@.len()].1@.len()
    }
}

/// The whole byte footprint of a normalized batch.
pub open spec fn total_batch_size(b: &DynamoDbBatch) -> nat {
    keys_size(key_dv(b.0.deletions@)) + pairs_size(kv_dv(b.0.insertions@))
}

/// The byte footprint of the operations not yet walked: the deletions from
/// `i` on, then the insertions.
pub open spec fn tail_size(b: &DynamoDbBatch, i: int) -> nat {
    if i <= b.0.deletions@.len() {
        keys_size(key_dv(b.0.deletions@).skip(i)) + pairs_size(kv_dv(b.0.insertions@))
    } else {
        pairs_size(kv_dv(b.0.insertions@).skip(i - b.0.deletions@.len()))
    }
}

} // verus!
