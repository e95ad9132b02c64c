//! Trusted bindings to the stable binary codec that serializes journal block
//! payloads.
//!
//! A block payload is the pair of its deletion and insertion lists.  The
//! codec is canonical: every value has exactly one valid byte
//! representation, the decoder rejects anything else (including trailing
//! bytes and non-canonical length prefixes), so decoding is the exact
//! inverse of encoding.  The encoding itself is named, not restated: the
//! contracts below say that it is a pure function of the lists, when
//! encoding succeeds, and that decoding recovers the unique preimage.

use vstd::prelude::*;

use crate::batch::DynamoDbBatch;
use crate::batch::SimpleUnorderedBatch;
use crate::errors::DynamoDbContextError;
use crate::journal::key_dv;
use crate::journal::kv_dv;

verus! {

/// The canonical byte encoding of a block payload, as a function of the
/// deletion and insertion lists alone.
pub uninterp spec fn batch_encoding(
    deletions: Seq<Seq<u8>>,
    insertions: Seq<(Seq<u8>, Seq<u8>)>,
) -> Seq<u8>;

/// The codec's ceiling on the length of any one sequence.
pub const MAX_CODEC_SEQUENCE_LENGTH: usize = 2147483647;

/// Whether every sequence of a block payload is within the codec's ceiling,
/// so that encoding is owed to succeed.
pub open spec fn codec_sizes_ok(deletions: Seq<Seq<u8>>, insertions: Seq<(Seq<u8>, Seq<u8>)>) -> bool {
    &&& deletions.len() <= MAX_CODEC_SEQUENCE_LENGTH
    &&& insertions.len() <= MAX_CODEC_SEQUENCE_LENGTH
    &&& forall|i: int|
        0 <= i < deletions.len() ==> (#[trigger] deletions[i]).len() <= MAX_CODEC_SEQUENCE_LENGTH
    &&& forall|i: int|
        0 <= i < insertions.len() ==> (#[trigger] insertions[i]).0.len()
            <= MAX_CODEC_SEQUENCE_LENGTH && insertions[i].1.len() <= MAX_CODEC_SEQUENCE_LENGTH
}

/// Relies on bcs::to_bytes: deterministic and canonical, a pure function of
/// the serialized value; for this payload shape (container depth zero) it
/// fails exactly when some sequence exceeds the codec's length ceiling.
#[verifier::external_body]
pub fn serialize_batch(b: &DynamoDbBatch) -> (r: Result<Vec<u8>, DynamoDbContextError>)
    ensures
        match r {
            Ok(bytes) => bytes@ == batch_encoding(key_dv(b.0.deletions@), kv_dv(b.0.insertions@)),
            Err(e) => e is BcsError && !codec_sizes_ok(
                key_dv(b.0.deletions@),
                kv_dv(b.0.insertions@),
            ),
        },
        codec_sizes_ok(key_dv(b.0.deletions@), kv_dv(b.0.insertions@)) ==> r is Ok,
{
    match bcs::to_bytes(&(&b.0.deletions, &b.0.insertions)) {
        Ok(bytes) => Ok(bytes),
        Err(_) => Err(DynamoDbContextError::BcsError),
    }
}

/// Relies on bcs::from_bytes: accepts exactly the canonical encodings,
/// rejects trailing input and non-canonical length prefixes, so a decoded
/// value is the unique preimage of the input bytes.
#[verifier::external_body]
pub fn deserialize_batch(bytes: &[u8]) -> (r: Result<DynamoDbBatch, DynamoDbContextError>)
    ensures
        match r {
            Ok(b) => bytes@ == batch_encoding(key_dv(b.0.deletions@), kv_dv(b.0.insertions@))
                && (forall|d: Seq<Seq<u8>>, ins: Seq<(Seq<u8>, Seq<u8>)>|
                bytes@ == #[trigger] batch_encoding(d, ins) ==> d == key_dv(b.0.deletions@) && ins
                    == kv_dv(b.0.insertions@)),
            Err(e) => e is BcsError && (forall|d: Seq<Seq<u8>>, ins: Seq<(Seq<u8>, Seq<u8>)>|
                bytes@ != #[trigger] batch_encoding(d, ins)),
        },
{
    match bcs::from_bytes::<(Vec<Vec<u8>>, Vec<(Vec<u8>, Vec<u8>)>)>(bytes) {
        Ok(p) => Ok(DynamoDbBatch(SimpleUnorderedBatch { deletions: p.0, insertions: p.1 })),
        Err(_) => Err(DynamoDbContextError::BcsError),
    }
}

} // verus!
