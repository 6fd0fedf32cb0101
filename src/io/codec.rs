//! The index codec: bincode's standard configuration, little-endian, with
//! variable-length integers.
//!
//! An integer up to 250 takes one byte; a larger one takes a marker byte
//! (251, 252 or 253) followed by its 2, 4 or 8 little-endian bytes, the
//! narrowest that holds it. A sequence is its length followed by its items.
use crate::io::format::{le_bytes, INDEX_REGION_BYTES};
use vstd::prelude::*;

verus! {

/// Variable-length encoding of one integer.
pub open spec fn varint(v: u64) -> Seq<u8> {
    if v <= 250 {
        seq![v as u8]
    } else if v <= 0xffff {
        seq![251u8] + le_bytes(v as nat, 2)
    } else if v <= 0xffff_ffff {
        seq![252u8] + le_bytes(v as nat, 4)
    } else {
        seq![253u8] + le_bytes(v as nat, 8)
    }
}

/// The items of a secondary-index fragment, one after the other.
pub open spec fn offsets_items(s: Seq<u64>) -> Seq<u8>
    decreases s.len(),
{
    if s.len() == 0 {
        seq![]
    } else {
        offsets_items(s.drop_last()) + varint(s.last())
    }
}

/// Serialized secondary-index fragment: a sequence of offsets.
pub open spec fn offsets_bytes(s: Seq<u64>) -> Seq<u8> {
    varint(s.len() as u64) + offsets_items(s)
}

/// One primary-index entry: offset, length, and a fragment tag (0 or 1).
pub open spec fn entry_bytes(e: (u64, u64, bool)) -> Seq<u8> {
    varint(e.0) + varint(e.1) + seq![if e.2 { 1u8 } else { 0u8 }]
}

/// The entries of a primary index, one after the other.
pub open spec fn index_items(s: Seq<(u64, u64, bool)>) -> Seq<u8>
    decreases s.len(),
{
    if s.len() == 0 {
        seq![]
    } else {
        index_items(s.drop_last()) + entry_bytes(s.last())
    }
}

/// Serialized primary index: a sequence of tagged entries.
pub open spec fn index_bytes(s: Seq<(u64, u64, bool)>) -> Seq<u8> {
    varint(s.len() as u64) + index_items(s)
}

/// A variable-length integer takes between one and nine bytes.
pub proof fn lemma_varint_len(v: u64)
    ensures
        1 <= varint(v).len() <= 9,
{
    reveal_with_fuel(le_bytes, 9);
}

/// A fragment of `n` offsets takes at most `9 * (n + 1)` bytes.
pub proof fn lemma_offsets_bytes_len(s: Seq<u64>)
    ensures
        offsets_bytes(s).len() <= 9 * (s.len() + 1),
    decreases s.len(),
{
    lemma_varint_len(s.len() as u64);
    lemma_offsets_items_len(s);
}

proof fn lemma_offsets_items_len(s: Seq<u64>)
    ensures
        offsets_items(s).len() <= 9 * s.len(),
    decreases s.len(),
{
    if s.len() > 0 {
        lemma_offsets_items_len(s.drop_last());
        lemma_varint_len(s.last());
    }
}

/// Relies on bincode::encode_to_vec: a `Vec<u64>` under the standard,
/// little-endian, variable-int configuration is written as `offsets_bytes`.
/// Writing into a `Vec` under that configuration (no size limit) never fails.
#[verifier::external_body]
pub(crate) fn encode_offsets(v: &Vec<u64>) -> (r: Option<Vec<u8>>)
    ensures
        r is Some && r->0@ == offsets_bytes(v@),
{
    let cfg = bincode::config::standard().with_little_endian().with_variable_int_encoding();
    bincode::encode_to_vec(v, cfg).ok()
}

/// Relies on bincode::encode_to_vec: a `Vec<(u64, u64, bool)>` under the
/// standard, little-endian, variable-int configuration is written as
/// `index_bytes`. Writing into a `Vec` under that configuration never fails.
#[verifier::external_body]
pub(crate) fn encode_index(v: &Vec<(u64, u64, bool)>) -> (r: Option<Vec<u8>>)
    ensures
        r is Some && r->0@ == index_bytes(v@),
{
    let cfg = bincode::config::standard().with_little_endian().with_variable_int_encoding();
    bincode::encode_to_vec(v, cfg).ok()
}

/// Relies on bincode::decode_from_slice for `Vec<(u64, u64, bool)>` under the
/// same configuration with a byte limit of 32 MiB: it reports how many bytes
/// it read, and decoding the encoding of a sequence gives that sequence back,
/// having read all of it. The limit makes an announced count larger than the
/// input can hold fail instead of reserving memory for it; an index of at
/// most 2 MiB has at most 2^21 / 3 entries, for which bincode claims 24 bytes
/// each plus 8 for the count, well under the limit. On other input (such as
/// a varint that is not the narrowest) it may still succeed, so nothing more
/// is stated of its result.
#[verifier::external_body]
pub(crate) fn decode_index(b: &[u8]) -> (r: Option<(Vec<(u64, u64, bool)>, usize)>)
    requires
        b@.len() <= INDEX_REGION_BYTES,
    ensures
        r is Some ==> (r->0).1 <= b@.len(),
        forall|s: Seq<(u64, u64, bool)>|
            #[trigger] index_bytes(s) == b@ ==> (r is Some && (r->0).0@ == s && (r->0).1
                == b@.len()),
{
    let cfg = bincode::config::standard()
        .with_little_endian()
        .with_variable_int_encoding()
        .with_limit::<33554432>();
    bincode::decode_from_slice(b, cfg).ok()
}

} // verus!
