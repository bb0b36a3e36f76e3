//! The byte layout of the node storage column.
//!
//! A record's key is the eight bytes of its shard identifier followed by the
//! bytes of the node hash. Its value is the node's bytes followed by the
//! number of owners as eight little-endian bytes.

use crate::hash::CryptoHash;
use crate::shard_uid::{
    lemma_shard_uid_decode_encode, lemma_shard_uid_encode_decode, spec_shard_uid_bytes,
    spec_shard_uid_from_bytes, ShardUId,
};
use vstd::bytes::{
    lemma_auto_spec_u64_to_from_le_bytes, spec_u64_from_le_bytes, spec_u64_to_le_bytes,
    u64_from_le_bytes, u64_to_le_bytes,
};
use vstd::prelude::*;
use vstd::slice::{slice_subrange, slice_to_vec};

verus! {

/// The key of the record of node `hash` under `shard`.
pub open spec fn spec_encode_key(shard: ShardUId, hash: Seq<u8>) -> Seq<u8> {
    spec_shard_uid_bytes(shard) + hash
}

/// The value of a record with the given bytes and owner count.
pub open spec fn spec_encode_value(bytes: Seq<u8>, refcount: u64) -> Seq<u8> {
    bytes + spec_u64_to_le_bytes(refcount)
}

/// The owner count that the last eight bytes of a value give.
pub open spec fn spec_value_refcount(value: Seq<u8>) -> u64
    recommends
        value.len() >= 8,
{
    spec_u64_from_le_bytes(value.subrange(value.len() - 8, value.len() as int))
}

/// The node bytes and the owner count that a value holds. A value that is
/// too short to hold a count, or whose count is zero, holds no node.
pub open spec fn spec_decode_value(value: Seq<u8>) -> (Option<Seq<u8>>, u64) {
    if value.len() < 8 {
        (None, 0)
    } else if spec_value_refcount(value) == 0 {
        (None, 0)
    } else {
        (Some(value.subrange(0, value.len() - 8)), spec_value_refcount(value))
    }
}

/// Builds the key of the record of node `hash` under `shard`.
pub fn encode_key(shard: ShardUId, hash: &CryptoHash) -> (key: Vec<u8>)
    ensures
        key@ == spec_encode_key(shard, hash@),
        key@.len() == 40,
{
    let mut key = shard.to_bytes();
    let mut tail = hash.to_vec();
    key.append(&mut tail);
    key
}

/// Reads the shard and the node hash out of a key. A key decodes exactly
/// if it has forty bytes: the first eight give the shard, the rest the hash.
pub fn decode_key(key: &[u8]) -> (r: Option<(ShardUId, CryptoHash)>)
    ensures
        r is Some <==> key@.len() == 40,
        r matches Some((shard, hash)) ==> {
            &&& shard == spec_shard_uid_from_bytes(key@.subrange(0, 8))
            &&& hash@ == key@.subrange(8, 40)
        },
{
    if key.len() != 40 {
        return None;
    }
    let shard = ShardUId::from_bytes(slice_subrange(key, 0, 8));
    let hash = CryptoHash::from_slice(slice_subrange(key, 8, 40));
    match (shard, hash) {
        (Some(shard), Some(hash)) => Some((shard, hash)),
        _ => None,
    }
}

/// Builds the value of a record.
pub fn encode_value_with_rc(bytes: &[u8], refcount: u64) -> (value: Vec<u8>)
    ensures
        value@ == spec_encode_value(bytes@, refcount),
        value@.len() == bytes@.len() + 8,
{
    proof {
        lemma_auto_spec_u64_to_from_le_bytes();
    }
    let mut value = slice_to_vec(bytes);
    let mut tail = u64_to_le_bytes(refcount);
    value.append(&mut tail);
    value
}

/// Reads the node bytes and the owner count out of a value.
pub fn decode_value_with_rc(value: &[u8]) -> (r: (Option<Vec<u8>>, u64))
    ensures
        r.1 == spec_decode_value(value@).1,
        r.0 is Some <==> spec_decode_value(value@).0 is Some,
        r.0 matches Some(bytes) ==> Some(bytes@) == spec_decode_value(value@).0,
{
    let n = value.len();
    if n < 8 {
        return (None, 0);
    }
    let refcount = u64_from_le_bytes(slice_subrange(value, n - 8, n));
    if refcount == 0 {
        return (None, 0);
    }
    (Some(slice_to_vec(slice_subrange(value, 0, n - 8))), refcount)
}

/// The first eight bytes of a key decode to the record's shard and the
/// rest are the node hash.
pub proof fn lemma_key_parts(shard: ShardUId, hash: Seq<u8>)
    ensures
        spec_encode_key(shard, hash).len() == 8 + hash.len(),
        spec_shard_uid_from_bytes(spec_encode_key(shard, hash).subrange(0, 8)) == shard,
        spec_encode_key(shard, hash).subrange(8, 8 + hash.len() as int) == hash,
{
    lemma_shard_uid_decode_encode(shard);
    let key = spec_encode_key(shard, hash);
    assert(key.subrange(0, 8) =~= spec_shard_uid_bytes(shard));
    assert(key.subrange(8, 8 + hash.len() as int) =~= hash);
}

/// Different records have different keys.
pub proof fn lemma_key_injective(a: ShardUId, a_hash: Seq<u8>, b: ShardUId, b_hash: Seq<u8>)
    requires
        spec_encode_key(a, a_hash) == spec_encode_key(b, b_hash),
    ensures
        a == b,
        a_hash == b_hash,
{
    lemma_key_parts(a, a_hash);
    lemma_key_parts(b, b_hash);
}

/// Decoding the value of a record that has an owner gives its bytes and
/// its owner count back.
pub proof fn lemma_value_decode_encode(bytes: Seq<u8>, refcount: u64)
    ensures
        spec_decode_value(spec_encode_value(bytes, refcount)) == if refcount == 0 {
            (None::<Seq<u8>>, 0u64)
        } else {
            (Some(bytes), refcount)
        },
{
    lemma_auto_spec_u64_to_from_le_bytes();
    let value = spec_encode_value(bytes, refcount);
    assert(value.subrange(value.len() - 8, value.len() as int) =~= spec_u64_to_le_bytes(refcount));
    assert(value.subrange(0, value.len() - 8) =~= bytes);
}

/// A key of forty bytes is the key of the shard and the hash that it
/// decodes to.
pub proof fn lemma_key_encode_decode(key: Seq<u8>)
    requires
        key.len() == 40,
    ensures
        spec_encode_key(spec_shard_uid_from_bytes(key.subrange(0, 8)), key.subrange(8, 40)) == key,
{
    lemma_shard_uid_encode_decode(key.subrange(0, 8));
    assert(key.subrange(0, 8) + key.subrange(8, 40) =~= key);
}

/// A value that holds a node is the value of the bytes and the owner count
/// that it decodes to.
pub proof fn lemma_value_encode_decode(value: Seq<u8>)
    requires
        spec_decode_value(value).0 is Some,
    ensures
        spec_encode_value(spec_decode_value(value).0->0, spec_decode_value(value).1) == value,
        spec_decode_value(value).1 >= 1,
{
    lemma_auto_spec_u64_to_from_le_bytes();
    let n = value.len() as int;
    let tail = value.subrange(n - 8, n);
    assert(tail.len() == 8);
    assert(spec_u64_to_le_bytes(spec_u64_from_le_bytes(tail)) == tail);
    assert(value.subrange(0, n - 8) + tail =~= value);
}

} // verus!
