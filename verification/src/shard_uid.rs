//! Versioned shard identifiers and their eight-byte storage encoding.

use vstd::bytes::{
    lemma_auto_spec_u32_to_from_le_bytes, spec_u32_from_le_bytes, spec_u32_to_le_bytes,
    u32_from_le_bytes, u32_to_le_bytes,
};
use vstd::prelude::*;
use vstd::slice::slice_subrange;

verus! {

/// Identity of one shard instance: the version of the layout that created it
/// and its number within that layout.
#[derive(Clone, Copy, Debug, PartialEq, Eq, Structural, Hash)]
pub struct ShardUId {
    pub version: u32,
    pub shard_id: u32,
}

/// The storage encoding of a shard identifier: the version and then the
/// shard number, each as four little-endian bytes.
pub open spec fn spec_shard_uid_bytes(uid: ShardUId) -> Seq<u8> {
    spec_u32_to_le_bytes(uid.version) + spec_u32_to_le_bytes(uid.shard_id)
}

/// The shard identifier that eight bytes encode.
pub open spec fn spec_shard_uid_from_bytes(bytes: Seq<u8>) -> ShardUId
    recommends
        bytes.len() == 8,
{
    ShardUId {
        version: spec_u32_from_le_bytes(bytes.subrange(0, 4)),
        shard_id: spec_u32_from_le_bytes(bytes.subrange(4, 8)),
    }
}

impl ShardUId {
    /// The shard numbered `shard_id` that a layout of `version` created.
    pub fn new(version: u32, shard_id: u32) -> (uid: ShardUId)
        ensures
            uid.version == version,
            uid.shard_id == shard_id,
    {
        ShardUId { version, shard_id }
    }

    /// The eight bytes under which the shard's records are keyed.
    pub fn to_bytes(&self) -> (out: Vec<u8>)
        ensures
            out@ == spec_shard_uid_bytes(*self),
            out@.len() == 8,
    {
        let mut out = u32_to_le_bytes(self.version);
        let mut tail = u32_to_le_bytes(self.shard_id);
        out.append(&mut tail);
        out
    }

    /// Decodes a shard identifier from exactly eight bytes.
    pub fn from_bytes(bytes: &[u8]) -> (r: Option<ShardUId>)
        ensures
            r is Some <==> bytes@.len() == 8,
            r matches Some(uid) ==> uid == spec_shard_uid_from_bytes(bytes@),
    {
        if bytes.len() != 8 {
            return None;
        }
        let version = u32_from_le_bytes(slice_subrange(bytes, 0, 4));
        let shard_id = u32_from_le_bytes(slice_subrange(bytes, 4, 8));
        Some(ShardUId { version, shard_id })
    }
}

/// Decoding the encoding of a shard identifier gives the identifier back.
pub proof fn lemma_shard_uid_decode_encode(uid: ShardUId)
    ensures
        spec_shard_uid_bytes(uid).len() == 8,
        spec_shard_uid_from_bytes(spec_shard_uid_bytes(uid)) == uid,
{
    lemma_auto_spec_u32_to_from_le_bytes();
    let bytes = spec_shard_uid_bytes(uid);
    assert(bytes.subrange(0, 4) =~= spec_u32_to_le_bytes(uid.version));
    assert(bytes.subrange(4, 8) =~= spec_u32_to_le_bytes(uid.shard_id));
}

/// Encoding what eight bytes decode to gives the bytes back.
pub proof fn lemma_shard_uid_encode_decode(bytes: Seq<u8>)
    requires
        bytes.len() == 8,
    ensures
        spec_shard_uid_bytes(spec_shard_uid_from_bytes(bytes)) == bytes,
{
    lemma_auto_spec_u32_to_from_le_bytes();
    assert(bytes.subrange(0, 4) + bytes.subrange(4, 8) =~= bytes);
}

/// Different shard identifiers have different encodings.
pub proof fn lemma_shard_uid_bytes_injective(a: ShardUId, b: ShardUId)
    requires
        spec_shard_uid_bytes(a) == spec_shard_uid_bytes(b),
    ensures
        a == b,
{
    lemma_shard_uid_decode_encode(a);
    lemma_shard_uid_decode_encode(b);
}

} // verus!
