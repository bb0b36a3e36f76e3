//! The node store: trie nodes keyed by shard and node hash, counted by
//! their owners, and read through the chain of parent shards.
//!
//! A child of a split starts without records of its own. A read that
//! misses under the child is retried under its parent, and so on up the
//! chain of splits, so that a split copies nothing.

use crate::account_id::{compare_bytes, Comparison};
use crate::error::{ActivationError, StoreError};
use crate::hash::{CryptoHash, StateRoot};
use crate::shard_uid::ShardUId;
use crate::shard_uid::spec_shard_uid_from_bytes;
use crate::storage_format::{
    decode_key, decode_value_with_rc, encode_key, encode_value_with_rc, lemma_key_encode_decode,
    lemma_value_encode_decode, spec_decode_value, spec_encode_key, spec_encode_value,
};
use vstd::prelude::*;

verus! {

/// The key of a node record.
pub struct NodeKey {
    pub shard: ShardUId,
    pub hash: Seq<u8>,
}

/// What a node record holds: the node's bytes and the number of its owners.
pub struct NodeEntry {
    pub bytes: Seq<u8>,
    pub refcount: nat,
}

/// What the store holds: the node records by key, and for each registered
/// child shard its parent.
pub struct TrieStoreView {
    pub nodes: Map<NodeKey, NodeEntry>,
    pub parents: Map<ShardUId, ShardUId>,
}

impl TrieStoreView {
    /// What holds of every store: a record has an owner, and a parent is
    /// of an earlier version than its child.
    pub open spec fn wf(self) -> bool {
        &&& forall|key: NodeKey|
            self.nodes.contains_key(key) ==> (#[trigger] self.nodes[key]).refcount >= 1
        &&& forall|child: ShardUId|
            self.parents.contains_key(child) ==> (#[trigger] self.parents[child]).version
                < child.version
    }

    /// Whether the store holds a record under exactly this key.
    pub open spec fn holds(self, shard: ShardUId, hash: Seq<u8>) -> bool {
        self.nodes.contains_key(NodeKey { shard, hash })
    }

    /// The number of owners of the record under exactly this key; zero if
    /// there is none.
    pub open spec fn refcount(self, shard: ShardUId, hash: Seq<u8>) -> nat {
        if self.holds(shard, hash) {
            self.nodes[NodeKey { shard, hash }].refcount
        } else {
            0
        }
    }

    /// Whether `shard` has a parent to fall back on.
    pub open spec fn has_parent(self, shard: ShardUId) -> bool {
        self.parents.contains_key(shard) && self.parents[shard].version < shard.version
    }

    /// The shard whose record answers a read of `hash` under `shard`: the
    /// shard itself if it holds one, else the nearest ancestor that does.
    pub open spec fn served_by(self, shard: ShardUId, hash: Seq<u8>) -> Option<ShardUId>
        decreases shard.version,
    {
        if self.holds(shard, hash) {
            Some(shard)
        } else if self.has_parent(shard) {
            self.served_by(self.parents[shard], hash)
        } else {
            None
        }
    }

    /// What a read of `hash` under `shard` returns.
    pub open spec fn lookup(self, shard: ShardUId, hash: Seq<u8>) -> Option<Seq<u8>> {
        match self.served_by(shard, hash) {
            Some(source) => Some(self.nodes[NodeKey { shard: source, hash }].bytes),
            None => None,
        }
    }

    /// Whether `bytes` may be put under the key: no other bytes are there.
    pub open spec fn agrees(self, shard: ShardUId, hash: Seq<u8>, bytes: Seq<u8>) -> bool {
        self.holds(shard, hash) ==> self.nodes[NodeKey { shard, hash }].bytes == bytes
    }

    /// The store after `bytes` were put under the key: one more owner.
    pub open spec fn put(self, shard: ShardUId, hash: Seq<u8>, bytes: Seq<u8>) -> TrieStoreView {
        TrieStoreView {
            nodes: self.nodes.insert(
                NodeKey { shard, hash },
                NodeEntry { bytes, refcount: self.refcount(shard, hash) + 1 },
            ),
            parents: self.parents,
        }
    }

    /// The store after one owner let go of the record under the key: one
    /// owner fewer, and no record once there is none.
    pub open spec fn gc(self, shard: ShardUId, hash: Seq<u8>) -> TrieStoreView {
        let key = NodeKey { shard, hash };
        if !self.holds(shard, hash) {
            self
        } else if self.nodes[key].refcount > 1 {
            TrieStoreView {
                nodes: self.nodes.insert(
                    key,
                    NodeEntry {
                        bytes: self.nodes[key].bytes,
                        refcount: (self.nodes[key].refcount - 1) as nat,
                    },
                ),
                parents: self.parents,
            }
        } else {
            TrieStoreView { nodes: self.nodes.remove(key), parents: self.parents }
        }
    }

    /// Whether `child` can be registered under `parent`.
    pub open spec fn can_link(self, child: ShardUId, parent: ShardUId) -> bool {
        self.parents.contains_key(child) ==> self.parents[child] == parent
    }

    /// The store after both children of a split were registered.
    pub open spec fn link_children(
        self,
        parent: ShardUId,
        left: ShardUId,
        right: ShardUId,
    ) -> TrieStoreView {
        TrieStoreView {
            nodes: self.nodes,
            parents: self.parents.insert(left, parent).insert(right, parent),
        }
    }

    /// Whether the pair of a key and a value is the stored form of some
    /// record.
    pub open spec fn stores(self, raw_key: Seq<u8>, raw_value: Seq<u8>) -> bool {
        exists|key: NodeKey| self.stores_as(key, raw_key, raw_value)
    }

    /// Whether one of `raw` is the stored form of the record under `key`.
    pub open spec fn lists(self, raw: Seq<(Vec<u8>, Vec<u8>)>, key: NodeKey) -> bool {
        exists|i: int| 0 <= i < raw.len() && self.stores_as(key, (#[trigger] raw[i]).0@, raw[i].1@)
    }

    /// Whether the pair of a key and a value is the stored form of the
    /// record under `key`.
    pub open spec fn stores_as(self, key: NodeKey, raw_key: Seq<u8>, raw_value: Seq<u8>) -> bool {
        &&& self.nodes.contains_key(key)
        &&& self.nodes[key].refcount <= u64::MAX
        &&& raw_key == spec_encode_key(key.shard, key.hash)
        &&& raw_value == spec_encode_value(self.nodes[key].bytes, self.nodes[key].refcount as u64)
    }
}

/// The key that the forty bytes of a stored key give.
pub open spec fn spec_node_key(raw_key: Seq<u8>) -> NodeKey {
    NodeKey {
        shard: spec_shard_uid_from_bytes(raw_key.subrange(0, 8)),
        hash: raw_key.subrange(8, 40),
    }
}

/// Whether stored records can be loaded: every key has forty bytes, every
/// value holds a node with an owner, and no key occurs twice.
pub open spec fn loadable(raw: Seq<(Vec<u8>, Vec<u8>)>) -> bool {
    &&& forall|i: int|
        0 <= i < raw.len() ==> (#[trigger] raw[i]).0@.len() == 40 && spec_decode_value(
            raw[i].1@,
        ).0 is Some
    &&& forall|i: int, j: int|
        0 <= i < j < raw.len() ==> (#[trigger] raw[i]).0@ != (#[trigger] raw[j]).0@
}

/// One node record.
#[derive(Clone, Debug)]
struct NodeRecord {
    shard: ShardUId,
    hash: CryptoHash,
    bytes: Vec<u8>,
    refcount: u64,
}

/// One registered child with its parent.
#[derive(Clone, Copy, Debug)]
struct ParentLink {
    child: ShardUId,
    parent: ShardUId,
}

/// The key of a record.
spec fn key_of(record: NodeRecord) -> NodeKey {
    NodeKey { shard: record.shard, hash: record.hash@ }
}

/// Whether the record stands under `key`.
spec fn is_record_of(record: NodeRecord, key: NodeKey) -> bool {
    record.shard == key.shard && record.hash@ == key.hash
}

/// Whether some record stands under `key`.
spec fn has_record(records: Seq<NodeRecord>, key: NodeKey) -> bool {
    exists|i: int| 0 <= i < records.len() && is_record_of(#[trigger] records[i], key)
}

/// What a record holds.
spec fn entry_of(record: NodeRecord) -> NodeEntry {
    NodeEntry { bytes: record.bytes@, refcount: record.refcount as nat }
}

/// What the record under `key` holds.
spec fn entry_at(records: Seq<NodeRecord>, key: NodeKey) -> NodeEntry {
    let i = choose|i: int| 0 <= i < records.len() && is_record_of(#[trigger] records[i], key);
    entry_of(records[i])
}

/// The records by their keys.
spec fn nodes_of(records: Seq<NodeRecord>) -> Map<NodeKey, NodeEntry> {
    Map::new(|key: NodeKey| has_record(records, key), |key: NodeKey| entry_at(records, key))
}

/// Whether no key has two records.
spec fn keys_differ(records: Seq<NodeRecord>) -> bool {
    forall|i: int, j: int|
        0 <= i < j < records.len() ==> !((#[trigger] records[i]).shard == (
        #[trigger] records[j]).shard && records[i].hash@ == records[j].hash@)
}

/// No key has two records, and every record has an owner.
spec fn records_wf(records: Seq<NodeRecord>) -> bool {
    &&& keys_differ(records)
    &&& forall|i: int| 0 <= i < records.len() ==> (#[trigger] records[i]).refcount >= 1
}

/// Whether `child` is registered.
spec fn has_link(links: Seq<ParentLink>, child: ShardUId) -> bool {
    exists|i: int| 0 <= i < links.len() && (#[trigger] links[i]).child == child
}

/// The parent under which `child` is registered.
spec fn parent_at(links: Seq<ParentLink>, child: ShardUId) -> ShardUId {
    let i = choose|i: int| 0 <= i < links.len() && (#[trigger] links[i]).child == child;
    links[i].parent
}

/// The parents by their children.
spec fn parents_of(links: Seq<ParentLink>) -> Map<ShardUId, ShardUId> {
    Map::new(|child: ShardUId| has_link(links, child), |child: ShardUId| parent_at(links, child))
}

/// No child has two links, and every parent is of an earlier version than
/// its child.
spec fn links_wf(links: Seq<ParentLink>) -> bool {
    &&& forall|i: int, j: int|
        0 <= i < j < links.len() ==> (#[trigger] links[i]).child != (#[trigger] links[j]).child
    &&& forall|i: int|
        0 <= i < links.len() ==> (#[trigger] links[i]).parent.version < links[i].child.version
}

/// What stands under the key of a record is what that record holds.
proof fn lemma_entry_at(records: Seq<NodeRecord>, i: int, key: NodeKey)
    requires
        keys_differ(records),
        0 <= i < records.len(),
        is_record_of(records[i], key),
    ensures
        has_record(records, key),
        entry_at(records, key) == entry_of(records[i]),
{
    let j = choose|j: int| 0 <= j < records.len() && is_record_of(#[trigger] records[j], key);
    if i < j {
        assert(!(records[i].shard == records[j].shard && records[i].hash@ == records[j].hash@));
    } else if j < i {
        assert(!(records[j].shard == records[i].shard && records[j].hash@ == records[i].hash@));
    }
}

/// The parent of the child of a link is that link's parent.
proof fn lemma_parent_at(links: Seq<ParentLink>, i: int)
    requires
        links_wf(links),
        0 <= i < links.len(),
    ensures
        has_link(links, links[i].child),
        parent_at(links, links[i].child) == links[i].parent,
{
    let child = links[i].child;
    let j = choose|j: int| 0 <= j < links.len() && (#[trigger] links[j]).child == child;
    if i < j {
        assert(links[i].child != links[j].child);
    } else if j < i {
        assert(links[j].child != links[i].child);
    }
}

/// A record under a new key adds that key.
proof fn lemma_push_record(before: Seq<NodeRecord>, record: NodeRecord)
    requires
        records_wf(before),
        record.refcount >= 1,
        !has_record(before, key_of(record)),
    ensures
        records_wf(before.push(record)),
        nodes_of(before.push(record)) == nodes_of(before).insert(key_of(record), entry_of(record)),
{
    let after = before.push(record);
    let n = before.len() as int;
    let key = key_of(record);
    let expected = nodes_of(before).insert(key, entry_of(record));
    assert forall|a: int, b: int| 0 <= a < b < after.len() implies !((#[trigger] after[a]).shard == (
    #[trigger] after[b]).shard && after[a].hash@ == after[b].hash@) by {
        assert(after[a] == before[a]);
        if b < n {
            assert(after[b] == before[b]);
        } else {
            assert(!is_record_of(before[a], key));
        }
    }
    assert forall|k: int| 0 <= k < after.len() implies (#[trigger] after[k]).refcount >= 1 by {
        if k < n {
            assert(after[k] == before[k]);
        }
    }
    assert forall|other: NodeKey| expected.contains_key(other) implies (#[trigger] nodes_of(
        after,
    ).contains_key(other)) && nodes_of(after)[other] == expected[other] by {
        if other.shard == key.shard && other.hash == key.hash {
            assert(other == key);
            lemma_entry_at(after, n, other);
        } else {
            let k = choose|k: int| 0 <= k < before.len() && is_record_of(#[trigger] before[k], other);
            lemma_entry_at(before, k, other);
            assert(after[k] == before[k]);
            lemma_entry_at(after, k, other);
        }
    }
    assert forall|other: NodeKey| nodes_of(after).contains_key(other) implies (
    #[trigger] expected.contains_key(other)) by {
        let k = choose|k: int| 0 <= k < after.len() && is_record_of(#[trigger] after[k], other);
        if k < n {
            assert(after[k] == before[k]);
        } else {
            assert(other == key);
        }
    }
    assert(nodes_of(after) =~= expected);
}

/// Another record under the key of a record takes that record's place.
proof fn lemma_update_record(before: Seq<NodeRecord>, i: int, record: NodeRecord)
    requires
        records_wf(before),
        0 <= i < before.len(),
        record.refcount >= 1,
        key_of(record) == key_of(before[i]),
    ensures
        records_wf(before.update(i, record)),
        nodes_of(before.update(i, record)) == nodes_of(before).insert(
            key_of(record),
            entry_of(record),
        ),
{
    let after = before.update(i, record);
    let key = key_of(record);
    let expected = nodes_of(before).insert(key, entry_of(record));
    assert forall|a: int, b: int| 0 <= a < b < after.len() implies !((#[trigger] after[a]).shard == (
    #[trigger] after[b]).shard && after[a].hash@ == after[b].hash@) by {
        assert(key_of(after[a]) == key_of(before[a]));
        assert(key_of(after[b]) == key_of(before[b]));
    }
    assert forall|k: int| 0 <= k < after.len() implies (#[trigger] after[k]).refcount >= 1 by {
        if k != i {
            assert(after[k] == before[k]);
        }
    }
    assert forall|other: NodeKey| expected.contains_key(other) implies (#[trigger] nodes_of(
        after,
    ).contains_key(other)) && nodes_of(after)[other] == expected[other] by {
        if other.shard == key.shard && other.hash == key.hash {
            assert(other == key);
            lemma_entry_at(after, i, other);
        } else {
            let k = choose|k: int| 0 <= k < before.len() && is_record_of(#[trigger] before[k], other);
            lemma_entry_at(before, k, other);
            assert(after[k] == before[k]);
            lemma_entry_at(after, k, other);
        }
    }
    assert forall|other: NodeKey| nodes_of(after).contains_key(other) implies (
    #[trigger] expected.contains_key(other)) by {
        let k = choose|k: int| 0 <= k < after.len() && is_record_of(#[trigger] after[k], other);
        if k != i {
            assert(after[k] == before[k]);
        } else {
            assert(other == key);
        }
    }
    assert(nodes_of(after) =~= expected);
}

/// Without a record its key is gone, and nothing else.
proof fn lemma_remove_record(before: Seq<NodeRecord>, i: int)
    requires
        records_wf(before),
        0 <= i < before.len(),
    ensures
        records_wf(before.remove(i)),
        nodes_of(before.remove(i)) == nodes_of(before).remove(key_of(before[i])),
{
    let after = before.remove(i);
    let key = key_of(before[i]);
    let expected = nodes_of(before).remove(key);
    assert forall|k: int| 0 <= k < after.len() implies #[trigger] after[k] == (if k < i {
        before[k]
    } else {
        before[k + 1]
    }) by {}
    assert forall|a: int, b: int| 0 <= a < b < after.len() implies !((#[trigger] after[a]).shard == (
    #[trigger] after[b]).shard && after[a].hash@ == after[b].hash@) by {
        let oa = if a < i { a } else { a + 1 };
        let ob = if b < i { b } else { b + 1 };
        assert(after[a] == before[oa]);
        assert(after[b] == before[ob]);
        assert(!(before[oa].shard == before[ob].shard && before[oa].hash@ == before[ob].hash@));
    }
    assert forall|k: int| 0 <= k < after.len() implies (#[trigger] after[k]).refcount >= 1 by {
        let ok = if k < i { k } else { k + 1 };
        assert(after[k] == before[ok]);
    }
    assert forall|other: NodeKey| expected.contains_key(other) implies (#[trigger] nodes_of(
        after,
    ).contains_key(other)) && nodes_of(after)[other] == expected[other] by {
        let k = choose|k: int| 0 <= k < before.len() && is_record_of(#[trigger] before[k], other);
        lemma_entry_at(before, k, other);
        if k == i {
            assert(other == key);
        }
        let nk = if k < i { k } else { k - 1 };
        assert(after[nk] == before[k]);
        lemma_entry_at(after, nk, other);
    }
    assert forall|other: NodeKey| nodes_of(after).contains_key(other) implies (
    #[trigger] expected.contains_key(other)) by {
        let k = choose|k: int| 0 <= k < after.len() && is_record_of(#[trigger] after[k], other);
        let ok = if k < i { k } else { k + 1 };
        assert(after[k] == before[ok]);
        assert(is_record_of(before[ok], other));
        if other == key {
            if ok < i {
                assert(!(before[ok].shard == before[i].shard && before[ok].hash@ == before[i].hash@));
            } else {
                assert(!(before[i].shard == before[ok].shard && before[i].hash@ == before[ok].hash@));
            }
        }
    }
    assert(nodes_of(after) =~= expected);
}

/// A link of a new child adds that child.
proof fn lemma_push_link(before: Seq<ParentLink>, link: ParentLink)
    requires
        links_wf(before),
        link.parent.version < link.child.version,
        !has_link(before, link.child),
    ensures
        links_wf(before.push(link)),
        parents_of(before.push(link)) == parents_of(before).insert(link.child, link.parent),
{
    let after = before.push(link);
    let n = before.len() as int;
    let expected = parents_of(before).insert(link.child, link.parent);
    assert forall|a: int, b: int| 0 <= a < b < after.len() implies (#[trigger] after[a]).child != (
    #[trigger] after[b]).child by {
        assert(after[a] == before[a]);
        if b < n {
            assert(after[b] == before[b]);
        }
    }
    assert forall|k: int| 0 <= k < after.len() implies (#[trigger] after[k]).parent.version
        < after[k].child.version by {
        if k < n {
            assert(after[k] == before[k]);
        }
    }
    assert forall|other: ShardUId| expected.contains_key(other) implies (#[trigger] parents_of(
        after,
    ).contains_key(other)) && parents_of(after)[other] == expected[other] by {
        if other == link.child {
            lemma_parent_at(after, n);
        } else {
            let k = choose|k: int| 0 <= k < before.len() && (#[trigger] before[k]).child == other;
            lemma_parent_at(before, k);
            assert(after[k] == before[k]);
            lemma_parent_at(after, k);
        }
    }
    assert forall|other: ShardUId| parents_of(after).contains_key(other) implies (
    #[trigger] expected.contains_key(other)) by {
        let k = choose|k: int| 0 <= k < after.len() && (#[trigger] after[k]).child == other;
        if k < n {
            assert(after[k] == before[k]);
        }
    }
    assert(parents_of(after) =~= expected);
}

/// The place among `records` of the record under exactly this key.
fn find_in(records: &Vec<NodeRecord>, shard: ShardUId, hash: &CryptoHash) -> (r: Option<usize>)
    requires
        keys_differ(records@),
    ensures
        r is Some <==> has_record(records@, NodeKey { shard, hash: hash@ }),
        r matches Some(i) ==> {
            &&& i < records@.len()
            &&& is_record_of(records@[i as int], NodeKey { shard, hash: hash@ })
            &&& entry_at(records@, NodeKey { shard, hash: hash@ }) == entry_of(records@[i as int])
        },
{
    let ghost key = NodeKey { shard, hash: hash@ };
    let mut i: usize = 0;
    while i < records.len()
        invariant
            keys_differ(records@),
            key == (NodeKey { shard, hash: hash@ }),
            i <= records@.len(),
            forall|k: int| 0 <= k < i ==> !is_record_of(#[trigger] records@[k], key),
        decreases records@.len() - i,
    {
        if records[i].shard == shard && records[i].hash.same(hash) {
            proof {
                lemma_entry_at(records@, i as int, key);
            }
            return Some(i);
        }
        i += 1;
    }
    None
}

/// The sharded node store.
#[derive(Debug)]
pub struct ShardedTrieStore {
    records: Vec<NodeRecord>,
    links: Vec<ParentLink>,
}

impl View for ShardedTrieStore {
    type V = TrieStoreView;

    closed spec fn view(&self) -> TrieStoreView {
        TrieStoreView { nodes: nodes_of(self.records@), parents: parents_of(self.links@) }
    }
}

impl ShardedTrieStore {
    /// The invariant of a store. Every store meets it.
    #[verifier::type_invariant]
    pub closed spec fn wf(&self) -> bool {
        records_wf(self.records@) && links_wf(self.links@)
    }

    /// A store's contents meet what holds of every store.
    pub proof fn lemma_view_wf(&self)
        requires
            self.wf(),
        ensures
            self@.wf(),
    {
        assert forall|key: NodeKey| self@.nodes.contains_key(key) implies (
        #[trigger] self@.nodes[key]).refcount >= 1 by {
            let i = choose|i: int|
                0 <= i < self.records@.len() && is_record_of(#[trigger] self.records@[i], key);
            lemma_entry_at(self.records@, i, key);
        }
        assert forall|child: ShardUId| self@.parents.contains_key(child) implies (
        #[trigger] self@.parents[child]).version < child.version by {
            let i = choose|i: int|
                0 <= i < self.links@.len() && (#[trigger] self.links@[i]).child == child;
            lemma_parent_at(self.links@, i);
        }
    }

    /// The store without records and without registered children.
    pub fn new() -> (store: ShardedTrieStore)
        ensures
            store@.nodes == Map::<NodeKey, NodeEntry>::empty(),
            store@.parents == Map::<ShardUId, ShardUId>::empty(),
    {
        let store = ShardedTrieStore { records: Vec::new(), links: Vec::new() };
        assert(store@.nodes =~= Map::<NodeKey, NodeEntry>::empty());
        assert(store@.parents =~= Map::<ShardUId, ShardUId>::empty());
        store
    }

    /// Loads the records that a storage column holds, each given by its key
    /// and its value. No child is registered in the store that results.
    pub fn from_raw_records(raw: &Vec<(Vec<u8>, Vec<u8>)>) -> (r: Option<ShardedTrieStore>)
        ensures
            r is Some <==> loadable(raw@),
            r matches Some(store) ==> {
                &&& store@.parents == Map::<ShardUId, ShardUId>::empty()
                &&& forall|i: int|
                    0 <= i < raw@.len() ==> store@.stores((#[trigger] raw@[i]).0@, raw@[i].1@)
                &&& forall|key: NodeKey|
                    store@.nodes.contains_key(key) ==> #[trigger] store@.lists(raw@, key)
            },
    {
        let mut records: Vec<NodeRecord> = Vec::new();
        let mut i: usize = 0;
        while i < raw.len()
            invariant
                records_wf(records@),
                i <= raw@.len(),
                records@.len() == i,
                forall|k: int|
                    0 <= k < i ==> {
                        &&& (#[trigger] raw@[k]).0@.len() == 40
                        &&& key_of(records@[k]) == spec_node_key(raw@[k].0@)
                        &&& spec_decode_value(raw@[k].1@) == (
                            Some(records@[k].bytes@),
                            records@[k].refcount,
                        )
                    },
                forall|a: int, b: int|
                    0 <= a < b < i ==> (#[trigger] raw@[a]).0@ != (#[trigger] raw@[b]).0@,
            decreases raw@.len() - i,
        {
            let (shard, hash) = match decode_key(raw[i].0.as_slice()) {
                Some(key) => key,
                None => {
                    return None;
                },
            };
            let (bytes, refcount) = match decode_value_with_rc(raw[i].1.as_slice()) {
                (Some(bytes), refcount) => (bytes, refcount),
                (None, _) => {
                    return None;
                },
            };
            let ghost key = NodeKey { shard, hash: hash@ };
            assert(key == spec_node_key(raw@[i as int].0@));
            match find_in(&records, shard, &hash) {
                Some(j) => {
                    proof {
                        lemma_key_encode_decode(raw@[j as int].0@);
                        lemma_key_encode_decode(raw@[i as int].0@);
                        assert(key_of(records@[j as int]) == key);
                        assert(raw@[j as int].0@ == raw@[i as int].0@);
                    }
                    return None;
                },
                None => {},
            }
            let record = NodeRecord { shard, hash, bytes, refcount };
            proof {
                lemma_value_encode_decode(raw@[i as int].1@);
                lemma_push_record(records@, record);
                assert forall|a: int| 0 <= a < i implies (#[trigger] raw@[a]).0@ != raw@[i as int].0@ by {
                    if raw@[a].0@ == raw@[i as int].0@ {
                        assert(is_record_of(records@[a], key));
                    }
                }
            }
            records.push(record);
            i += 1;
        }
        let store = ShardedTrieStore { records, links: Vec::new() };
        proof {
            assert(store@.parents =~= Map::<ShardUId, ShardUId>::empty());
            assert forall|k: int| 0 <= k < raw@.len() implies store@.stores(
                (#[trigger] raw@[k]).0@,
                raw@[k].1@,
            ) by {
                let key = key_of(records@[k]);
                lemma_entry_at(records@, k, key);
                lemma_key_encode_decode(raw@[k].0@);
                lemma_value_encode_decode(raw@[k].1@);
                assert(store@.stores_as(key, raw@[k].0@, raw@[k].1@));
            }
            assert forall|key: NodeKey| store@.nodes.contains_key(key) implies #[trigger] store@.lists(
                raw@,
                key,
            ) by {
                let k = choose|k: int|
                    0 <= k < records@.len() && is_record_of(#[trigger] records@[k], key);
                assert(key_of(records@[k]) == key);
                lemma_entry_at(records@, k, key);
                lemma_key_encode_decode(raw@[k].0@);
                lemma_value_encode_decode(raw@[k].1@);
                assert(store@.stores_as(key, raw@[k].0@, raw@[k].1@));
            }
        }
        Some(store)
    }

    /// The place of the record under exactly this key.
    fn find_record(&self, shard: ShardUId, hash: &CryptoHash) -> (r: Option<usize>)
        ensures
            r is Some <==> self@.holds(shard, hash@),
            r matches Some(i) ==> {
                &&& i < self.records@.len()
                &&& is_record_of(self.records@[i as int], NodeKey { shard, hash: hash@ })
                &&& self@.nodes[NodeKey { shard, hash: hash@ }] == entry_of(self.records@[i as int])
            },
    {
        proof {
            use_type_invariant(self);
        }
        find_in(&self.records, shard, hash)
    }

    /// The place of the link that registers `child`.
    fn find_link(&self, child: ShardUId) -> (r: Option<usize>)
        ensures
            r is Some <==> self@.parents.contains_key(child),
            r matches Some(i) ==> {
                &&& i < self.links@.len()
                &&& self.links@[i as int].child == child
                &&& self@.parents[child] == self.links@[i as int].parent
                &&& self.links@[i as int].parent.version < child.version
            },
    {
        proof {
            use_type_invariant(self);
        }
        let mut i: usize = 0;
        while i < self.links.len()
            invariant
                self.wf(),
                i <= self.links@.len(),
                forall|k: int| 0 <= k < i ==> (#[trigger] self.links@[k]).child != child,
            decreases self.links@.len() - i,
        {
            if self.links[i].child == child {
                proof {
                    lemma_parent_at(self.links@, i as int);
                }
                return Some(i);
            }
            i += 1;
        }
        None
    }

    /// Whether the store holds a record under exactly this key.
    pub fn contains(&self, shard: ShardUId, hash: &CryptoHash) -> (r: bool)
        ensures
            r == self@.holds(shard, hash@),
    {
        self.find_record(shard, hash).is_some()
    }

    /// The number of owners of the record under exactly this key; zero if
    /// there is none.
    pub fn refcount(&self, shard: ShardUId, hash: &CryptoHash) -> (n: u64)
        ensures
            n == self@.refcount(shard, hash@),
    {
        match self.find_record(shard, hash) {
            Some(i) => self.records[i].refcount,
            None => 0,
        }
    }

    /// The parent under which `child` is registered.
    pub fn parent_of(&self, child: ShardUId) -> (r: Option<ShardUId>)
        ensures
            r is Some <==> self@.parents.contains_key(child),
            r matches Some(parent) ==> parent == self@.parents[child],
    {
        match self.find_link(child) {
            Some(i) => Some(self.links[i].parent),
            None => None,
        }
    }

    /// How many records the store holds.
    pub fn len(&self) -> (n: usize)
        ensures
            self@.nodes.dom().finite(),
            n == self@.nodes.dom().len(),
    {
        proof {
            use_type_invariant(self);
        }
        proof {
            self.lemma_len();
        }
        self.records.len()
    }

    /// The store holds as many keys as records.
    proof fn lemma_len(&self)
        requires
            self.wf(),
        ensures
            self@.nodes.dom().finite(),
            self@.nodes.dom().len() == self.records@.len(),
    {
        let all = self.records@.len() as int;
        self.lemma_keys(all);
        assert(self.records@.take(all) =~= self.records@);
        assert(self@.nodes.dom() =~= Set::new(
            |key: NodeKey| has_record(self.records@.take(all), key),
        ));
    }

    /// The first `n` records stand under `n` keys.
    proof fn lemma_keys(&self, n: int)
        requires
            self.wf(),
            0 <= n <= self.records@.len(),
        ensures
            Set::new(|key: NodeKey| has_record(self.records@.take(n), key)).finite(),
            Set::new(|key: NodeKey| has_record(self.records@.take(n), key)).len() == n,
        decreases n,
    {
        let here = Set::new(|key: NodeKey| has_record(self.records@.take(n), key));
        if n == 0 {
            assert(here =~= Set::<NodeKey>::empty());
        } else {
            self.lemma_keys(n - 1);
            let before = Set::new(|key: NodeKey| has_record(self.records@.take(n - 1), key));
            let last = NodeKey {
                shard: self.records@[n - 1].shard,
                hash: self.records@[n - 1].hash@,
            };
            assert forall|key: NodeKey| here.contains(key) implies before.insert(last).contains(
                key,
            ) by {
                let i = choose|i: int|
                    0 <= i < n && is_record_of(#[trigger] self.records@.take(n)[i], key);
                if i < n - 1 {
                    assert(is_record_of(self.records@.take(n - 1)[i], key));
                } else {
                    assert(key == last);
                }
            }
            assert forall|key: NodeKey| before.insert(last).contains(key) implies here.contains(
                key,
            ) by {
                if key == last {
                    assert(is_record_of(self.records@.take(n)[n - 1], key));
                } else {
                    let i = choose|i: int|
                        0 <= i < n - 1 && is_record_of(#[trigger] self.records@.take(n - 1)[i], key);
                    assert(is_record_of(self.records@.take(n)[i], key));
                }
            }
            assert(here =~= before.insert(last));
            assert(!before.contains(last)) by {
                if before.contains(last) {
                    let i = choose|i: int|
                        0 <= i < n - 1 && is_record_of(
                            #[trigger] self.records@.take(n - 1)[i],
                            last,
                        );
                    assert(!(self.records@[i].shard == self.records@[n - 1].shard
                        && self.records@[i].hash@ == self.records@[n - 1].hash@));
                }
            }
        }
    }

    /// A read-only handle on the trie of `shard` whose root is
    /// `state_root`. There is none where the root cannot be read under the
    /// shard.
    pub fn trie_for(&self, shard: ShardUId, state_root: StateRoot) -> (r: Result<
        Trie<'_>,
        StoreError,
    >)
        ensures
            r is Ok <==> self@.lookup(shard, state_root@) is Some,
            r matches Ok(trie) ==> trie.store() == self@ && trie.shard() == shard
                && trie.root() == state_root@,
            r matches Err(e) ==> e == StoreError::NodeNotFound,
    {
        match self.get(shard, &state_root) {
            Ok(root_node) => Ok(Trie { store: self, shard, root: state_root, root_node }),
            Err(e) => Err(e),
        }
    }

    /// The records as the storage column holds them: for each record, once,
    /// its key and its value.
    pub fn raw_records(&self) -> (out: Vec<(Vec<u8>, Vec<u8>)>)
        ensures
            self@.nodes.dom().finite(),
            out@.len() == self@.nodes.dom().len(),
            forall|i: int| 0 <= i < out@.len() ==> self@.stores((#[trigger] out@[i]).0@, out@[i].1@),
            forall|key: NodeKey| self@.nodes.contains_key(key) ==> #[trigger] self@.lists(out@, key),
    {
        proof {
            use_type_invariant(self);
        }
        let mut out: Vec<(Vec<u8>, Vec<u8>)> = Vec::new();
        proof {
            self.lemma_len();
        }
        let mut i: usize = 0;
        while i < self.records.len()
            invariant
                self.wf(),
                i <= self.records@.len(),
                out@.len() == i,
                forall|k: int|
                    0 <= k < i ==> self@.stores_as(
                        NodeKey { shard: self.records@[k].shard, hash: self.records@[k].hash@ },
                        (#[trigger] out@[k]).0@,
                        out@[k].1@,
                    ),
            decreases self.records@.len() - i,
        {
            let record = &self.records[i];
            let raw_key = encode_key(record.shard, &record.hash);
            let raw_value = encode_value_with_rc(record.bytes.as_slice(), record.refcount);
            proof {
                let key = NodeKey { shard: record.shard, hash: record.hash@ };
                lemma_entry_at(self.records@, i as int, key);
            }
            out.push((raw_key, raw_value));
            i += 1;
        }
        proof {
            assert forall|k: int| 0 <= k < out@.len() implies self@.stores(
                (#[trigger] out@[k]).0@,
                out@[k].1@,
            ) by {
                let key = NodeKey { shard: self.records@[k].shard, hash: self.records@[k].hash@ };
                assert(self@.stores_as(key, out@[k].0@, out@[k].1@));
            }
            assert forall|key: NodeKey| self@.nodes.contains_key(key) implies #[trigger] self@.lists(
                out@,
                key,
            ) by {
                let k = choose|k: int|
                    0 <= k < self.records@.len() && is_record_of(#[trigger] self.records@[k], key);
                let own = NodeKey { shard: self.records@[k].shard, hash: self.records@[k].hash@ };
                assert(own == key);
                assert(self@.stores_as(key, out@[k].0@, out@[k].1@));
            }
        }
        out
    }

    /// Reads the node `hash` under `shard`. A miss under a registered child
    /// is retried under its parent, up the chain of splits.
    pub fn get(&self, shard: ShardUId, hash: &CryptoHash) -> (r: Result<&Vec<u8>, StoreError>)
        ensures
            r matches Ok(bytes) ==> self@.lookup(shard, hash@) == Some(bytes@),
            r matches Err(e) ==> e == StoreError::NodeNotFound && self@.lookup(shard, hash@) is None,
    {
        proof {
            use_type_invariant(self);
        }
        let mut current = shard;
        loop
            invariant
                self.wf(),
                self@.served_by(current, hash@) == self@.served_by(shard, hash@),
            decreases current.version,
        {
            match self.find_record(current, hash) {
                Some(i) => {
                    return Ok(&self.records[i].bytes);
                },
                None => {},
            }
            match self.find_link(current) {
                Some(i) => {
                    current = self.links[i].parent;
                },
                None => {
                    return Err(StoreError::NodeNotFound);
                },
            }
        }
    }

    /// Puts `bytes` under the key. A new key gets a record with one owner;
    /// a key that holds the same bytes gets one owner more. A key that
    /// holds other bytes is left as it is.
    pub fn put(&mut self, shard: ShardUId, hash: &CryptoHash, bytes: Vec<u8>) -> (r: Result<
        (),
        StoreError,
    >)
        ensures
            r is Ok <==> old(self)@.agrees(shard, hash@, bytes@) && old(self)@.refcount(
                shard,
                hash@,
            ) < u64::MAX,
            r is Ok ==> final(self)@ == old(self)@.put(shard, hash@, bytes@),
            r is Err ==> final(self)@ == old(self)@,
            r matches Err(e) ==> {
                &&& e == StoreError::ContentMismatch <==> !old(self)@.agrees(shard, hash@, bytes@)
                &&& e == StoreError::RefcountOverflow <==> old(self)@.agrees(shard, hash@, bytes@)
            },
    {
        proof {
            use_type_invariant(&*self);
        }
        match self.find_record(shard, hash) {
            Some(i) => {
                match compare_bytes(self.records[i].bytes.as_slice(), bytes.as_slice()) {
                    Comparison::Equal => {},
                    _ => {
                        return Err(StoreError::ContentMismatch);
                    },
                }
                let refcount = self.records[i].refcount;
                if refcount == u64::MAX {
                    return Err(StoreError::RefcountOverflow);
                }
                let record = NodeRecord { shard, hash: *hash, bytes, refcount: refcount + 1 };
                proof {
                    lemma_update_record(self.records@, i as int, record);
                }
                let mut records: Vec<NodeRecord> = Vec::new();
                core::mem::swap(&mut self.records, &mut records);
                records.set(i, record);
                core::mem::swap(&mut self.records, &mut records);
                Ok(())
            },
            None => {
                let record = NodeRecord { shard, hash: *hash, bytes, refcount: 1 };
                proof {
                    lemma_push_record(self.records@, record);
                }
                let mut records: Vec<NodeRecord> = Vec::new();
                core::mem::swap(&mut self.records, &mut records);
                records.push(record);
                core::mem::swap(&mut self.records, &mut records);
                Ok(())
            },
        }
    }

    /// Lets one owner go of the record under exactly this key. The record
    /// is removed when its last owner lets go. Parents are not consulted:
    /// an owner is counted on the record it was put under.
    pub fn gc(&mut self, shard: ShardUId, hash: &CryptoHash) -> (r: Result<(), StoreError>)
        ensures
            r is Ok <==> old(self)@.holds(shard, hash@),
            final(self)@ == old(self)@.gc(shard, hash@),
            r matches Err(e) ==> e == StoreError::NodeNotFound,
    {
        proof {
            use_type_invariant(&*self);
        }
        match self.find_record(shard, hash) {
            None => Err(StoreError::NodeNotFound),
            Some(i) => {
                let ghost before = self.records@;
                let mut records: Vec<NodeRecord> = Vec::new();
                core::mem::swap(&mut self.records, &mut records);
                let mut record = records.remove(i);
                if record.refcount > 1 {
                    record.refcount = record.refcount - 1;
                    proof {
                        assert(before.remove(i as int).insert(i as int, record) =~= before.update(
                            i as int,
                            record,
                        ));
                        lemma_update_record(before, i as int, record);
                    }
                    records.insert(i, record);
                } else {
                    proof {
                        lemma_remove_record(before, i as int);
                    }
                }
                core::mem::swap(&mut self.records, &mut records);
                Ok(())
            },
        }
    }

    /// Registers `child` under `parent`, unless it is registered already.
    fn link(&mut self, child: ShardUId, parent: ShardUId)
        requires
            parent.version < child.version,
            old(self)@.can_link(child, parent),
        ensures
            final(self)@.nodes == old(self)@.nodes,
            final(self)@.parents == old(self)@.parents.insert(child, parent),
    {
        proof {
            use_type_invariant(&*self);
        }
        match self.find_link(child) {
            Some(_) => {
                assert(self@.parents =~= old(self)@.parents.insert(child, parent));
            },
            None => {
                let link = ParentLink { child, parent };
                proof {
                    lemma_push_link(self.links@, link);
                }
                let mut links: Vec<ParentLink> = Vec::new();
                core::mem::swap(&mut self.links, &mut links);
                links.push(link);
                core::mem::swap(&mut self.links, &mut links);
            },
        }
    }

    /// Registers the two children of a split under their parent. Nothing is
    /// copied and no owner is counted: the children read the parent's
    /// records through the fallback. Registering the same split again
    /// changes nothing.
    pub fn register_children(&mut self, parent: ShardUId, left: ShardUId, right: ShardUId) -> (r:
        Result<(), ActivationError>)
        ensures
            r is Ok <==> parent.version < left.version && parent.version < right.version && old(
                self,
            )@.can_link(left, parent) && old(self)@.can_link(right, parent),
            r is Ok ==> final(self)@ == old(self)@.link_children(parent, left, right),
            r is Err ==> final(self)@ == old(self)@,
            r matches Err(e) ==> {
                &&& e == ActivationError::NotDerived <==> !(parent.version < left.version
                    && parent.version < right.version)
                &&& e == ActivationError::DoubleActivation <==> (parent.version < left.version
                    && parent.version < right.version)
            },
    {
        proof {
            use_type_invariant(&*self);
        }
        if !(parent.version < left.version && parent.version < right.version) {
            return Err(ActivationError::NotDerived);
        }
        match self.find_link(left) {
            Some(i) => {
                if self.links[i].parent != parent {
                    return Err(ActivationError::DoubleActivation);
                }
            },
            None => {},
        }
        match self.find_link(right) {
            Some(i) => {
                if self.links[i].parent != parent {
                    return Err(ActivationError::DoubleActivation);
                }
            },
            None => {},
        }
        self.link(left, parent);
        self.link(right, parent);
        Ok(())
    }
}

/// A read-only handle on the trie of one shard at one state root.
#[derive(Clone, Copy, Debug)]
pub struct Trie<'a> {
    store: &'a ShardedTrieStore,
    shard: ShardUId,
    root: StateRoot,
    root_node: &'a Vec<u8>,
}

impl<'a> Trie<'a> {
    /// The contents of the store that the handle reads.
    pub closed spec fn store(&self) -> TrieStoreView {
        self.store@
    }

    /// The shard whose trie the handle reads.
    pub closed spec fn shard(&self) -> ShardUId {
        self.shard
    }

    /// The bytes of the hash of the trie's root.
    pub closed spec fn root(&self) -> Seq<u8> {
        self.root@
    }

    /// The invariant of a handle: the store reads the root node under the
    /// handle's shard. Every handle meets it.
    #[verifier::type_invariant]
    pub closed spec fn wf(&self) -> bool {
        self.store@.lookup(self.shard, self.root@) == Some(self.root_node@)
    }

    /// The shard whose trie the handle reads.
    pub fn shard_uid(&self) -> (shard: ShardUId)
        ensures
            shard == self.shard(),
    {
        self.shard
    }

    /// The hash of the trie's root.
    pub fn state_root(&self) -> (root: StateRoot)
        ensures
            root@ == self.root(),
    {
        self.root
    }

    /// Reads the node `hash` of the trie, as the store reads it under the
    /// trie's shard.
    pub fn get(&self, hash: &CryptoHash) -> (r: Result<&Vec<u8>, StoreError>)
        ensures
            r matches Ok(bytes) ==> self.store().lookup(self.shard(), hash@) == Some(bytes@),
            r matches Err(e) ==> e == StoreError::NodeNotFound && self.store().lookup(
                self.shard(),
                hash@,
            ) is None,
    {
        self.store.get(self.shard, hash)
    }

    /// Reads the root node of the trie.
    pub fn root_node(&self) -> (bytes: &Vec<u8>)
        ensures
            self.store().lookup(self.shard(), self.root()) == Some(bytes@),
    {
        proof {
            use_type_invariant(self);
        }
        self.root_node
    }
}

/// A child without a record of its own reads what its parent reads.
pub proof fn lemma_fallback_read(store: TrieStoreView, child: ShardUId, hash: Seq<u8>)
    requires
        store.has_parent(child),
        !store.holds(child, hash),
    ensures
        store.lookup(child, hash) == store.lookup(store.parents[child], hash),
{
}

/// A shard that holds a record of its own reads that record.
pub proof fn lemma_own_record_read(store: TrieStoreView, shard: ShardUId, hash: Seq<u8>)
    requires
        store.holds(shard, hash),
    ensures
        store.lookup(shard, hash) == Some(store.nodes[NodeKey { shard, hash }].bytes),
{
}

/// The shard that answers a read is the reading shard or an ancestor of
/// an earlier version, and it holds the record.
pub proof fn lemma_served_by(store: TrieStoreView, shard: ShardUId, hash: Seq<u8>)
    ensures
        store.served_by(shard, hash) matches Some(source) ==> source.version <= shard.version
            && store.holds(source, hash),
    decreases shard.version,
{
    if !store.holds(shard, hash) && store.has_parent(shard) {
        lemma_served_by(store, store.parents[shard], hash);
    }
}

/// After a split, under both children every node reads as it does under
/// the parent, for as long as the child holds no record of its own for it.
pub proof fn lemma_children_read_parent(
    store: TrieStoreView,
    parent: ShardUId,
    left: ShardUId,
    right: ShardUId,
    hash: Seq<u8>,
)
    requires
        store.wf(),
        store.parents.contains_key(left) && store.parents[left] == parent,
        store.parents.contains_key(right) && store.parents[right] == parent,
    ensures
        !store.holds(left, hash) ==> store.lookup(left, hash) == store.lookup(parent, hash),
        !store.holds(right, hash) ==> store.lookup(right, hash) == store.lookup(parent, hash),
        store.holds(left, hash) ==> store.lookup(left, hash) == Some(
            store.nodes[NodeKey { shard: left, hash }].bytes,
        ),
        store.holds(right, hash) ==> store.lookup(right, hash) == Some(
            store.nodes[NodeKey { shard: right, hash }].bytes,
        ),
{
}

/// Registering the children of a split changes no read under a shard of
/// an earlier version than the children: not under the parent, nor under
/// any other shard of the earlier layout.
pub proof fn lemma_split_keeps_reads(
    store: TrieStoreView,
    parent: ShardUId,
    left: ShardUId,
    right: ShardUId,
    shard: ShardUId,
    hash: Seq<u8>,
)
    requires
        store.wf(),
        shard.version < left.version,
        shard.version < right.version,
    ensures
        store.link_children(parent, left, right).served_by(shard, hash) == store.served_by(
            shard,
            hash,
        ),
        store.link_children(parent, left, right).lookup(shard, hash) == store.lookup(shard, hash),
    decreases shard.version,
{
    if !store.holds(shard, hash) && store.has_parent(shard) {
        lemma_split_keeps_reads(store, parent, left, right, store.parents[shard], hash);
    }
}

/// Right after a split, a child that is new to the store reads under every
/// hash what the parent read before the split.
pub proof fn lemma_split_shares_parent_reads(
    store: TrieStoreView,
    parent: ShardUId,
    left: ShardUId,
    right: ShardUId,
    hash: Seq<u8>,
)
    requires
        store.wf(),
        parent.version < left.version,
        parent.version < right.version,
        !store.holds(left, hash),
        !store.holds(right, hash),
    ensures
        ({
            let after = store.link_children(parent, left, right);
            &&& after.lookup(parent, hash) == store.lookup(parent, hash)
            &&& after.lookup(left, hash) == store.lookup(parent, hash)
            &&& after.lookup(right, hash) == store.lookup(parent, hash)
        }),
{
    lemma_split_keeps_reads(store, parent, left, right, parent, hash);
}

/// Letting go of a record that has another owner, or of one that is not
/// there, changes no read.
pub proof fn lemma_gc_shared_keeps_reads(
    store: TrieStoreView,
    gc_shard: ShardUId,
    gc_hash: Seq<u8>,
    shard: ShardUId,
    hash: Seq<u8>,
)
    requires
        store.wf(),
        store.refcount(gc_shard, gc_hash) != 1,
    ensures
        store.gc(gc_shard, gc_hash).served_by(shard, hash) == store.served_by(shard, hash),
        store.gc(gc_shard, gc_hash).lookup(shard, hash) == store.lookup(shard, hash),
    decreases shard.version,
{
    let after = store.gc(gc_shard, gc_hash);
    let gc_key = NodeKey { shard: gc_shard, hash: gc_hash };
    if store.holds(gc_shard, gc_hash) {
        assert(store.nodes[gc_key].refcount >= 1);
        assert(after.nodes.contains_key(gc_key));
    }
    assert(after.holds(shard, hash) == store.holds(shard, hash));
    if !store.holds(shard, hash) && store.has_parent(shard) {
        lemma_gc_shared_keeps_reads(store, gc_shard, gc_hash, store.parents[shard], hash);
    }
    lemma_served_by(store, shard, hash);
}

/// Letting go of a record changes no read that another record answers: a
/// read that succeeded before still succeeds, with the same bytes, unless
/// the record that answered it lost its last owner.
pub proof fn lemma_gc_elsewhere_keeps_reads(
    store: TrieStoreView,
    gc_shard: ShardUId,
    gc_hash: Seq<u8>,
    shard: ShardUId,
    hash: Seq<u8>,
)
    requires
        !(gc_hash == hash && store.served_by(shard, hash) == Some(gc_shard)),
    ensures
        store.gc(gc_shard, gc_hash).served_by(shard, hash) == store.served_by(shard, hash),
        store.gc(gc_shard, gc_hash).lookup(shard, hash) == store.lookup(shard, hash),
    decreases shard.version,
{
    let after = store.gc(gc_shard, gc_hash);
    let key = NodeKey { shard, hash };
    let gc_key = NodeKey { shard: gc_shard, hash: gc_hash };
    if store.holds(shard, hash) {
        assert(key != gc_key);
        assert(after.nodes.contains_key(key));
        assert(after.nodes[key] == store.nodes[key]);
    } else {
        assert(!after.holds(shard, hash));
        if store.has_parent(shard) {
            lemma_gc_elsewhere_keeps_reads(store, gc_shard, gc_hash, store.parents[shard], hash);
        }
    }
    lemma_served_by(store, shard, hash);
    if store.served_by(shard, hash) is Some {
        let source = store.served_by(shard, hash)->0;
        let source_key = NodeKey { shard: source, hash };
        assert(source_key != gc_key);
        assert(after.nodes[source_key] == store.nodes[source_key]);
    }
}

/// A put followed by letting go of the same key leaves the store as it
/// was: an owner that comes and goes evicts nothing.
pub proof fn lemma_put_then_gc(store: TrieStoreView, shard: ShardUId, hash: Seq<u8>, bytes: Seq<u8>)
    requires
        store.wf(),
        store.agrees(shard, hash, bytes),
    ensures
        store.put(shard, hash, bytes).gc(shard, hash) == store,
{
    let after = store.put(shard, hash, bytes).gc(shard, hash);
    assert(after.nodes =~= store.nodes);
}

/// A record with more than one owner outlives the loss of one of them.
pub proof fn lemma_gc_keeps_shared_record(store: TrieStoreView, shard: ShardUId, hash: Seq<u8>)
    requires
        store.refcount(shard, hash) > 1,
    ensures
        store.gc(shard, hash).holds(shard, hash),
        store.gc(shard, hash).refcount(shard, hash) == store.refcount(shard, hash) - 1,
        store.gc(shard, hash).lookup(shard, hash) == store.lookup(shard, hash),
{
}

/// A put under a shard changes no read under a shard of an earlier
/// version: a child that starts to diverge does not disturb the readers of
/// its parent.
pub proof fn lemma_put_keeps_earlier_reads(
    store: TrieStoreView,
    put_shard: ShardUId,
    put_hash: Seq<u8>,
    bytes: Seq<u8>,
    shard: ShardUId,
    hash: Seq<u8>,
)
    requires
        store.wf(),
        shard.version < put_shard.version,
    ensures
        store.put(put_shard, put_hash, bytes).served_by(shard, hash) == store.served_by(
            shard,
            hash,
        ),
        store.put(put_shard, put_hash, bytes).lookup(shard, hash) == store.lookup(shard, hash),
    decreases shard.version,
{
    let after = store.put(put_shard, put_hash, bytes);
    let key = NodeKey { shard, hash };
    let put_key = NodeKey { shard: put_shard, hash: put_hash };
    assert(key != put_key);
    assert(after.holds(shard, hash) == store.holds(shard, hash));
    if !store.holds(shard, hash) && store.has_parent(shard) {
        lemma_put_keeps_earlier_reads(store, put_shard, put_hash, bytes, store.parents[shard], hash);
    }
    lemma_served_by(store, shard, hash);
    if store.served_by(shard, hash) is Some {
        let source = store.served_by(shard, hash)->0;
        let source_key = NodeKey { shard: source, hash };
        assert(source_key != put_key);
    }
}

} // verus!
