use resharding::error::{ActivationError, StoreError};
use resharding::hash::CryptoHash;
use resharding::shard_uid::ShardUId;
use resharding::storage_format::{
    decode_key, decode_value_with_rc, encode_key, encode_value_with_rc,
};
use resharding::trie_store::ShardedTrieStore;

fn uid(version: u32, shard_id: u32) -> ShardUId {
    ShardUId { version, shard_id }
}

fn hash(byte: u8) -> CryptoHash {
    CryptoHash::filled(byte)
}

#[test]
fn get_returns_what_was_put() {
    let mut store = ShardedTrieStore::new();
    assert_eq!(store.get(uid(3, 1), &hash(1)).err(), Some(StoreError::NodeNotFound));
    assert_eq!(store.put(uid(3, 1), &hash(1), vec![10, 11]), Ok(()));
    assert_eq!(store.put(uid(3, 1), &hash(2), vec![20]), Ok(()));
    assert_eq!(store.put(uid(3, 0), &hash(1), vec![30]), Ok(()));
    assert_eq!(store.get(uid(3, 1), &hash(1)), Ok(&vec![10, 11]));
    assert_eq!(store.get(uid(3, 1), &hash(2)), Ok(&vec![20]));
    assert_eq!(store.get(uid(3, 0), &hash(1)), Ok(&vec![30]));
    assert_eq!(store.get(uid(3, 0), &hash(2)).err(), Some(StoreError::NodeNotFound));
    assert_eq!(store.len(), 3);
    assert!(store.contains(uid(3, 1), &hash(1)));
    assert!(!store.contains(uid(3, 1), &hash(3)));
}

#[test]
fn put_counts_owners_and_gc_lets_them_go() {
    let mut store = ShardedTrieStore::new();
    assert_eq!(store.refcount(uid(3, 1), &hash(1)), 0);
    store.put(uid(3, 1), &hash(1), vec![10]).unwrap();
    assert_eq!(store.refcount(uid(3, 1), &hash(1)), 1);
    store.put(uid(3, 1), &hash(1), vec![10]).unwrap();
    store.put(uid(3, 1), &hash(1), vec![10]).unwrap();
    assert_eq!(store.refcount(uid(3, 1), &hash(1)), 3);
    assert_eq!(store.len(), 1);
    assert_eq!(store.gc(uid(3, 1), &hash(1)), Ok(()));
    assert_eq!(store.refcount(uid(3, 1), &hash(1)), 2);
    assert_eq!(store.get(uid(3, 1), &hash(1)), Ok(&vec![10]));
    assert_eq!(store.gc(uid(3, 1), &hash(1)), Ok(()));
    assert_eq!(store.get(uid(3, 1), &hash(1)), Ok(&vec![10]));
    assert_eq!(store.gc(uid(3, 1), &hash(1)), Ok(()));
    assert_eq!(store.refcount(uid(3, 1), &hash(1)), 0);
    assert_eq!(store.get(uid(3, 1), &hash(1)).err(), Some(StoreError::NodeNotFound));
    assert_eq!(store.len(), 0);
    assert_eq!(store.gc(uid(3, 1), &hash(1)), Err(StoreError::NodeNotFound));
}

#[test]
fn put_refuses_other_bytes_under_the_same_key() {
    let mut store = ShardedTrieStore::new();
    store.put(uid(3, 1), &hash(1), vec![10]).unwrap();
    assert_eq!(store.put(uid(3, 1), &hash(1), vec![11]), Err(StoreError::ContentMismatch));
    assert_eq!(store.put(uid(3, 1), &hash(1), vec![10, 0]), Err(StoreError::ContentMismatch));
    assert_eq!(store.put(uid(3, 1), &hash(1), vec![]), Err(StoreError::ContentMismatch));
    assert_eq!(store.refcount(uid(3, 1), &hash(1)), 1);
    assert_eq!(store.get(uid(3, 1), &hash(1)), Ok(&vec![10]));
}

#[test]
fn children_read_the_parent_until_they_overwrite() {
    let mut store = ShardedTrieStore::new();
    let (parent, left, right) = (uid(3, 1), uid(4, 2), uid(4, 3));
    store.put(parent, &hash(1), vec![10]).unwrap();
    store.put(parent, &hash(2), vec![20]).unwrap();
    store.put(uid(3, 0), &hash(9), vec![90]).unwrap();
    assert_eq!(store.get(left, &hash(1)).err(), Some(StoreError::NodeNotFound));
    assert_eq!(store.register_children(parent, left, right), Ok(()));
    assert_eq!(store.parent_of(left), Some(parent));
    assert_eq!(store.parent_of(right), Some(parent));
    assert_eq!(store.parent_of(parent), None);
    for h in [hash(1), hash(2)] {
        let expected = store.get(parent, &h).unwrap().clone();
        assert_eq!(store.get(left, &h), Ok(&expected));
        assert_eq!(store.get(right, &h), Ok(&expected));
    }
    // Nothing was copied and no owner was counted.
    assert_eq!(store.len(), 3);
    assert_eq!(store.refcount(parent, &hash(1)), 1);
    assert_eq!(store.refcount(left, &hash(1)), 0);
    // Another shard's records are not reachable from the children.
    assert_eq!(store.get(left, &hash(9)).err(), Some(StoreError::NodeNotFound));
    // The left child overwrites one node; the parent and the right child do not see it.
    store.put(left, &hash(1), vec![11]).unwrap();
    assert_eq!(store.get(left, &hash(1)), Ok(&vec![11]));
    assert_eq!(store.get(parent, &hash(1)), Ok(&vec![10]));
    assert_eq!(store.get(right, &hash(1)), Ok(&vec![10]));
    assert_eq!(store.get(left, &hash(2)), Ok(&vec![20]));
    // Once the child lets go of its own record it reads the parent's again.
    store.gc(left, &hash(1)).unwrap();
    assert_eq!(store.get(left, &hash(1)), Ok(&vec![10]));
}

#[test]
fn fallback_walks_up_the_chain_of_splits() {
    let mut store = ShardedTrieStore::new();
    store.put(uid(3, 1), &hash(1), vec![10]).unwrap();
    store.register_children(uid(3, 1), uid(4, 2), uid(4, 3)).unwrap();
    store.put(uid(4, 2), &hash(2), vec![20]).unwrap();
    store.register_children(uid(4, 2), uid(5, 4), uid(5, 5)).unwrap();
    assert_eq!(store.get(uid(5, 4), &hash(1)), Ok(&vec![10]));
    assert_eq!(store.get(uid(5, 5), &hash(2)), Ok(&vec![20]));
    assert_eq!(store.get(uid(4, 3), &hash(2)).err(), Some(StoreError::NodeNotFound));
    assert_eq!(store.get(uid(5, 4), &hash(3)).err(), Some(StoreError::NodeNotFound));
}

#[test]
fn gc_elsewhere_keeps_a_read() {
    let mut store = ShardedTrieStore::new();
    let (parent, left, right) = (uid(3, 1), uid(4, 2), uid(4, 3));
    store.put(parent, &hash(1), vec![10]).unwrap();
    store.put(parent, &hash(1), vec![10]).unwrap();
    store.put(parent, &hash(2), vec![20]).unwrap();
    store.register_children(parent, left, right).unwrap();
    store.put(right, &hash(1), vec![10]).unwrap();
    // A fork lets go of the parent's node: another owner is left.
    store.gc(parent, &hash(1)).unwrap();
    assert_eq!(store.get(left, &hash(1)), Ok(&vec![10]));
    assert_eq!(store.get(parent, &hash(1)), Ok(&vec![10]));
    // Another node goes altogether: reads of the first are not touched.
    store.gc(parent, &hash(2)).unwrap();
    assert_eq!(store.get(left, &hash(1)), Ok(&vec![10]));
    assert_eq!(store.get(left, &hash(2)).err(), Some(StoreError::NodeNotFound));
    // A child has no record of its own to let go of.
    assert_eq!(store.gc(left, &hash(1)), Err(StoreError::NodeNotFound));
    assert_eq!(store.get(left, &hash(1)), Ok(&vec![10]));
    // The last owner of the parent's node goes: only the right child, which holds its own, still reads.
    store.gc(parent, &hash(1)).unwrap();
    assert_eq!(store.get(left, &hash(1)).err(), Some(StoreError::NodeNotFound));
    assert_eq!(store.get(right, &hash(1)), Ok(&vec![10]));
}

#[test]
fn register_children_is_idempotent_and_checks_the_topology() {
    let mut store = ShardedTrieStore::new();
    let (parent, left, right) = (uid(3, 1), uid(4, 2), uid(4, 3));
    assert_eq!(store.register_children(parent, left, right), Ok(()));
    assert_eq!(store.register_children(parent, left, right), Ok(()));
    assert_eq!(store.parent_of(left), Some(parent));
    // A child cannot get another parent.
    assert_eq!(
        store.register_children(uid(3, 0), left, uid(4, 9)),
        Err(ActivationError::DoubleActivation)
    );
    assert_eq!(store.parent_of(uid(4, 9)), None);
    assert_eq!(store.parent_of(left), Some(parent));
    // A child is of a later version than its parent.
    assert_eq!(
        store.register_children(uid(4, 7), uid(4, 8), uid(5, 9)),
        Err(ActivationError::NotDerived)
    );
    assert_eq!(
        store.register_children(uid(4, 7), uid(5, 8), uid(3, 9)),
        Err(ActivationError::NotDerived)
    );
    assert_eq!(store.parent_of(uid(5, 8)), None);
}

#[test]
fn key_is_shard_bytes_then_hash() {
    let key = encode_key(uid(3, 1), &hash(0xab));
    let mut expected = vec![3u8, 0, 0, 0, 1, 0, 0, 0];
    expected.extend_from_slice(&[0xab; 32]);
    assert_eq!(key, expected);
    assert_eq!(uid(0x0a0b0c0d, 0x01020304).to_bytes(), vec![0x0d, 0x0c, 0x0b, 0x0a, 4, 3, 2, 1]);
    assert_eq!(ShardUId::from_bytes(&key[0..8]), Some(uid(3, 1)));
    assert_eq!(ShardUId::from_bytes(&key[0..7]), None);
    assert_eq!(CryptoHash::from_slice(&key[8..]), Some(hash(0xab)));
    assert_eq!(CryptoHash::from_slice(&key[7..]), None);
    assert_eq!(decode_key(&key), Some((uid(3, 1), hash(0xab))));
    assert_eq!(decode_key(&key[1..]), None);
    assert_eq!(decode_key(&[]), None);
    let mut bytes = [0u8; 32];
    for (i, byte) in bytes.iter_mut().enumerate() {
        *byte = i as u8;
    }
    let mixed = CryptoHash::new(bytes);
    let key = encode_key(uid(u32::MAX, 7), &mixed);
    assert_eq!(decode_key(&key), Some((uid(u32::MAX, 7), mixed)));
    assert_eq!(mixed.to_vec(), bytes.to_vec());
    assert!(mixed.same(&CryptoHash::new(bytes)));
    assert!(!mixed.same(&hash(0)));
}

#[test]
fn value_is_bytes_then_refcount() {
    assert_eq!(encode_value_with_rc(&[7, 8], 1), vec![7, 8, 1, 0, 0, 0, 0, 0, 0, 0]);
    assert_eq!(encode_value_with_rc(&[], 0x0102), vec![2, 1, 0, 0, 0, 0, 0, 0]);
    assert_eq!(decode_value_with_rc(&[7, 8, 1, 0, 0, 0, 0, 0, 0, 0]), (Some(vec![7, 8]), 1));
    assert_eq!(decode_value_with_rc(&[2, 1, 0, 0, 0, 0, 0, 0]), (Some(vec![]), 0x0102));
    assert_eq!(decode_value_with_rc(&[7, 8, 0, 0, 0, 0, 0, 0, 0, 0]), (None, 0));
    assert_eq!(decode_value_with_rc(&[1, 0, 0, 0, 0, 0, 0]), (None, 0));
    assert_eq!(decode_value_with_rc(&[]), (None, 0));
    let value = encode_value_with_rc(&[9; 5], u64::MAX);
    assert_eq!(decode_value_with_rc(&value), (Some(vec![9; 5]), u64::MAX));
}

#[test]
fn raw_records_list_every_record_once() {
    let mut store = ShardedTrieStore::new();
    store.put(uid(3, 1), &hash(1), vec![10]).unwrap();
    store.put(uid(3, 0), &hash(2), vec![20, 21]).unwrap();
    store.put(uid(3, 1), &hash(1), vec![10]).unwrap();
    store.register_children(uid(3, 1), uid(4, 2), uid(4, 3)).unwrap();
    let mut raw = store.raw_records();
    raw.sort();
    assert_eq!(raw.len(), 2);
    assert_eq!(raw[0].0, encode_key(uid(3, 0), &hash(2)));
    assert_eq!(raw[0].1, vec![20, 21, 1, 0, 0, 0, 0, 0, 0, 0]);
    assert_eq!(raw[1].0, encode_key(uid(3, 1), &hash(1)));
    assert_eq!(raw[1].1, encode_value_with_rc(&[10], 2));
    assert_eq!(ShardedTrieStore::new().raw_records(), vec![]);
}

#[test]
fn trie_handle_reads_through_its_shard() {
    let mut store = ShardedTrieStore::new();
    let (parent, left, right) = (uid(3, 1), uid(4, 2), uid(4, 3));
    store.put(parent, &hash(1), vec![10]).unwrap();
    store.put(parent, &hash(2), vec![20]).unwrap();
    store.register_children(parent, left, right).unwrap();
    store.put(right, &hash(3), vec![30]).unwrap();
    assert_eq!(store.trie_for(parent, hash(9)).err(), Some(StoreError::NodeNotFound));
    assert_eq!(store.trie_for(uid(3, 0), hash(1)).err(), Some(StoreError::NodeNotFound));
    // The child's trie starts at the parent's root.
    let trie = store.trie_for(left, hash(1)).unwrap();
    assert_eq!(trie.shard_uid(), left);
    assert_eq!(trie.state_root(), hash(1));
    assert_eq!(trie.root_node(), &vec![10]);
    assert_eq!(trie.get(&hash(2)), Ok(&vec![20]));
    assert_eq!(trie.get(&hash(3)).err(), Some(StoreError::NodeNotFound));
    let trie = store.trie_for(right, hash(3)).unwrap();
    assert_eq!(trie.root_node(), &vec![30]);
    assert_eq!(trie.get(&hash(1)), Ok(&vec![10]));
}

#[test]
fn put_refuses_an_owner_that_cannot_be_counted() {
    let raw = vec![(encode_key(uid(3, 1), &hash(1)), encode_value_with_rc(&[10], u64::MAX))];
    let mut store = ShardedTrieStore::from_raw_records(&raw).unwrap();
    assert_eq!(store.refcount(uid(3, 1), &hash(1)), u64::MAX);
    assert_eq!(store.put(uid(3, 1), &hash(1), vec![10]), Err(StoreError::RefcountOverflow));
    assert_eq!(store.refcount(uid(3, 1), &hash(1)), u64::MAX);
    // Other bytes are reported as such, whatever the count.
    assert_eq!(store.put(uid(3, 1), &hash(1), vec![11]), Err(StoreError::ContentMismatch));
    assert_eq!(store.gc(uid(3, 1), &hash(1)), Ok(()));
    assert_eq!(store.put(uid(3, 1), &hash(1), vec![10]), Ok(()));
    assert_eq!(store.refcount(uid(3, 1), &hash(1)), u64::MAX);
}

#[test]
fn a_store_is_loaded_from_its_raw_records() {
    let mut store = ShardedTrieStore::new();
    store.put(uid(3, 1), &hash(1), vec![10]).unwrap();
    store.put(uid(3, 0), &hash(2), vec![20, 21]).unwrap();
    store.put(uid(3, 1), &hash(1), vec![10]).unwrap();
    store.put(uid(3, 1), &hash(3), vec![]).unwrap();
    let raw = store.raw_records();
    let loaded = ShardedTrieStore::from_raw_records(&raw).unwrap();
    assert_eq!(loaded.len(), 3);
    assert_eq!(loaded.get(uid(3, 1), &hash(1)), Ok(&vec![10]));
    assert_eq!(loaded.refcount(uid(3, 1), &hash(1)), 2);
    assert_eq!(loaded.get(uid(3, 0), &hash(2)), Ok(&vec![20, 21]));
    assert_eq!(loaded.get(uid(3, 1), &hash(3)), Ok(&vec![]));
    assert_eq!(loaded.refcount(uid(3, 1), &hash(3)), 1);
    assert_eq!(loaded.parent_of(uid(3, 1)), None);
    let mut again = loaded.raw_records();
    let mut raw = raw;
    again.sort();
    raw.sort();
    assert_eq!(again, raw);
    assert_eq!(ShardedTrieStore::from_raw_records(&vec![]).unwrap().len(), 0);
}

#[test]
fn raw_records_that_cannot_be_loaded() {
    let key = encode_key(uid(3, 1), &hash(1));
    let value = encode_value_with_rc(&[10], 1);
    assert!(ShardedTrieStore::from_raw_records(&vec![(key.clone(), value.clone())]).is_some());
    // A key that is too short or too long.
    assert!(ShardedTrieStore::from_raw_records(&vec![(key[1..].to_vec(), value.clone())]).is_none());
    let mut long = key.clone();
    long.push(0);
    assert!(ShardedTrieStore::from_raw_records(&vec![(long, value.clone())]).is_none());
    // A value without an owner, or too short to hold a count.
    let unowned = encode_value_with_rc(&[10], 0);
    assert!(ShardedTrieStore::from_raw_records(&vec![(key.clone(), unowned)]).is_none());
    assert!(ShardedTrieStore::from_raw_records(&vec![(key.clone(), vec![1, 0, 0])]).is_none());
    // A key twice.
    let other = encode_key(uid(3, 1), &hash(2));
    let twice = vec![(key.clone(), value.clone()), (other, value.clone()), (key, value)];
    assert!(ShardedTrieStore::from_raw_records(&twice).is_none());
}
