use resharding::account_id::AccountId;
use resharding::epoch_config::EpochConfig;
use resharding::error::{ActivationError, ConfigError};
use resharding::hash::CryptoHash;
use resharding::resharder::{next_layout, ResharderCoordinator, ShardState};
use resharding::shard_layout::{ShardLayout, ShardSplit};
use resharding::shard_uid::ShardUId;
use resharding::trie_store::ShardedTrieStore;

fn uid(version: u32, shard_id: u32) -> ShardUId {
    ShardUId { version, shard_id }
}

fn config(shard_layout: ShardLayout) -> EpochConfig {
    EpochConfig {
        shard_layout,
        epoch_length: 6,
        block_producer_kickout_threshold: 80,
        chunk_producer_kickout_threshold: 80,
        chunk_validator_only_kickout_threshold: 80,
        shuffle_shard_assignment_for_chunk_producers: false,
    }
}

fn base_layout() -> ShardLayout {
    ShardLayout::new(vec![AccountId::new("account3")], 3).unwrap()
}

fn split_layout() -> ShardLayout {
    base_layout().derive_split(AccountId::new("account6")).unwrap()
}

const PLAN: ShardSplit = ShardSplit {
    parent: ShardUId { version: 3, shard_id: 1 },
    left: ShardUId { version: 4, shard_id: 2 },
    right: ShardUId { version: 4, shard_id: 3 },
};

#[test]
fn next_layout_tells_a_split_from_no_change() {
    let current = config(base_layout());
    let next = config(split_layout());
    assert_eq!(next_layout(&current, &current), Ok(None));
    assert_eq!(next_layout(&next, &next), Ok(None));
    assert_eq!(next_layout(&current, &next), Ok(Some(PLAN)));
}

#[test]
fn next_layout_refuses_what_is_not_one_split() {
    let current = config(base_layout());
    // Two shards split at once.
    let twice = split_layout().derive_split(AccountId::new("account1")).unwrap();
    assert_eq!(next_layout(&current, &config(twice)), Err(ConfigError::UnsupportedSplit));
    // A merge.
    assert_eq!(
        next_layout(&config(split_layout()), &current),
        Err(ConfigError::UnsupportedSplit)
    );
    // Other boundaries altogether.
    let other = ShardLayout::new(vec![AccountId::new("account5")], 3).unwrap();
    assert_eq!(next_layout(&current, &config(other)), Err(ConfigError::UnsupportedSplit));
    // The same boundaries under another version.
    let renumbered = ShardLayout::new(vec![AccountId::new("account3")], 4).unwrap();
    assert_eq!(next_layout(&current, &config(renumbered)), Err(ConfigError::UnsupportedSplit));
}

#[test]
fn a_shard_goes_from_stable_to_migrated() {
    let current = config(base_layout());
    let next = config(split_layout());
    let mut store = ShardedTrieStore::new();
    let mut coordinator = ResharderCoordinator::new(&current.shard_layout);
    let epoch = CryptoHash::filled(2);
    assert_eq!(coordinator.state_of(uid(3, 0)), Some(ShardState::Stable));
    assert_eq!(coordinator.state_of(uid(3, 1)), Some(ShardState::Stable));
    assert_eq!(coordinator.state_of(uid(4, 2)), None);
    assert_eq!(coordinator.producing_shards(), vec![uid(3, 0), uid(3, 1)]);

    // In the middle of an epoch nothing is due.
    assert_eq!(coordinator.observe_epoch_end(false, &current, &next), Ok(None));
    assert_eq!(coordinator.state_of(uid(3, 1)), Some(ShardState::Stable));
    // At an epoch's end with the same layout ahead nothing is due either.
    assert_eq!(coordinator.observe_epoch_end(true, &current, &current), Ok(None));
    assert_eq!(coordinator.state_of(uid(3, 1)), Some(ShardState::Stable));

    assert_eq!(coordinator.observe_epoch_end(true, &current, &next), Ok(Some(PLAN)));
    assert_eq!(coordinator.state_of(uid(3, 1)), Some(ShardState::SplitPending));
    assert_eq!(coordinator.state_of(uid(3, 0)), Some(ShardState::Stable));
    // Until the epoch starts the parent keeps producing chunks.
    assert!(coordinator.accepts_chunk_production(uid(3, 1)));
    assert!(!coordinator.accepts_chunk_production(uid(4, 2)));
    assert!(!coordinator.complete_migration(uid(3, 1)));

    assert_eq!(coordinator.activate(&mut store, &epoch, uid(3, 1)), Ok(true));
    assert_eq!(coordinator.state_of(uid(3, 1)), Some(ShardState::SplitActive));
    assert_eq!(coordinator.state_of(uid(4, 2)), Some(ShardState::Stable));
    assert_eq!(coordinator.state_of(uid(4, 3)), Some(ShardState::Stable));
    assert!(!coordinator.accepts_chunk_production(uid(3, 1)));
    assert!(coordinator.accepts_chunk_production(uid(3, 0)));
    assert!(coordinator.accepts_chunk_production(uid(4, 2)));
    assert!(coordinator.accepts_chunk_production(uid(4, 3)));
    assert_eq!(coordinator.producing_shards(), vec![uid(3, 0), uid(4, 2), uid(4, 3)]);
    assert_eq!(store.parent_of(uid(4, 2)), Some(uid(3, 1)));
    assert_eq!(store.parent_of(uid(4, 3)), Some(uid(3, 1)));

    assert!(coordinator.complete_migration(uid(3, 1)));
    assert_eq!(coordinator.state_of(uid(3, 1)), Some(ShardState::Migrated));
    assert!(!coordinator.complete_migration(uid(3, 1)));
    assert!(!coordinator.complete_migration(uid(3, 0)));
    assert!(!coordinator.complete_migration(uid(9, 9)));
    assert_eq!(coordinator.producing_shards(), vec![uid(3, 0), uid(4, 2), uid(4, 3)]);
}

#[test]
fn activation_is_idempotent_per_epoch_and_parent() {
    let current = config(base_layout());
    let next = config(split_layout());
    let mut store = ShardedTrieStore::new();
    store.put(uid(3, 1), &CryptoHash::filled(7), vec![1, 2, 3]).unwrap();
    let mut coordinator = ResharderCoordinator::new(&current.shard_layout);
    let epoch = CryptoHash::filled(2);
    coordinator.observe_epoch_end(true, &current, &next).unwrap();
    assert_eq!(coordinator.activate(&mut store, &epoch, uid(3, 1)), Ok(true));
    let shards = coordinator.producing_shards();
    let records = store.raw_records();
    assert_eq!(shards.len(), 3);
    assert_eq!(records.len(), 1);
    assert_eq!(store.refcount(uid(3, 1), &CryptoHash::filled(7)), 1);

    assert_eq!(coordinator.activate(&mut store, &epoch, uid(3, 1)), Ok(false));
    assert_eq!(coordinator.producing_shards(), shards);
    assert_eq!(store.raw_records(), records);
    assert_eq!(store.refcount(uid(3, 1), &CryptoHash::filled(7)), 1);
    assert_eq!(coordinator.state_of(uid(3, 1)), Some(ShardState::SplitActive));

    // A competing block of another epoch cannot activate the split again.
    let other = CryptoHash::filled(3);
    assert_eq!(
        coordinator.activate(&mut store, &other, uid(3, 1)),
        Err(ActivationError::DoubleActivation)
    );
    assert_eq!(coordinator.producing_shards(), shards);
    assert_eq!(store.raw_records(), records);
    // Nor after the split has migrated.
    assert!(coordinator.complete_migration(uid(3, 1)));
    assert_eq!(coordinator.activate(&mut store, &epoch, uid(3, 1)), Ok(false));
    assert_eq!(
        coordinator.activate(&mut store, &other, uid(3, 1)),
        Err(ActivationError::DoubleActivation)
    );
    assert_eq!(coordinator.state_of(uid(3, 1)), Some(ShardState::Migrated));
}

#[test]
fn activation_needs_a_pending_split() {
    let current = config(base_layout());
    let mut store = ShardedTrieStore::new();
    let mut coordinator = ResharderCoordinator::new(&current.shard_layout);
    let epoch = CryptoHash::filled(2);
    assert_eq!(
        coordinator.activate(&mut store, &epoch, uid(3, 1)),
        Err(ActivationError::NotDerived)
    );
    assert_eq!(
        coordinator.activate(&mut store, &epoch, uid(8, 8)),
        Err(ActivationError::NotDerived)
    );
    assert_eq!(coordinator.state_of(uid(3, 1)), Some(ShardState::Stable));
    assert_eq!(store.parent_of(uid(4, 2)), None);
}

#[test]
fn activation_is_refused_where_a_child_has_another_parent() {
    let current = config(base_layout());
    let next = config(split_layout());
    let mut store = ShardedTrieStore::new();
    store.register_children(uid(3, 0), uid(4, 2), uid(4, 7)).unwrap();
    let mut coordinator = ResharderCoordinator::new(&current.shard_layout);
    coordinator.observe_epoch_end(true, &current, &next).unwrap();
    assert_eq!(
        coordinator.activate(&mut store, &CryptoHash::filled(2), uid(3, 1)),
        Err(ActivationError::DoubleActivation)
    );
    assert_eq!(coordinator.state_of(uid(3, 1)), Some(ShardState::SplitPending));
    assert_eq!(coordinator.state_of(uid(4, 2)), None);
    assert_eq!(store.parent_of(uid(4, 2)), Some(uid(3, 0)));
    assert_eq!(store.parent_of(uid(4, 3)), None);
}

#[test]
fn an_unsupported_change_leaves_the_coordinator_alone() {
    let current = config(base_layout());
    let twice = split_layout().derive_split(AccountId::new("account1")).unwrap();
    let mut coordinator = ResharderCoordinator::new(&current.shard_layout);
    assert_eq!(
        coordinator.observe_epoch_end(true, &current, &config(twice)),
        Err(ConfigError::UnsupportedSplit)
    );
    assert_eq!(coordinator.state_of(uid(3, 0)), Some(ShardState::Stable));
    assert_eq!(coordinator.state_of(uid(3, 1)), Some(ShardState::Stable));
}

#[test]
fn a_second_split_follows_the_first() {
    let first = config(base_layout());
    let second = config(split_layout());
    let third = config(split_layout().derive_split(AccountId::new("account4")).unwrap());
    let mut store = ShardedTrieStore::new();
    store.put(uid(3, 1), &CryptoHash::filled(7), vec![1]).unwrap();
    let mut coordinator = ResharderCoordinator::new(&first.shard_layout);
    coordinator.observe_epoch_end(true, &first, &second).unwrap();
    coordinator.activate(&mut store, &CryptoHash::filled(2), uid(3, 1)).unwrap();
    let plan = coordinator.observe_epoch_end(true, &second, &third).unwrap().unwrap();
    assert_eq!(plan, ShardSplit { parent: uid(4, 2), left: uid(5, 4), right: uid(5, 5) });
    assert_eq!(coordinator.activate(&mut store, &CryptoHash::filled(3), uid(4, 2)), Ok(true));
    assert_eq!(
        coordinator.producing_shards(),
        vec![uid(3, 0), uid(4, 3), uid(5, 4), uid(5, 5)]
    );
    assert_eq!(store.get(uid(5, 5), &CryptoHash::filled(7)), Ok(&vec![1]));
}
