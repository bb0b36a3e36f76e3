use resharding::account_id::AccountId;
use resharding::epoch_config::{EpochConfig, EpochConfigStore};
use resharding::error::ActivationError;
use resharding::hash::CryptoHash;
use resharding::resharder::{ResharderCoordinator, ShardState};
use resharding::shard_layout::ShardLayout;
use resharding::shard_uid::ShardUId;
use resharding::storage_format::{decode_key, decode_value_with_rc};
use resharding::trie_store::ShardedTrieStore;
use std::collections::HashMap;

const ONE_NEAR: u128 = 1_000_000_000_000_000_000_000_000;

/// The protocol version under which the chain starts; the next one brings
/// the split.
const BASE_PROTOCOL_VERSION: u32 = 74;

/// A protocol upgrade takes effect two epochs after the chain has started.
const UPGRADE_EPOCH: u64 = 2;

/// Custom behavior executed at every iteration of the chain loop.
trait ScenarioHook {
    fn run(&mut self, chain: &mut Chain);
}

/// A block of a fork that starts an epoch, next to the block of the
/// canonical chain that does.
struct CompetingBlock {
    height: u64,
    epoch: u64,
}

/// Forces the creation of a chain fork before the first block that brings a
/// new shard layout.
struct ForkBeforeReshardingBlock {
    double_signing: bool,
    done: bool,
}

impl ScenarioHook for ForkBeforeReshardingBlock {
    fn run(&mut self, chain: &mut Chain) {
        // It must happen only for the first resharding block encountered.
        if self.done {
            return;
        }
        // The most recent block is followed by a resharding block if the next block starts an
        // epoch and the two epochs' shard layouts differ.
        let epoch = chain.epoch_of(chain.height);
        let shard_layout = chain.epoch_config(epoch).shard_layout;
        let next_shard_layout = chain.epoch_config(epoch + 1).shard_layout;
        let next_block_has_new_shard_layout =
            chain.is_epoch_start(chain.height + 1) && !shard_layout.same(&next_shard_layout);
        // If there's a new shard layout force a chain fork.
        if next_block_has_new_shard_layout {
            println!("creating chain fork at height {}", chain.height);
            let height = if self.double_signing {
                // A new block on top of the same block, with consecutive height.
                chain.height + 1
            } else {
                // To avoid double signing skip the height that was produced already.
                chain.height + 2
            };
            chain.competing_blocks.push(CompetingBlock { height, epoch: epoch + 1 });
            self.done = true;
        }
    }
}

fn fork_before_resharding_block(double_signing: bool) -> Box<dyn ScenarioHook> {
    Box::new(ForkBeforeReshardingBlock { double_signing, done: false })
}

#[derive(Default)]
struct TestReshardingParameters {
    chunk_ranges_to_drop: HashMap<ShardUId, std::ops::Range<i64>>,
    accounts: Vec<AccountId>,
    clients: Vec<AccountId>,
    block_and_chunk_producers: Vec<AccountId>,
    initial_balance: u128,
    epoch_length: u64,
    /// Custom behavior executed at every iteration of the chain loop.
    loop_action: Option<Box<dyn ScenarioHook>>,
}

impl TestReshardingParameters {
    fn new() -> Self {
        Self::with_clients(3)
    }

    fn with_clients(num_clients: u64) -> Self {
        let num_accounts = 8;
        let initial_balance = 1_000_000 * ONE_NEAR;
        let epoch_length = 6;

        assert!(num_clients > 0 && num_clients <= epoch_length);

        let accounts = (0..num_accounts)
            .map(|i| AccountId::new(&format!("account{}", i)))
            .collect::<Vec<AccountId>>();

        // First client is at index 0 and other clients are spaced in the accounts' space as
        // evenly as possible.
        let clients_per_account = num_clients as f64 / accounts.len() as f64;
        let mut client_parts = 1.0 - clients_per_account;
        let clients: Vec<_> = accounts
            .iter()
            .filter(|_| {
                client_parts += clients_per_account;
                if client_parts >= 1.0 {
                    client_parts -= 1.0;
                    true
                } else {
                    false
                }
            })
            .cloned()
            .collect();

        let block_and_chunk_producers = clients.clone();

        Self {
            accounts,
            clients,
            block_and_chunk_producers,
            initial_balance,
            epoch_length,
            ..Default::default()
        }
    }

    fn chunk_ranges_to_drop(
        mut self,
        chunk_ranges_to_drop: HashMap<ShardUId, std::ops::Range<i64>>,
    ) -> Self {
        self.chunk_ranges_to_drop = chunk_ranges_to_drop;
        self
    }

    fn loop_action(mut self, loop_action: Option<Box<dyn ScenarioHook>>) -> Self {
        self.loop_action = loop_action;
        self
    }
}

/// The chain as far as the split is concerned.
struct Chain {
    epoch_length: u64,
    epoch_config_store: EpochConfigStore,
    store: ShardedTrieStore,
    coordinator: ResharderCoordinator,
    /// The account whose record each node holds, by node hash.
    accounts_by_node: Vec<(CryptoHash, AccountId)>,
    /// Blocks of forks that have not been processed yet.
    competing_blocks: Vec<CompetingBlock>,
    height: u64,
}

fn node_hash(height: u64, shard: ShardUId, index: u8) -> CryptoHash {
    let mut bytes = [0u8; 32];
    bytes[0..8].copy_from_slice(&height.to_le_bytes());
    bytes[8..16].copy_from_slice(&shard.to_bytes());
    bytes[16] = index;
    CryptoHash::new(bytes)
}

fn epoch_id(epoch: u64) -> CryptoHash {
    let mut bytes = [0xee; 32];
    bytes[0..8].copy_from_slice(&epoch.to_le_bytes());
    CryptoHash::new(bytes)
}

impl Chain {
    /// The epoch that the block at `height` belongs to. Genesis is at
    /// height zero; every epoch after it has `epoch_length` blocks.
    fn epoch_of(&self, height: u64) -> u64 {
        if height == 0 {
            0
        } else {
            (height - 1) / self.epoch_length
        }
    }

    fn is_epoch_start(&self, height: u64) -> bool {
        height > 0 && (height - 1) % self.epoch_length == 0
    }

    fn protocol_version(&self, epoch: u64) -> u32 {
        if epoch < UPGRADE_EPOCH {
            BASE_PROTOCOL_VERSION
        } else {
            BASE_PROTOCOL_VERSION + 1
        }
    }

    fn epoch_config(&self, epoch: u64) -> EpochConfig {
        self.epoch_config_store.resolve(self.protocol_version(epoch)).unwrap().duplicate()
    }

    fn split_height(&self) -> u64 {
        UPGRADE_EPOCH * self.epoch_length + 1
    }
}

fn print_and_assert_shard_accounts(chain: &Chain, accounts: &[AccountId]) {
    let epoch_config = chain.epoch_config(chain.epoch_of(chain.height));
    for shard_uid in epoch_config.shard_layout.shard_uids() {
        let mut shard_accounts = vec![];
        for (hash, account_id) in &chain.accounts_by_node {
            if epoch_config.shard_layout.shard_for(account_id) != shard_uid {
                continue;
            }
            // The account's record is read through the shard that holds the account now.
            let value = chain.store.get(shard_uid, hash).unwrap();
            assert_eq!(&value[..], account_id.as_str().as_bytes());
            shard_accounts.push(account_id.as_str().to_string());
        }
        println!("accounts for shard {:?}: {:?}", shard_uid, shard_accounts);
        assert!(!shard_accounts.is_empty());
    }
    // Every account is in exactly one shard.
    for account_id in accounts {
        let owner = epoch_config.shard_layout.shard_for(account_id);
        let owners = epoch_config
            .shard_layout
            .shard_uids()
            .into_iter()
            .filter(|shard_uid| *shard_uid == owner)
            .count();
        assert_eq!(owners, 1);
    }
}

/// Asserts that all parent shard State is accessible via parent and children shards.
fn check_state_shard_uid_mapping_after_resharding(
    chain: &Chain,
    parent_shard_uid: ShardUId,
    just_after_resharding: bool,
) {
    let epoch_config = chain.epoch_config(chain.epoch_of(chain.height));
    let (left, right) = epoch_config.shard_layout.children_of(parent_shard_uid).unwrap();
    let children_shard_uids = vec![left, right];
    assert_eq!(children_shard_uids.len(), 2);

    let store = &chain.store;
    let mut parent_records = 0;
    for (key, value) in store.raw_records() {
        let (shard_uid, node_hash) = decode_key(&key).unwrap();
        assert_eq!(ShardUId::from_bytes(&key[0..8]), Some(shard_uid));
        assert_eq!(CryptoHash::from_slice(&key[8..]), Some(node_hash));
        if just_after_resharding {
            // Just after resharding, no State data must be keyed using children ShardUIds.
            assert!(!children_shard_uids.contains(&shard_uid));
        }
        if shard_uid != parent_shard_uid {
            continue;
        }
        parent_records += 1;
        let (value, _) = decode_value_with_rc(&value);
        let parent_value = store.get(parent_shard_uid, &node_hash);
        // Parent shard data must still be accessible using parent ShardUId.
        assert_eq!(&parent_value.unwrap()[..], &value.clone().unwrap()[..]);
        // All parent shard data is available via both children shards.
        for child_shard_uid in &children_shard_uids {
            assert!(!store.contains(*child_shard_uid, &node_hash));
            let child_value = store.get(*child_shard_uid, &node_hash);
            assert_eq!(&child_value.unwrap()[..], &value.clone().unwrap()[..]);
        }
    }
    assert!(parent_records > 0);
}

/// Base setup to check sanity of the split of one shard.
fn test_resharding_v3_base(params: TestReshardingParameters) {
    // Prepare shard split configuration.
    let base_protocol_version = BASE_PROTOCOL_VERSION;
    let base_shard_layout = ShardLayout::new(vec![AccountId::new("account3")], 3).unwrap();
    let mut base_epoch_config = EpochConfig {
        shard_layout: base_shard_layout.duplicate(),
        epoch_length: params.epoch_length,
        block_producer_kickout_threshold: 80,
        chunk_producer_kickout_threshold: 80,
        chunk_validator_only_kickout_threshold: 80,
        shuffle_shard_assignment_for_chunk_producers: false,
    };
    base_epoch_config = base_epoch_config.for_transition(!params.chunk_ranges_to_drop.is_empty());
    if !params.chunk_ranges_to_drop.is_empty() {
        assert_eq!(base_epoch_config.block_producer_kickout_threshold, 0);
        assert_eq!(base_epoch_config.chunk_producer_kickout_threshold, 0);
        assert_eq!(base_epoch_config.chunk_validator_only_kickout_threshold, 0);
    }
    let new_boundary_account = AccountId::new("account6");
    let parent_shard_uid = base_shard_layout.shard_for(&new_boundary_account);
    assert_eq!(parent_shard_uid, ShardUId { shard_id: 1, version: 3 });

    let new_shard_layout = base_shard_layout.derive_split(new_boundary_account).unwrap();
    let epoch_config = base_epoch_config.duplicate().with_shard_layout(new_shard_layout.duplicate());
    assert_eq!(new_shard_layout.version(), 4);
    assert_eq!(
        new_shard_layout.boundary_accounts(),
        &vec![AccountId::new("account3"), AccountId::new("account6")]
    );

    let expected_num_shards = epoch_config.shard_layout.shard_ids().len();
    assert_eq!(expected_num_shards, 3);
    let mut epoch_config_store = EpochConfigStore::new();
    epoch_config_store.register(base_protocol_version, base_epoch_config).unwrap();
    epoch_config_store.register(base_protocol_version + 1, epoch_config).unwrap();

    assert!(!params.clients.is_empty());
    assert_eq!(params.block_and_chunk_producers, params.clients);
    assert_eq!(params.initial_balance, 1_000_000 * ONE_NEAR);

    // Genesis: every account has its record in the shard that holds it.
    let mut chain = Chain {
        epoch_length: params.epoch_length,
        epoch_config_store,
        store: ShardedTrieStore::new(),
        coordinator: ResharderCoordinator::new(&base_shard_layout),
        accounts_by_node: vec![],
        competing_blocks: vec![],
        height: 0,
    };
    for (index, account) in params.accounts.iter().enumerate() {
        let shard = base_shard_layout.shard_for(account);
        let hash = node_hash(0, shard, index as u8);
        chain.store.put(shard, &hash, account.as_str().as_bytes().to_vec()).unwrap();
        chain.accounts_by_node.push((hash, account.duplicate()));
    }
    println!("State before resharding:");
    print_and_assert_shard_accounts(&chain, &params.accounts);

    let split_height = chain.split_height();
    let mut params = params;
    let mut forked = false;
    let mut success = false;
    // Give enough time to produce ~7 epochs.
    while chain.height < 7 * params.epoch_length {
        chain.height += 1;
        let height = chain.height;
        let epoch = chain.epoch_of(height);
        assert!(epoch < 6);

        if chain.is_epoch_start(height) {
            // The block that starts an epoch activates the split that the epoch brings.
            let pending: Vec<ShardUId> = chain
                .epoch_config(epoch - 1)
                .shard_layout
                .shard_uids()
                .into_iter()
                .filter(|shard| chain.coordinator.state_of(*shard) == Some(ShardState::SplitPending))
                .collect();
            for parent in pending {
                assert_eq!(height, split_height);
                assert_eq!(parent, parent_shard_uid);
                let Chain { coordinator, store, .. } = &mut chain;
                assert_eq!(coordinator.activate(store, &epoch_id(epoch), parent), Ok(true));
                check_state_shard_uid_mapping_after_resharding(&chain, parent, true);
                // A competing block of the same epoch finds the split made.
                for block in std::mem::take(&mut chain.competing_blocks) {
                    assert!(block.height == height || block.height == height + 1);
                    assert_eq!(block.epoch, epoch);
                    let records = chain.store.raw_records();
                    let shards = chain.coordinator.producing_shards();
                    let Chain { coordinator, store, .. } = &mut chain;
                    assert_eq!(
                        coordinator.activate(store, &epoch_id(block.epoch), parent),
                        Ok(false)
                    );
                    // A block that claims another epoch for itself is off the canonical chain.
                    assert_eq!(
                        coordinator.activate(store, &epoch_id(block.epoch + 1), parent),
                        Err(ActivationError::DoubleActivation)
                    );
                    assert_eq!(chain.store.raw_records(), records);
                    assert_eq!(chain.coordinator.producing_shards(), shards);
                    forked = true;
                }
            }
        }

        // Chunks: each shard that may produce one writes a node of its own, unless the chunk
        // is dropped.
        let mut chunk_mask = vec![];
        for shard in chain.coordinator.producing_shards() {
            let offset = height as i64 - split_height as i64;
            let dropped = params
                .chunk_ranges_to_drop
                .get(&shard)
                .map_or(false, |range| range.contains(&offset));
            chunk_mask.push(!dropped);
            if !dropped {
                let hash = node_hash(height, shard, 0);
                chain.store.put(shard, &hash, height.to_le_bytes().to_vec()).unwrap();
            }
        }
        println!("block: {} chunks: {:?}", height, chunk_mask);
        if params.chunk_ranges_to_drop.is_empty() {
            assert!(chunk_mask.iter().all(|chunk_bit| *chunk_bit));
        }

        // The last block of an epoch learns what the next epoch brings.
        let is_next_block_epoch_start = chain.is_epoch_start(height + 1);
        let current = chain.epoch_config(epoch);
        let next = chain.epoch_config(epoch + 1);
        let next_block_has_new_shard_layout =
            is_next_block_epoch_start && !current.shard_layout.same(&next.shard_layout);
        let plan =
            chain.coordinator.observe_epoch_end(is_next_block_epoch_start, &current, &next).unwrap();
        assert_eq!(plan.is_some(), next_block_has_new_shard_layout);
        if next_block_has_new_shard_layout {
            assert_eq!(height + 1, split_height);
        }
        if let Some(action) = params.loop_action.as_mut() {
            action.run(&mut chain);
        }

        // Return if we passed an epoch with increased number of shards.
        if epoch == 0 {
            continue;
        }
        let prev_epoch_config = chain.epoch_config(epoch - 1);
        if prev_epoch_config.shard_layout.shard_ids().len() != expected_num_shards {
            continue;
        }
        println!("State after resharding:");
        print_and_assert_shard_accounts(&chain, &params.accounts);
        check_state_shard_uid_mapping_after_resharding(&chain, parent_shard_uid, false);
        assert_eq!(chain.coordinator.producing_shards().len(), expected_num_shards);
        success = true;
        break;
    }
    assert!(success);
    assert!(chain.height <= 7 * params.epoch_length);
    assert_eq!(forked, params.loop_action.is_some());
    assert_eq!(chain.coordinator.state_of(parent_shard_uid), Some(ShardState::SplitActive));
}

#[test]
fn test_resharding_v3() {
    test_resharding_v3_base(TestReshardingParameters::new());
}

#[test]
fn test_resharding_v3_drop_chunks_before() {
    let chunk_ranges_to_drop = HashMap::from([(ShardUId { shard_id: 1, version: 3 }, -2..0)]);
    test_resharding_v3_base(
        TestReshardingParameters::new().chunk_ranges_to_drop(chunk_ranges_to_drop),
    );
}

#[test]
fn test_resharding_v3_drop_chunks_after() {
    let chunk_ranges_to_drop = HashMap::from([(ShardUId { shard_id: 2, version: 3 }, 0..2)]);
    test_resharding_v3_base(
        TestReshardingParameters::new().chunk_ranges_to_drop(chunk_ranges_to_drop),
    );
}

#[test]
fn test_resharding_v3_drop_chunks_before_and_after() {
    let chunk_ranges_to_drop = HashMap::from([(ShardUId { shard_id: 0, version: 3 }, -2..2)]);
    test_resharding_v3_base(
        TestReshardingParameters::new().chunk_ranges_to_drop(chunk_ranges_to_drop),
    );
}

#[test]
fn test_resharding_v3_drop_chunks_all() {
    let chunk_ranges_to_drop = HashMap::from([
        (ShardUId { shard_id: 0, version: 3 }, -1..2),
        (ShardUId { shard_id: 1, version: 3 }, -3..0),
        (ShardUId { shard_id: 2, version: 3 }, 0..3),
        (ShardUId { shard_id: 3, version: 3 }, 0..1),
    ]);
    test_resharding_v3_base(
        TestReshardingParameters::new().chunk_ranges_to_drop(chunk_ranges_to_drop),
    );
}

#[test]
fn test_resharding_v3_resharding_block_in_fork() {
    test_resharding_v3_base(
        TestReshardingParameters::with_clients(1)
            .loop_action(Some(fork_before_resharding_block(false))),
    );
}

#[test]
fn test_resharding_v3_double_sign_resharding_block() {
    test_resharding_v3_base(
        TestReshardingParameters::with_clients(1)
            .loop_action(Some(fork_before_resharding_block(true))),
    );
}

#[test]
fn drop_chunks_of_the_children_after_the_split() {
    let chunk_ranges_to_drop = HashMap::from([
        (ShardUId { shard_id: 2, version: 4 }, 0..2),
        (ShardUId { shard_id: 3, version: 4 }, 0..7),
    ]);
    test_resharding_v3_base(
        TestReshardingParameters::new().chunk_ranges_to_drop(chunk_ranges_to_drop),
    );
}
