//! Epoch configurations and the registry that resolves a protocol version
//! to the configuration in force.

use crate::error::ConfigError;
use crate::shard_layout::{ShardLayout, ShardLayoutView};
use vstd::prelude::*;

verus! {

/// A protocol version.
pub type ProtocolVersion = u32;

/// What an epoch configuration holds.
pub struct EpochConfigView {
    pub shard_layout: ShardLayoutView,
    pub epoch_length: u64,
    pub block_producer_kickout_threshold: u8,
    pub chunk_producer_kickout_threshold: u8,
    pub chunk_validator_only_kickout_threshold: u8,
    pub shuffle_shard_assignment_for_chunk_producers: bool,
}

/// The configuration of an epoch: its shard layout, its length in blocks,
/// the thresholds below which producers and validators are kicked out, and
/// whether chunk producers are shuffled between shards.
#[derive(Clone, Debug, PartialEq, Eq)]
pub struct EpochConfig {
    pub shard_layout: ShardLayout,
    pub epoch_length: u64,
    pub block_producer_kickout_threshold: u8,
    pub chunk_producer_kickout_threshold: u8,
    pub chunk_validator_only_kickout_threshold: u8,
    pub shuffle_shard_assignment_for_chunk_producers: bool,
}

impl View for EpochConfig {
    type V = EpochConfigView;

    open spec fn view(&self) -> EpochConfigView {
        EpochConfigView {
            shard_layout: self.shard_layout@,
            epoch_length: self.epoch_length,
            block_producer_kickout_threshold: self.block_producer_kickout_threshold,
            chunk_producer_kickout_threshold: self.chunk_producer_kickout_threshold,
            chunk_validator_only_kickout_threshold: self.chunk_validator_only_kickout_threshold,
            shuffle_shard_assignment_for_chunk_producers: self.shuffle_shard_assignment_for_chunk_producers,
        }
    }
}

impl EpochConfigView {
    /// The same configuration with every kickout threshold at zero.
    pub open spec fn without_kickouts(self) -> EpochConfigView {
        EpochConfigView {
            block_producer_kickout_threshold: 0,
            chunk_producer_kickout_threshold: 0,
            chunk_validator_only_kickout_threshold: 0,
            ..self
        }
    }

    /// The same configuration with another shard layout.
    pub open spec fn with_shard_layout(self, shard_layout: ShardLayoutView) -> EpochConfigView {
        EpochConfigView { shard_layout, ..self }
    }
}

impl EpochConfig {
    /// A copy of the configuration.
    pub fn duplicate(&self) -> (config: EpochConfig)
        ensures
            config@ == self@,
    {
        EpochConfig {
            shard_layout: self.shard_layout.duplicate(),
            epoch_length: self.epoch_length,
            block_producer_kickout_threshold: self.block_producer_kickout_threshold,
            chunk_producer_kickout_threshold: self.chunk_producer_kickout_threshold,
            chunk_validator_only_kickout_threshold: self.chunk_validator_only_kickout_threshold,
            shuffle_shard_assignment_for_chunk_producers: self.shuffle_shard_assignment_for_chunk_producers,
        }
    }

    /// The configuration with `shard_layout` in place of its layout.
    pub fn with_shard_layout(self, shard_layout: ShardLayout) -> (config: EpochConfig)
        ensures
            config@ == self@.with_shard_layout(shard_layout@),
    {
        EpochConfig {
            shard_layout,
            epoch_length: self.epoch_length,
            block_producer_kickout_threshold: self.block_producer_kickout_threshold,
            chunk_producer_kickout_threshold: self.chunk_producer_kickout_threshold,
            chunk_validator_only_kickout_threshold: self.chunk_validator_only_kickout_threshold,
            shuffle_shard_assignment_for_chunk_producers: self.shuffle_shard_assignment_for_chunk_producers,
        }
    }

    /// The configuration to run a layout change under. Where chunks may go
    /// missing around the change, no producer or validator is kicked out for
    /// it: every threshold is zero. Otherwise the configuration is unchanged.
    pub fn for_transition(self, anticipates_chunk_loss: bool) -> (config: EpochConfig)
        ensures
            config@ == if anticipates_chunk_loss {
                self@.without_kickouts()
            } else {
                self@
            },
    {
        if anticipates_chunk_loss {
            EpochConfig {
                shard_layout: self.shard_layout,
                epoch_length: self.epoch_length,
                block_producer_kickout_threshold: 0,
                chunk_producer_kickout_threshold: 0,
                chunk_validator_only_kickout_threshold: 0,
                shuffle_shard_assignment_for_chunk_producers: self.shuffle_shard_assignment_for_chunk_producers,
            }
        } else {
            self
        }
    }
}

/// One registered configuration.
#[derive(Clone, Debug)]
struct ConfigEntry {
    protocol_version: u32,
    config: EpochConfig,
}

/// Whether some entry is registered for `version`.
spec fn has_version(entries: Seq<ConfigEntry>, version: u32) -> bool {
    exists|i: int| 0 <= i < entries.len() && (#[trigger] entries[i]).protocol_version == version
}

/// The configuration registered for `version`.
spec fn config_at(entries: Seq<ConfigEntry>, version: u32) -> EpochConfigView {
    let i = choose|i: int| 0 <= i < entries.len() && (#[trigger] entries[i]).protocol_version == version;
    entries[i].config@
}

/// Whether the entries stand in the order of their versions, no version
/// twice.
spec fn versions_increase(entries: Seq<ConfigEntry>) -> bool {
    forall|i: int, j: int|
        0 <= i < j < entries.len() ==> (#[trigger] entries[i]).protocol_version < (
        #[trigger] entries[j]).protocol_version
}

/// The configuration registered for the version of an entry is that of the
/// entry.
proof fn lemma_config_at(entries: Seq<ConfigEntry>, i: int)
    requires
        versions_increase(entries),
        0 <= i < entries.len(),
    ensures
        has_version(entries, entries[i].protocol_version),
        config_at(entries, entries[i].protocol_version) == entries[i].config@,
{
    let version = entries[i].protocol_version;
    let j = choose|j: int| 0 <= j < entries.len() && (#[trigger] entries[j]).protocol_version == version;
    if i < j {
        assert(entries[i].protocol_version < entries[j].protocol_version);
    } else if j < i {
        assert(entries[j].protocol_version < entries[i].protocol_version);
    }
}

/// Whether `registered` is the version whose configuration is in force at
/// `version`: the greatest registered version that is not above it.
pub open spec fn resolves_to(
    configs: Map<u32, EpochConfigView>,
    version: u32,
    registered: u32,
) -> bool {
    &&& configs.contains_key(registered)
    &&& registered <= version
    &&& forall|other: u32| configs.contains_key(other) && other <= version ==> other <= registered
}

/// Whether some configuration is registered at or below `version`.
pub open spec fn has_config_below(configs: Map<u32, EpochConfigView>, version: u32) -> bool {
    exists|registered: u32| configs.contains_key(registered) && registered <= version
}

/// Whether no protocol version occurs twice among the entries.
pub open spec fn versions_differ(entries: Seq<(u32, EpochConfig)>) -> bool {
    forall|i: int, j: int|
        0 <= i < j < entries.len() ==> (#[trigger] entries[i]).0 != (#[trigger] entries[j]).0
}

/// Whether one of the entries is for `version`.
pub open spec fn lists_version(entries: Seq<(u32, EpochConfig)>, version: u32) -> bool {
    exists|i: int| 0 <= i < entries.len() && (#[trigger] entries[i]).0 == version
}

/// The registry of epoch configurations by protocol version. It is filled
/// when the chain is set up and only read afterwards.
#[derive(Debug)]
pub struct EpochConfigStore {
    entries: Vec<ConfigEntry>,
}

impl View for EpochConfigStore {
    type V = Map<u32, EpochConfigView>;

    closed spec fn view(&self) -> Map<u32, EpochConfigView> {
        Map::new(
            |version: u32| has_version(self.entries@, version),
            |version: u32| config_at(self.entries@, version),
        )
    }
}

impl EpochConfigStore {
    /// The invariant of a registry. Every registry meets it.
    #[verifier::type_invariant]
    pub closed spec fn wf(&self) -> bool {
        versions_increase(self.entries@)
    }

    /// The registry without configurations.
    pub fn new() -> (store: EpochConfigStore)
        ensures
            store@ == Map::<u32, EpochConfigView>::empty(),
    {
        let store = EpochConfigStore { entries: Vec::new() };
        assert(store@ =~= Map::<u32, EpochConfigView>::empty());
        store
    }

    /// The registry of the given configurations, each with its protocol
    /// version. No version may occur twice.
    pub fn from_entries(entries: Vec<(ProtocolVersion, EpochConfig)>) -> (r: Result<
        EpochConfigStore,
        ConfigError,
    >)
        ensures
            r is Ok <==> versions_differ(entries@),
            r matches Ok(store) ==> {
                &&& forall|i: int|
                    0 <= i < entries@.len() ==> store@.contains_key((#[trigger] entries@[i]).0)
                        && store@[entries@[i].0] == entries@[i].1@
                &&& forall|version: u32| #[trigger]
                    store@.contains_key(version) ==> lists_version(entries@, version)
            },
            r matches Err(e) ==> e == ConfigError::DuplicateVersion,
    {
        let ghost all = entries@;
        let mut rest = entries;
        let mut store = EpochConfigStore::new();
        while rest.len() > 0
            invariant
                all == entries@,
                rest@.len() <= all.len(),
                rest@ == all.take(rest@.len() as int),
                forall|i: int, j: int|
                    rest@.len() <= i < j < all.len() ==> (#[trigger] all[i]).0 != (
                    #[trigger] all[j]).0,
                forall|i: int|
                    rest@.len() <= i < all.len() ==> store@.contains_key((#[trigger] all[i]).0)
                        && store@[all[i].0] == all[i].1@,
                forall|version: u32| #[trigger]
                    store@.contains_key(version) ==> exists|i: int|
                        rest@.len() <= i < all.len() && (#[trigger] all[i]).0 == version,
            decreases rest@.len(),
        {
            let ghost k = rest@.len() - 1;
            let ghost before = store@;
            let (version, config) = match rest.pop() {
                Some(entry) => entry,
                None => {
                    return Err(ConfigError::DuplicateVersion);
                },
            };
            assert(all[k] == (version, config));
            match store.register(version, config) {
                Ok(()) => {
                    assert forall|i: int| k <= i < all.len() implies store@.contains_key(
                        (#[trigger] all[i]).0,
                    ) && store@[all[i].0] == all[i].1@ by {
                        if i > k {
                            assert(before.contains_key(all[i].0));
                        }
                    }
                    assert forall|version: u32| #[trigger]
                        store@.contains_key(version) implies exists|i: int|
                        k <= i < all.len() && (#[trigger] all[i]).0 == version by {
                        if version == all[k].0 {
                        } else {
                            assert(before.contains_key(version));
                            let i = choose|i: int|
                                k + 1 <= i < all.len() && (#[trigger] all[i]).0 == version;
                            assert(k <= i < all.len() && all[i].0 == version);
                        }
                    }
                },
                Err(_) => {
                    proof {
                        assert(before.contains_key(version));
                        let j = choose|j: int|
                            k + 1 <= j < all.len() && (#[trigger] all[j]).0 == version;
                        assert(all[k].0 == all[j].0);
                        assert(!versions_differ(all));
                    }
                    return Err(ConfigError::DuplicateVersion);
                },
            }
        }
        Ok(store)
    }

    /// How many configurations are registered.
    pub fn len(&self) -> (n: usize)
        ensures
            n == self@.dom().len(),
            self@.dom().finite(),
    {        proof {
            use_type_invariant(self);
        }

        proof {
            self.lemma_domain(self.entries@.len() as int);
            assert(self@.dom() =~= Set::new(
                |v: u32| has_version(self.entries@.take(self.entries@.len() as int), v),
            )) by {
                assert(self.entries@.take(self.entries@.len() as int) =~= self.entries@);
            }
        }
        self.entries.len()
    }

    /// The first `n` entries register `n` versions.
    proof fn lemma_domain(&self, n: int)
        requires
            self.wf(),
            0 <= n <= self.entries@.len(),
        ensures
            Set::new(|v: u32| has_version(self.entries@.take(n), v)).finite(),
            Set::new(|v: u32| has_version(self.entries@.take(n), v)).len() == n,
        decreases n,
    {
        let here = Set::new(|v: u32| has_version(self.entries@.take(n), v));
        if n == 0 {
            assert(here =~= Set::<u32>::empty());
        } else {
            self.lemma_domain(n - 1);
            let before = Set::new(|v: u32| has_version(self.entries@.take(n - 1), v));
            let last = self.entries@[n - 1].protocol_version;
            assert(here =~= before.insert(last)) by {
                assert forall|v: u32| here.contains(v) implies before.insert(last).contains(v) by {
                    let i = choose|i: int|
                        0 <= i < n && (#[trigger] self.entries@.take(n)[i]).protocol_version == v;
                    if i < n - 1 {
                        assert(self.entries@.take(n - 1)[i].protocol_version == v);
                    }
                }
                assert forall|v: u32| before.insert(last).contains(v) implies here.contains(v) by {
                    if v == last {
                        assert(self.entries@.take(n)[n - 1].protocol_version == v);
                    } else {
                        let i = choose|i: int|
                            0 <= i < n - 1 && (#[trigger] self.entries@.take(n - 1)[i]).protocol_version
                                == v;
                        assert(self.entries@.take(n)[i].protocol_version == v);
                    }
                }
            }
            assert(!before.contains(last)) by {
                if before.contains(last) {
                    let i = choose|i: int|
                        0 <= i < n - 1 && (#[trigger] self.entries@.take(n - 1)[i]).protocol_version
                            == last;
                    assert(self.entries@[i].protocol_version < self.entries@[n - 1].protocol_version);
                }
            }
        }
    }

    /// The number of registered versions that are not above `version`.
    fn count_not_above(&self, version: u32) -> (n: usize)
        ensures
            n <= self.entries@.len(),
            forall|i: int| 0 <= i < n ==> (#[trigger] self.entries@[i]).protocol_version <= version,
            forall|i: int|
                n <= i < self.entries@.len() ==> (#[trigger] self.entries@[i]).protocol_version
                    > version,
    {        proof {
            use_type_invariant(self);
        }

        let mut lo: usize = 0;
        let mut hi: usize = self.entries.len();
        while lo < hi
            invariant
                self.wf(),
                lo <= hi <= self.entries@.len(),
                forall|i: int| 0 <= i < lo ==> (#[trigger] self.entries@[i]).protocol_version <= version,
                forall|i: int|
                    hi <= i < self.entries@.len() ==> (#[trigger] self.entries@[i]).protocol_version
                        > version,
            decreases hi - lo,
        {
            let mid = lo + (hi - lo) / 2;
            if self.entries[mid].protocol_version <= version {
                assert forall|i: int| 0 <= i < mid + 1 implies (
                #[trigger] self.entries@[i]).protocol_version <= version by {
                    if i < mid {
                        assert(self.entries@[i].protocol_version
                            < self.entries@[mid as int].protocol_version);
                    }
                }
                lo = mid + 1;
            } else {
                assert forall|i: int| mid <= i < self.entries@.len() implies (
                #[trigger] self.entries@[i]).protocol_version > version by {
                    if mid < i {
                        assert(self.entries@[mid as int].protocol_version
                            < self.entries@[i].protocol_version);
                    }
                }
                hi = mid;
            }
        }
        lo
    }

    /// Registers `config` for `protocol_version`, unless the version has a
    /// configuration already.
    pub fn register(&mut self, protocol_version: ProtocolVersion, config: EpochConfig) -> (r: Result<
        (),
        ConfigError,
    >)
        ensures
            old(self)@.contains_key(protocol_version) ==> r == Err::<(), ConfigError>(
                ConfigError::DuplicateVersion,
            ) && final(self)@ == old(self)@,
            !old(self)@.contains_key(protocol_version) ==> r == Ok::<(), ConfigError>(())
                && final(self)@ == old(self)@.insert(protocol_version, config@),
    {        proof {
            use_type_invariant(&*self);
        }

        let n = self.count_not_above(protocol_version);
        let ghost before = self.entries@;
        if n > 0 && self.entries[n - 1].protocol_version == protocol_version {
            return Err(ConfigError::DuplicateVersion);
        }
        assert(!has_version(before, protocol_version)) by {
            if has_version(before, protocol_version) {
                let i = choose|i: int|
                    0 <= i < before.len() && (#[trigger] before[i]).protocol_version
                        == protocol_version;
                if i < n - 1 {
                    assert(before[i].protocol_version < before[n - 1].protocol_version);
                }
            }
        }
        let ghost config_view = config@;
        let mut entries: Vec<ConfigEntry> = Vec::new();
        core::mem::swap(&mut self.entries, &mut entries);
        entries.insert(n, ConfigEntry { protocol_version, config });
        proof {
            let after = entries@;
            assert(after[n as int].protocol_version == protocol_version);
            assert forall|i: int, j: int| 0 <= i < j < after.len() implies (
            #[trigger] after[i]).protocol_version < (#[trigger] after[j]).protocol_version by {
                let oi = if i < n { i } else { i - 1 };
                let oj = if j < n { j } else { j - 1 };
                if i != n && j != n {
                    assert(after[i] == before[oi]);
                    assert(after[j] == before[oj]);
                    assert(before[oi].protocol_version < before[oj].protocol_version);
                } else if i == n {
                    assert(after[j] == before[oj]);
                    assert(before[oj].protocol_version > protocol_version);
                } else {
                    assert(after[i] == before[oi]);
                    assert(before[oi].protocol_version <= protocol_version);
                }
            }
        }
        core::mem::swap(&mut self.entries, &mut entries);
        proof {
            let after = self.entries@;
            let expected = old(self)@.insert(protocol_version, config_view);
            assert forall|v: u32| expected.contains_key(v) implies #[trigger] self@.contains_key(v)
                && self@[v] == expected[v] by {
                if v == protocol_version {
                    lemma_config_at(after, n as int);
                } else {
                    let i = choose|i: int|
                        0 <= i < before.len() && (#[trigger] before[i]).protocol_version == v;
                    lemma_config_at(before, i);
                    let ni = if i < n { i } else { i + 1 };
                    assert(after[ni] == before[i]);
                    lemma_config_at(after, ni);
                }
            }
            assert forall|v: u32| self@.contains_key(v) implies #[trigger] expected.contains_key(
                v,
            ) by {
                let i = choose|i: int|
                    0 <= i < after.len() && (#[trigger] after[i]).protocol_version == v;
                if i != n {
                    let oi = if i < n { i } else { i - 1 };
                    assert(after[i] == before[oi]);
                    assert(before[oi].protocol_version == v);
                }
            }
            assert(self@ =~= expected);
        }
        Ok(())
    }

    /// The registered version whose configuration is in force at
    /// `protocol_version`.
    pub fn resolve_version(&self, protocol_version: ProtocolVersion) -> (r: Option<ProtocolVersion>)
        ensures
            r is Some <==> has_config_below(self@, protocol_version),
            r matches Some(registered) ==> resolves_to(self@, protocol_version, registered),
    {        proof {
            use_type_invariant(self);
        }

        let n = self.count_not_above(protocol_version);
        proof {
            self.lemma_resolution(protocol_version, n as int);
        }
        if n == 0 {
            None
        } else {
            Some(self.entries[n - 1].protocol_version)
        }
    }

    /// The configuration in force at `protocol_version`: the one registered
    /// for the greatest version that is not above it.
    pub fn resolve(&self, protocol_version: ProtocolVersion) -> (r: Result<&EpochConfig, ConfigError>)
        ensures
            r is Ok <==> has_config_below(self@, protocol_version),
            r matches Ok(config) ==> exists|registered: u32|
                resolves_to(self@, protocol_version, registered) && config@ == self@[registered],
            r matches Err(e) ==> e == ConfigError::NoConfigBelow,
    {        proof {
            use_type_invariant(self);
        }

        let n = self.count_not_above(protocol_version);
        proof {
            self.lemma_resolution(protocol_version, n as int);
        }
        if n == 0 {
            Err(ConfigError::NoConfigBelow)
        } else {
            proof {
                lemma_config_at(self.entries@, n - 1);
                let registered = self.entries@[n - 1].protocol_version;
                assert(resolves_to(self@, protocol_version, registered)
                    && self.entries@[n - 1].config@ == self@[registered]);
            }
            Ok(&self.entries[n - 1].config)
        }
    }

    /// The configuration registered for exactly `protocol_version`.
    pub fn get(&self, protocol_version: ProtocolVersion) -> (r: Option<&EpochConfig>)
        ensures
            r is Some <==> self@.contains_key(protocol_version),
            r matches Some(config) ==> config@ == self@[protocol_version],
    {        proof {
            use_type_invariant(self);
        }

        let n = self.count_not_above(protocol_version);
        if n > 0 && self.entries[n - 1].protocol_version == protocol_version {
            proof {
                lemma_config_at(self.entries@, n - 1);
            }
            Some(&self.entries[n - 1].config)
        } else {
            assert(!has_version(self.entries@, protocol_version)) by {
                if has_version(self.entries@, protocol_version) {
                    let i = choose|i: int|
                        0 <= i < self.entries@.len() && (#[trigger] self.entries@[i]).protocol_version
                            == protocol_version;
                    if i < n - 1 {
                        assert(self.entries@[i].protocol_version < self.entries@[n
                            - 1].protocol_version);
                    }
                }
            }
            None
        }
    }

    /// Where the first `n` entries are those not above `version`, the last of
    /// them is in force at `version`, and none is if there is none.
    proof fn lemma_resolution(&self, version: u32, n: int)
        requires
            self.wf(),
            0 <= n <= self.entries@.len(),
            forall|i: int| 0 <= i < n ==> (#[trigger] self.entries@[i]).protocol_version <= version,
            forall|i: int|
                n <= i < self.entries@.len() ==> (#[trigger] self.entries@[i]).protocol_version
                    > version,
        ensures
            n == 0 <==> !has_config_below(self@, version),
            n > 0 ==> resolves_to(self@, version, self.entries@[n - 1].protocol_version),
    {
        let entries = self.entries@;
        if n > 0 {
            let registered = entries[n - 1].protocol_version;
            lemma_config_at(entries, n - 1);
            assert(self@.contains_key(registered));
            assert forall|other: u32| self@.contains_key(other) && other <= version implies other
                <= registered by {
                let i = choose|i: int|
                    0 <= i < entries.len() && (#[trigger] entries[i]).protocol_version == other;
                if i < n - 1 {
                    assert(entries[i].protocol_version < entries[n - 1].protocol_version);
                }
            }
        } else {
            if has_config_below(self@, version) {
                let k = choose|k: u32| self@.contains_key(k) && k <= version;
                let i = choose|i: int|
                    0 <= i < entries.len() && (#[trigger] entries[i]).protocol_version == k;
                assert(entries[i].protocol_version > version);
            }
        }
    }
}

/// Resolution follows the protocol version: a later version never resolves
/// to an earlier registered version than an earlier one does.
pub proof fn lemma_resolve_monotone(
    configs: Map<u32, EpochConfigView>,
    earlier: u32,
    later: u32,
    registered_earlier: u32,
    registered_later: u32,
)
    requires
        earlier <= later,
        resolves_to(configs, earlier, registered_earlier),
        resolves_to(configs, later, registered_later),
    ensures
        registered_earlier <= registered_later,
{
}

/// A version resolves to one registered version at most.
pub proof fn lemma_resolve_unique(
    configs: Map<u32, EpochConfigView>,
    version: u32,
    a: u32,
    b: u32,
)
    requires
        resolves_to(configs, version, a),
        resolves_to(configs, version, b),
    ensures
        a == b,
{
}

/// Where an earlier version has a configuration in force, every later one
/// has too.
pub proof fn lemma_resolve_persists(
    configs: Map<u32, EpochConfigView>,
    earlier: u32,
    later: u32,
)
    requires
        earlier <= later,
        has_config_below(configs, earlier),
    ensures
        has_config_below(configs, later),
{
    let k = choose|k: u32| configs.contains_key(k) && k <= earlier;
    assert(configs.contains_key(k) && k <= later);
}

} // verus!
