//! The resharding coordinator: when a split is due, when it takes effect,
//! and which shards may produce chunks.
//!
//! Every shard goes through `Stable`, `SplitPending`, `SplitActive` and
//! `Migrated`, in this order and never back. A shard that is never split
//! stays `Stable`.

use crate::epoch_config::EpochConfig;
use crate::error::{ActivationError, ConfigError};
use crate::hash::CryptoHash;
use crate::shard_layout::{ShardLayout, ShardLayoutView, ShardSplit};
use crate::shard_uid::ShardUId;
use crate::trie_store::{lemma_split_keeps_reads, ShardedTrieStore, TrieStoreView};
use vstd::prelude::*;

verus! {

/// Identifier of an epoch.
pub type EpochId = CryptoHash;

/// The split that a change of layout asks for.
pub type SplitPlan = ShardSplit;

/// Where a shard stands with regard to its split.
#[derive(Clone, Copy, Debug, PartialEq, Eq, Structural)]
pub enum ShardState {
    /// The shard works under the current layout; no change is due.
    Stable,
    /// The next epoch splits the shard.
    SplitPending,
    /// The shard's children have taken over; they still read its records.
    SplitActive,
    /// The children no longer need the shard's records.
    Migrated,
}

/// What a change of layout between two epochs asks for: nothing where the
/// layouts are the same, the split where the later layout is the earlier
/// with one shard split, and an error for any other change.
pub open spec fn spec_next_layout(current: ShardLayoutView, next: ShardLayoutView) -> Result<
    Option<ShardSplit>,
    ConfigError,
> {
    if current == next {
        Ok(None)
    } else if next.is_split_of(current) {
        Ok(next.split)
    } else {
        Err(ConfigError::UnsupportedSplit)
    }
}

/// Compares the layouts of the current and of the next epoch.
pub fn next_layout(current: &EpochConfig, next: &EpochConfig) -> (r: Result<
    Option<SplitPlan>,
    ConfigError,
>)
    ensures
        r == spec_next_layout(current@.shard_layout, next@.shard_layout),
{
    if current.shard_layout.same(&next.shard_layout) {
        return Ok(None);
    }
    match next.shard_layout.split_from(&current.shard_layout) {
        Some(split) => Ok(Some(split)),
        None => Err(ConfigError::UnsupportedSplit),
    }
}

/// What the coordinator knows of one shard.
pub struct ShardTrackView {
    pub shard: ShardUId,
    pub state: ShardState,
    /// The split that is due or was made.
    pub plan: Option<ShardSplit>,
    /// The epoch in which the split took effect.
    pub activated_in: Option<Seq<u8>>,
}

impl ShardTrackView {
    /// A shard for which no change is due.
    pub open spec fn stable(shard: ShardUId) -> ShardTrackView {
        ShardTrackView { shard, state: ShardState::Stable, plan: None, activated_in: None }
    }

    /// Whether the plan splits this shard into two different children of
    /// later versions.
    pub open spec fn plan_fits(self) -> bool {
        &&& self.plan matches Some(plan)
        &&& plan.parent == self.shard
        &&& plan.parent.version < plan.left.version
        &&& plan.parent.version < plan.right.version
        &&& plan.left != plan.right
    }

    /// What holds of every entry: a stable shard has no split, a pending
    /// one has a split that is due, and a later one the epoch of it as well.
    pub open spec fn wf(self) -> bool {
        match self.state {
            ShardState::Stable => self.plan is None && self.activated_in is None,
            ShardState::SplitPending => self.plan_fits() && self.activated_in is None,
            ShardState::SplitActive => self.plan_fits() && self.activated_in is Some,
            ShardState::Migrated => self.plan_fits() && self.activated_in is Some,
        }
    }

    /// Whether the shard may produce chunks: until its split takes effect.
    pub open spec fn accepts_chunks(self) -> bool {
        self.state is Stable || self.state is SplitPending
    }
}

/// What the coordinator holds: one entry for each shard it has seen.
pub struct CoordinatorView {
    pub tracks: Seq<ShardTrackView>,
}

impl CoordinatorView {
    /// What holds of every coordinator: each entry is in order, and no
    /// shard has two entries.
    pub open spec fn wf(self) -> bool {
        &&& forall|i: int| 0 <= i < self.tracks.len() ==> (#[trigger] self.tracks[i]).wf()
        &&& forall|i: int, j: int|
            0 <= i < j < self.tracks.len() ==> (#[trigger] self.tracks[i]).shard != (
            #[trigger] self.tracks[j]).shard
    }

    /// Whether the coordinator has seen `shard`.
    pub open spec fn tracks_shard(self, shard: ShardUId) -> bool {
        exists|i: int| 0 <= i < self.tracks.len() && (#[trigger] self.tracks[i]).shard == shard
    }

    /// The place of the entry of `shard`.
    pub open spec fn position(self, shard: ShardUId) -> int {
        choose|i: int| 0 <= i < self.tracks.len() && (#[trigger] self.tracks[i]).shard == shard
    }

    /// The entry of `shard`.
    pub open spec fn track_of(self, shard: ShardUId) -> ShardTrackView {
        self.tracks[self.position(shard)]
    }

    /// The state of `shard`, if the coordinator has seen it.
    pub open spec fn state_of(self, shard: ShardUId) -> Option<ShardState> {
        if self.tracks_shard(shard) {
            Some(self.track_of(shard).state)
        } else {
            None
        }
    }

    /// Whether `shard` may produce chunks.
    pub open spec fn accepts_chunk_production(self, shard: ShardUId) -> bool {
        self.tracks_shard(shard) && self.track_of(shard).accepts_chunks()
    }

    /// The shards that may produce chunks, in the order of their entries.
    pub open spec fn producing(self) -> Seq<ShardUId>
        decreases self.tracks.len(),
    {
        if self.tracks.len() == 0 {
            Seq::empty()
        } else {
            let rest = (CoordinatorView { tracks: self.tracks.drop_last() }).producing();
            if self.tracks.last().accepts_chunks() {
                rest.push(self.tracks.last().shard)
            } else {
                rest
            }
        }
    }

    /// Whether `plan` can be taken up: it splits a stable shard into two
    /// different children of later versions.
    pub open spec fn can_observe(self, plan: ShardSplit) -> bool {
        &&& self.tracks_shard(plan.parent)
        &&& self.track_of(plan.parent).state is Stable
        &&& plan.parent.version < plan.left.version
        &&& plan.parent.version < plan.right.version
        &&& plan.left != plan.right
    }

    /// The coordinator after it learnt that the next epoch brings `plan`:
    /// the parent, if it is stable, becomes pending.
    pub open spec fn observe(self, plan: ShardSplit) -> CoordinatorView {
        if self.can_observe(plan) {
            CoordinatorView {
                tracks: self.tracks.update(
                    self.position(plan.parent),
                    ShardTrackView {
                        shard: plan.parent,
                        state: ShardState::SplitPending,
                        plan: Some(plan),
                        activated_in: None,
                    },
                ),
            }
        } else {
            self
        }
    }

    /// Whether the pending split of `parent` can take effect: neither child
    /// is known to the coordinator, nor registered in the store under
    /// another parent.
    pub open spec fn can_activate(self, store: TrieStoreView, parent: ShardUId) -> bool {
        &&& self.tracks_shard(parent)
        &&& self.track_of(parent).state is SplitPending
        &&& self.track_of(parent).plan matches Some(plan)
        &&& !self.tracks_shard(plan.left)
        &&& !self.tracks_shard(plan.right)
        &&& store.can_link(plan.left, parent)
        &&& store.can_link(plan.right, parent)
    }

    /// How an attempt to activate the split of `parent` in `epoch` ends:
    /// with `true` if the split takes effect, with `false` if it took effect
    /// in this very epoch before, and with an error otherwise.
    pub open spec fn activation_outcome(
        self,
        store: TrieStoreView,
        epoch: Seq<u8>,
        parent: ShardUId,
    ) -> Result<bool, ActivationError> {
        if !self.tracks_shard(parent) {
            Err(ActivationError::NotDerived)
        } else {
            match self.track_of(parent).state {
                ShardState::Stable => Err(ActivationError::NotDerived),
                ShardState::SplitPending => if self.can_activate(store, parent) {
                    Ok(true)
                } else {
                    Err(ActivationError::DoubleActivation)
                },
                _ => if self.track_of(parent).activated_in == Some(epoch) {
                    Ok(false)
                } else {
                    Err(ActivationError::DoubleActivation)
                },
            }
        }
    }

    /// The coordinator and the store after an attempt to activate the split
    /// of `parent` in `epoch`. Where the split takes effect, the parent
    /// becomes active, both children are registered in the store under the
    /// parent and start as stable shards. In every other case nothing
    /// changes.
    pub open spec fn activate(self, store: TrieStoreView, epoch: Seq<u8>, parent: ShardUId) -> (
        CoordinatorView,
        TrieStoreView,
    ) {
        if self.can_activate(store, parent) {
            let plan = self.track_of(parent).plan->0;
            (
                CoordinatorView {
                    tracks: self.tracks.update(
                        self.position(parent),
                        ShardTrackView {
                            shard: parent,
                            state: ShardState::SplitActive,
                            plan: Some(plan),
                            activated_in: Some(epoch),
                        },
                    ).push(ShardTrackView::stable(plan.left)).push(
                        ShardTrackView::stable(plan.right),
                    ),
                },
                store.link_children(parent, plan.left, plan.right),
            )
        } else {
            (self, store)
        }
    }

    /// The coordinator after the children of `parent` were found to need
    /// its records no longer: an active split becomes migrated.
    pub open spec fn complete_migration(self, parent: ShardUId) -> CoordinatorView {
        if self.tracks_shard(parent) && self.track_of(parent).state is SplitActive {
            CoordinatorView {
                tracks: self.tracks.update(
                    self.position(parent),
                    ShardTrackView { state: ShardState::Migrated, ..self.track_of(parent) },
                ),
            }
        } else {
            self
        }
    }
}

/// The entry of a shard stands at one place only.
pub proof fn lemma_position(coordinator: CoordinatorView, i: int)
    requires
        coordinator.wf(),
        0 <= i < coordinator.tracks.len(),
    ensures
        coordinator.tracks_shard(coordinator.tracks[i].shard),
        coordinator.position(coordinator.tracks[i].shard) == i,
{
    let j = coordinator.position(coordinator.tracks[i].shard);
    if i < j {
        assert(coordinator.tracks[i].shard != coordinator.tracks[j].shard);
    } else if j < i {
        assert(coordinator.tracks[j].shard != coordinator.tracks[i].shard);
    }
}

/// One entry of the coordinator.
#[derive(Clone, Copy, Debug)]
struct ShardTrack {
    shard: ShardUId,
    state: ShardState,
    plan: Option<ShardSplit>,
    activated_in: Option<CryptoHash>,
}

/// What an entry holds.
spec fn track_view(track: ShardTrack) -> ShardTrackView {
    ShardTrackView {
        shard: track.shard,
        state: track.state,
        plan: track.plan,
        activated_in: match track.activated_in {
            Some(epoch) => Some(epoch@),
            None => None,
        },
    }
}

/// What a list of entries holds.
spec fn tracks_view(tracks: Seq<ShardTrack>) -> Seq<ShardTrackView> {
    Seq::new(tracks.len(), |i: int| track_view(tracks[i]))
}

/// The resharding coordinator.
#[derive(Debug)]
pub struct ResharderCoordinator {
    tracks: Vec<ShardTrack>,
}

impl View for ResharderCoordinator {
    type V = CoordinatorView;

    closed spec fn view(&self) -> CoordinatorView {
        CoordinatorView { tracks: tracks_view(self.tracks@) }
    }
}

impl ResharderCoordinator {
    /// The invariant of a coordinator. Every coordinator meets it.
    #[verifier::type_invariant]
    pub open spec fn wf(&self) -> bool {
        self@.wf()
    }

    /// The coordinator of a chain that starts under `layout`: every shard
    /// of the layout is stable.
    pub fn new(layout: &ShardLayout) -> (coordinator: ResharderCoordinator)
        ensures
            coordinator@.tracks == Seq::new(
                layout@.shards.len(),
                |i: int| ShardTrackView::stable(layout@.shards[i]),
            ),
    {
        let shards = layout.shard_uids();
        let mut tracks: Vec<ShardTrack> = Vec::new();
        let mut i: usize = 0;
        while i < shards.len()
            invariant
                i <= shards@.len(),
                tracks@.len() == i,
                forall|k: int|
                    0 <= k < i ==> track_view(#[trigger] tracks@[k]) == ShardTrackView::stable(
                        shards@[k],
                    ),
            decreases shards@.len() - i,
        {
            tracks.push(
                ShardTrack {
                    shard: shards[i],
                    state: ShardState::Stable,
                    plan: None,
                    activated_in: None,
                },
            );
            i += 1;
        }
        proof {
            use_type_invariant(layout);
            let expected = Seq::new(
                layout@.shards.len(),
                |i: int| ShardTrackView::stable(layout@.shards[i]),
            );
            assert(tracks_view(tracks@) =~= expected);
            assert forall|a: int, b: int| 0 <= a < b < expected.len() implies (
            #[trigger] expected[a]).shard != (#[trigger] expected[b]).shard by {
                assert(layout@.shards[a].shard_id != layout@.shards[b].shard_id);
            }
        }
        ResharderCoordinator { tracks }
    }

    /// The place of the entry of `shard`.
    fn find(&self, shard: ShardUId) -> (r: Option<usize>)
        ensures
            r is Some <==> self@.tracks_shard(shard),
            r matches Some(i) ==> i < self.tracks@.len() && i == self@.position(shard)
                && self.tracks@[i as int].shard == shard && track_view(self.tracks@[i as int])
                == self@.track_of(shard),
    {        proof {
            use_type_invariant(self);
        }

        let mut i: usize = 0;
        while i < self.tracks.len()
            invariant
                self.wf(),
                i <= self.tracks@.len(),
                forall|k: int| 0 <= k < i ==> (#[trigger] self@.tracks[k]).shard != shard,
            decreases self.tracks@.len() - i,
        {
            if self.tracks[i].shard == shard {
                proof {
                    assert(self@.tracks[i as int].shard == shard);
                    lemma_position(self@, i as int);
                }
                return Some(i);
            }
            i += 1;
        }
        None
    }

    /// The state of `shard`, if the coordinator has seen it.
    pub fn state_of(&self, shard: ShardUId) -> (r: Option<ShardState>)
        ensures
            r == self@.state_of(shard),
    {
        match self.find(shard) {
            Some(i) => Some(self.tracks[i].state),
            None => None,
        }
    }

    /// Whether `shard` may produce chunks. A shard may until its split
    /// takes effect; from then on its children may.
    pub fn accepts_chunk_production(&self, shard: ShardUId) -> (r: bool)
        ensures
            r == self@.accepts_chunk_production(shard),
    {
        match self.find(shard) {
            Some(i) => {
                let state = self.tracks[i].state;
                state == ShardState::Stable || state == ShardState::SplitPending
            },
            None => false,
        }
    }

    /// The shards that may produce chunks, in the order in which the
    /// coordinator first saw them.
    pub fn producing_shards(&self) -> (out: Vec<ShardUId>)
        ensures
            out@ == self@.producing(),
            forall|shard: ShardUId|
                out@.contains(shard) <==> self@.accepts_chunk_production(shard),
            out@.no_duplicates(),
    {        proof {
            use_type_invariant(self);
        }

        let mut out: Vec<ShardUId> = Vec::new();
        let mut i: usize = 0;
        while i < self.tracks.len()
            invariant
                self.wf(),
                i <= self.tracks@.len(),
                out@ == (CoordinatorView { tracks: self@.tracks.take(i as int) }).producing(),
                forall|shard: ShardUId|
                    out@.contains(shard) <==> exists|k: int|
                        0 <= k < i && (#[trigger] self@.tracks[k]).shard == shard
                            && self@.tracks[k].accepts_chunks(),
                out@.no_duplicates(),
            decreases self.tracks@.len() - i,
        {
            let track = self.tracks[i];
            let ghost before = out@;
            proof {
                let prefix = self@.tracks.take(i + 1);
                assert(prefix.drop_last() =~= self@.tracks.take(i as int));
                assert(prefix.last() == self@.tracks[i as int]);
            }
            if track.state == ShardState::Stable || track.state == ShardState::SplitPending {
                proof {
                    if before.contains(track.shard) {
                        let k = choose|k: int|
                            0 <= k < i && (#[trigger] self@.tracks[k]).shard == track.shard
                                && self@.tracks[k].accepts_chunks();
                        assert(self@.tracks[k].shard != self@.tracks[i as int].shard);
                    }
                }
                out.push(track.shard);
                proof {
                    assert forall|shard: ShardUId| out@.contains(shard) implies exists|k: int|
                        0 <= k < i + 1 && (#[trigger] self@.tracks[k]).shard == shard
                            && self@.tracks[k].accepts_chunks() by {
                        let at = choose|at: int| 0 <= at < out@.len() && out@[at] == shard;
                        if at < before.len() {
                            assert(before[at] == shard);
                            assert(before.contains(shard));
                            let k = choose|k: int|
                                0 <= k < i && (#[trigger] self@.tracks[k]).shard == shard
                                    && self@.tracks[k].accepts_chunks();
                            assert(0 <= k < i + 1);
                        } else {
                            assert(self@.tracks[i as int].shard == shard);
                        }
                    }
                    assert forall|shard: ShardUId|
                        (exists|k: int|
                            0 <= k < i + 1 && (#[trigger] self@.tracks[k]).shard == shard
                                && self@.tracks[k].accepts_chunks()) implies out@.contains(shard) by {
                        let k = choose|k: int|
                            0 <= k < i + 1 && (#[trigger] self@.tracks[k]).shard == shard
                                && self@.tracks[k].accepts_chunks();
                        if k < i {
                            assert(before.contains(shard));
                            let at = choose|at: int| 0 <= at < before.len() && before[at] == shard;
                            assert(out@[at] == shard);
                        } else {
                            assert(out@[before.len() as int] == shard);
                        }
                    }
                }
            } else {
                proof {
                    assert forall|shard: ShardUId|
                        (exists|k: int|
                            0 <= k < i + 1 && (#[trigger] self@.tracks[k]).shard == shard
                                && self@.tracks[k].accepts_chunks()) implies out@.contains(shard) by {
                        let k = choose|k: int|
                            0 <= k < i + 1 && (#[trigger] self@.tracks[k]).shard == shard
                                && self@.tracks[k].accepts_chunks();
                        assert(k < i);
                    }
                }
            }
            i += 1;
        }
        proof {
            assert(self@.tracks.take(i as int) =~= self@.tracks);
            assert forall|shard: ShardUId| out@.contains(shard) implies self@.accepts_chunk_production(
                shard,
            ) by {
                let k = choose|k: int|
                    0 <= k < i && (#[trigger] self@.tracks[k]).shard == shard
                        && self@.tracks[k].accepts_chunks();
                lemma_position(self@, k);
            }
            assert forall|shard: ShardUId| self@.accepts_chunk_production(shard) implies out@.contains(
                shard,
            ) by {
                let k = self@.position(shard);
                assert(self@.tracks[k].shard == shard);
            }
        }
        out
    }

    /// Takes note of the end of an epoch. Where the next block starts an
    /// epoch whose layout is the current one with one shard split, the
    /// shard that is split becomes pending, and the split is returned.
    /// Where the next block starts no epoch, or the layout stays, nothing
    /// changes. Any other change of layout is refused.
    pub fn observe_epoch_end(
        &mut self,
        is_next_block_epoch_start: bool,
        current: &EpochConfig,
        next: &EpochConfig,
    ) -> (r: Result<Option<SplitPlan>, ConfigError>)
        ensures
            r == if is_next_block_epoch_start {
                spec_next_layout(current@.shard_layout, next@.shard_layout)
            } else {
                Ok(None)
            },
            final(self)@ == match r {
                Ok(Some(plan)) => old(self)@.observe(plan),
                _ => old(self)@,
            },
    {        proof {
            use_type_invariant(&*self);
        }

        if !is_next_block_epoch_start {
            return Ok(None);
        }
        let r = next_layout(current, next);
        match r {
            Ok(Some(plan)) => {
                match self.find(plan.parent) {
                    Some(i) => {
                        if self.tracks[i].state == ShardState::Stable && plan.parent.version
                            < plan.left.version && plan.parent.version < plan.right.version
                            && plan.left != plan.right {
                            let ghost before = self@;
                            let track = ShardTrack {
                                shard: plan.parent,
                                state: ShardState::SplitPending,
                                plan: Some(plan),
                                activated_in: None,
                            };
                            let mut tracks: Vec<ShardTrack> = Vec::new();
                            core::mem::swap(&mut self.tracks, &mut tracks);
                            tracks.set(i, track);
                            proof {
                                assert(tracks_view(tracks@) =~= before.observe(plan).tracks);
                                lemma_update_wf(before, i as int, track_view(track));
                            }
                            core::mem::swap(&mut self.tracks, &mut tracks);
                        }
                    },
                    None => {},
                }
            },
            _ => {},
        }
        r
    }

    /// Activates the pending split of `parent` at the first block of the
    /// epoch `epoch_id` of the canonical chain. The children are registered
    /// in the store under the parent, without copying a record, and start
    /// as stable shards; the parent produces no more chunks.
    ///
    /// A second activation in the same epoch changes nothing and returns
    /// `false`. An activation in another epoch, or one whose children are
    /// known already, is refused, as is one of a shard with no split due.
    pub fn activate(&mut self, store: &mut ShardedTrieStore, epoch_id: &EpochId, parent: ShardUId) -> (r:
        Result<bool, ActivationError>)
        ensures
            r == old(self)@.activation_outcome(old(store)@, epoch_id@, parent),
            final(self)@ == old(self)@.activate(old(store)@, epoch_id@, parent).0,
            final(store)@ == old(self)@.activate(old(store)@, epoch_id@, parent).1,
    {        proof {
            use_type_invariant(&*self);
        }

        let ghost before = self@;
        let i = match self.find(parent) {
            Some(i) => i,
            None => {
                return Err(ActivationError::NotDerived);
            },
        };
        let track = self.tracks[i];
        assert(track_view(track) == before.track_of(parent));
        assert(before.tracks[i as int].wf());
        match track.state {
            ShardState::Stable => Err(ActivationError::NotDerived),
            ShardState::SplitPending => {
                let plan = match track.plan {
                    Some(plan) => plan,
                    None => {
                        return Err(ActivationError::NotDerived);
                    },
                };
                if self.find(plan.left).is_some() || self.find(plan.right).is_some() {
                    return Err(ActivationError::DoubleActivation);
                }
                match store.register_children(parent, plan.left, plan.right) {
                    Ok(()) => {},
                    Err(_) => {
                        return Err(ActivationError::DoubleActivation);
                    },
                }
                let mut tracks: Vec<ShardTrack> = Vec::new();
                core::mem::swap(&mut self.tracks, &mut tracks);
                tracks.set(
                    i,
                    ShardTrack {
                        shard: parent,
                        state: ShardState::SplitActive,
                        plan: Some(plan),
                        activated_in: Some(*epoch_id),
                    },
                );
                tracks.push(
                    ShardTrack {
                        shard: plan.left,
                        state: ShardState::Stable,
                        plan: None,
                        activated_in: None,
                    },
                );
                tracks.push(
                    ShardTrack {
                        shard: plan.right,
                        state: ShardState::Stable,
                        plan: None,
                        activated_in: None,
                    },
                );
                proof {
                    let expected = before.activate(old(store)@, epoch_id@, parent);
                    assert(tracks_view(tracks@) =~= expected.0.tracks);
                    lemma_activation_idempotent(before, old(store)@, epoch_id@, parent);
                }
                core::mem::swap(&mut self.tracks, &mut tracks);
                Ok(true)
            },
            _ => {
                match track.activated_in {
                    Some(epoch) => {
                        if epoch.same(epoch_id) {
                            Ok(false)
                        } else {
                            Err(ActivationError::DoubleActivation)
                        }
                    },
                    None => Err(ActivationError::DoubleActivation),
                }
            },
        }
    }

    /// Records that the children of `parent` no longer read its records:
    /// an active split becomes migrated. Returns whether it did.
    pub fn complete_migration(&mut self, parent: ShardUId) -> (r: bool)
        ensures
            r == (old(self)@.state_of(parent) == Some(ShardState::SplitActive)),
            final(self)@ == old(self)@.complete_migration(parent),
    {        proof {
            use_type_invariant(&*self);
        }

        let ghost before = self@;
        match self.find(parent) {
            Some(i) => {
                let track = self.tracks[i];
                if track.state == ShardState::SplitActive {
                    assert(before.tracks[i as int].wf());
                    let migrated = ShardTrack {
                        shard: track.shard,
                        state: ShardState::Migrated,
                        plan: track.plan,
                        activated_in: track.activated_in,
                    };
                    let mut tracks: Vec<ShardTrack> = Vec::new();
                    core::mem::swap(&mut self.tracks, &mut tracks);
                    tracks.set(i, migrated);
                    proof {
                        assert(tracks_view(tracks@) =~= before.complete_migration(parent).tracks);
                        lemma_update_wf(before, i as int, track_view(migrated));
                    }
                    core::mem::swap(&mut self.tracks, &mut tracks);
                    true
                } else {
                    false
                }
            },
            None => false,
        }
    }
}

/// Replacing the entry of a shard by another entry of the same shard keeps
/// the coordinator's invariant.
proof fn lemma_update_wf(coordinator: CoordinatorView, i: int, track: ShardTrackView)
    requires
        coordinator.wf(),
        0 <= i < coordinator.tracks.len(),
        track.wf(),
        track.shard == coordinator.tracks[i].shard,
    ensures
        (CoordinatorView { tracks: coordinator.tracks.update(i, track) }).wf(),
{
    let after = coordinator.tracks.update(i, track);
    assert forall|a: int, b: int| 0 <= a < b < after.len() implies (#[trigger] after[a]).shard != (
    #[trigger] after[b]).shard by {
        assert(coordinator.tracks[a].shard != coordinator.tracks[b].shard);
    }
    assert forall|k: int| 0 <= k < after.len() implies (#[trigger] after[k]).wf() by {
        if k != i {
            assert(coordinator.tracks[k].wf());
        }
    }
}

/// Activation is idempotent: activating the split of a shard a second time
/// in the same epoch changes neither the coordinator nor the store, adds no
/// child and counts no owner. The first activation itself leaves every
/// record and its owner count as they were.
pub proof fn lemma_activation_idempotent(
    coordinator: CoordinatorView,
    store: TrieStoreView,
    epoch: Seq<u8>,
    parent: ShardUId,
)
    requires
        coordinator.wf(),
    ensures
        ({
            let once = coordinator.activate(store, epoch, parent);
            &&& once.0.wf()
            &&& once.1.nodes == store.nodes
            &&& once.0.activate(once.1, epoch, parent) == once
            &&& coordinator.activation_outcome(store, epoch, parent) is Ok
                ==> once.0.activation_outcome(once.1, epoch, parent) == Ok::<bool, ActivationError>(
                false,
            )
        }),
{
    let once = coordinator.activate(store, epoch, parent);
    if coordinator.can_activate(store, parent) {
        let i = coordinator.position(parent);
        let plan = coordinator.track_of(parent).plan->0;
        let after = once.0.tracks;
        let n = coordinator.tracks.len() as int;
        assert(coordinator.tracks[i].wf());
        assert forall|k: int| 0 <= k < after.len() implies (#[trigger] after[k]).wf() by {
            if k < n && k != i {
                assert(coordinator.tracks[k].wf());
            }
        }
        assert forall|a: int, b: int| 0 <= a < b < after.len() implies (#[trigger] after[a]).shard != (
        #[trigger] after[b]).shard by {
            if b < n {
                assert(coordinator.tracks[a].shard != coordinator.tracks[b].shard);
            } else if a < n {
                assert(after[a].shard == coordinator.tracks[a].shard);
            }
        }
        assert(after[i].shard == parent);
        lemma_position(once.0, i);
    } else if coordinator.tracks_shard(parent) {
        let i = coordinator.position(parent);
        assert(coordinator.tracks[i].wf());
    }
}

/// How far a shard has come on its way from `Stable` to `Migrated`.
pub open spec fn progress(state: ShardState) -> int {
    match state {
        ShardState::Stable => 0,
        ShardState::SplitPending => 1,
        ShardState::SplitActive => 2,
        ShardState::Migrated => 3,
    }
}

/// Whether every shard known before is still known after, and none has
/// gone back on its way.
pub open spec fn advances(before: CoordinatorView, after: CoordinatorView) -> bool {
    forall|shard: ShardUId| #[trigger]
        before.tracks_shard(shard) ==> after.tracks_shard(shard) && progress(
            after.track_of(shard).state,
        ) >= progress(before.track_of(shard).state)
}

/// No transition takes a shard back: a split that is due stays due until it
/// takes effect, and one that took effect stays in effect.
pub proof fn lemma_transitions_advance(
    coordinator: CoordinatorView,
    store: TrieStoreView,
    epoch: Seq<u8>,
    plan: ShardSplit,
    parent: ShardUId,
)
    requires
        coordinator.wf(),
    ensures
        coordinator.observe(plan).wf(),
        coordinator.complete_migration(parent).wf(),
        advances(coordinator, coordinator.observe(plan)),
        advances(coordinator, coordinator.activate(store, epoch, parent).0),
        advances(coordinator, coordinator.complete_migration(parent)),
{
    let observed = coordinator.observe(plan);
    let activated = coordinator.activate(store, epoch, parent).0;
    let migrated = coordinator.complete_migration(parent);
    lemma_activation_idempotent(coordinator, store, epoch, parent);
    if coordinator.can_observe(plan) {
        let i = coordinator.position(plan.parent);
        lemma_update_wf(coordinator, i, observed.tracks[i]);
    }
    if coordinator.tracks_shard(parent) && coordinator.track_of(parent).state is SplitActive {
        let i = coordinator.position(parent);
        assert(coordinator.tracks[i].wf());
        lemma_update_wf(coordinator, i, migrated.tracks[i]);
    }
    assert forall|shard: ShardUId| #[trigger] coordinator.tracks_shard(shard) implies {
        &&& observed.tracks_shard(shard)
        &&& progress(observed.track_of(shard).state) >= progress(coordinator.track_of(shard).state)
        &&& activated.tracks_shard(shard)
        &&& progress(activated.track_of(shard).state) >= progress(
            coordinator.track_of(shard).state,
        )
        &&& migrated.tracks_shard(shard)
        &&& progress(migrated.track_of(shard).state) >= progress(coordinator.track_of(shard).state)
    } by {
        let k = coordinator.position(shard);
        assert(observed.tracks[k].shard == shard);
        assert(activated.tracks[k].shard == shard);
        assert(migrated.tracks[k].shard == shard);
        lemma_position(observed, k);
        lemma_position(activated, k);
        lemma_position(migrated, k);
    }
}

/// A split that has taken effect hands chunk production from the parent to
/// its two children.
pub proof fn lemma_activation_hands_over(
    coordinator: CoordinatorView,
    store: TrieStoreView,
    epoch: Seq<u8>,
    parent: ShardUId,
)
    requires
        coordinator.wf(),
        coordinator.can_activate(store, parent),
    ensures
        ({
            let once = coordinator.activate(store, epoch, parent);
            let plan = coordinator.track_of(parent).plan->0;
            &&& once.0.state_of(parent) == Some(ShardState::SplitActive)
            &&& !once.0.accepts_chunk_production(parent)
            &&& once.0.accepts_chunk_production(plan.left)
            &&& once.0.accepts_chunk_production(plan.right)
            &&& once.1.parents.contains_key(plan.left) && once.1.parents[plan.left] == parent
            &&& once.1.parents.contains_key(plan.right) && once.1.parents[plan.right] == parent
            &&& once.0.tracks.len() == coordinator.tracks.len() + 2
        }),
{
    let once = coordinator.activate(store, epoch, parent);
    let i = coordinator.position(parent);
    let n = coordinator.tracks.len() as int;
    lemma_activation_idempotent(coordinator, store, epoch, parent);
    assert(once.0.tracks[i].shard == parent);
    lemma_position(once.0, i);
    lemma_position(once.0, n);
    lemma_position(once.0, n + 1);
}

/// At the moment a split takes effect, every node reads under both
/// children as it read under the parent before, unless the child holds a
/// record of its own for it; and it still reads so under the parent.
pub proof fn lemma_activation_shares_parent_reads(
    coordinator: CoordinatorView,
    store: TrieStoreView,
    epoch: Seq<u8>,
    parent: ShardUId,
    hash: Seq<u8>,
)
    requires
        coordinator.wf(),
        store.wf(),
        coordinator.can_activate(store, parent),
    ensures
        ({
            let after = coordinator.activate(store, epoch, parent).1;
            let plan = coordinator.track_of(parent).plan->0;
            &&& after.lookup(parent, hash) == store.lookup(parent, hash)
            &&& !store.holds(plan.left, hash) ==> after.lookup(plan.left, hash) == store.lookup(
                parent,
                hash,
            )
            &&& !store.holds(plan.right, hash) ==> after.lookup(plan.right, hash) == store.lookup(
                parent,
                hash,
            )
        }),
{
    let i = coordinator.position(parent);
    let plan = coordinator.track_of(parent).plan->0;
    assert(coordinator.tracks[i].wf());
    lemma_split_keeps_reads(store, parent, plan.left, plan.right, parent, hash);
}

} // verus!
