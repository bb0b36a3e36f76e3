//! Shard layouts: how the space of account identifiers is cut into shards,
//! and how a layout is derived from another by splitting one shard.
//!
//! A layout with boundaries `b[0] < b[1] < .. < b[n-1]` has `n + 1` shards.
//! Shard `i` holds the accounts from `b[i-1]` inclusive to `b[i]` exclusive;
//! the first shard has no lower bound and the last no upper bound.

use crate::account_id::{
    bytes_le, bytes_lt, lemma_lt_irreflexive, lemma_lt_total, lemma_lt_transitive, precedes_at,
    AccountId,
};
use crate::error::{ActivationError, ConfigError};
use crate::shard_uid::ShardUId;
use vstd::prelude::*;

verus! {

/// The split that produced a derived layout.
#[derive(Clone, Copy, Debug, PartialEq, Eq, Structural)]
pub struct ShardSplit {
    /// The shard of the earlier layout that was split.
    pub parent: ShardUId,
    /// The child that took the accounts below the new boundary.
    pub left: ShardUId,
    /// The child that took the accounts from the new boundary on.
    pub right: ShardUId,
}

/// What a layout is: its version, its boundaries as byte strings, the shard
/// of each range in order, and the split that produced it, if one did.
pub struct ShardLayoutView {
    pub version: u32,
    pub boundaries: Seq<Seq<u8>>,
    pub shards: Seq<ShardUId>,
    pub split: Option<ShardSplit>,
}

/// Whether `account` lies in the `i`-th range cut by `boundaries`.
pub open spec fn in_range(boundaries: Seq<Seq<u8>>, i: int, account: Seq<u8>) -> bool {
    &&& 0 <= i <= boundaries.len()
    &&& i > 0 ==> bytes_le(boundaries[i - 1], account)
    &&& i < boundaries.len() ==> bytes_lt(account, boundaries[i])
}

/// Whether each boundary is below every later one.
pub open spec fn strictly_increasing(boundaries: Seq<Seq<u8>>) -> bool {
    forall|i: int, j: int|
        0 <= i < j < boundaries.len() ==> bytes_lt(#[trigger] boundaries[i], #[trigger] boundaries[j])
}

/// The index of the range that holds `account`.
pub open spec fn shard_index(boundaries: Seq<Seq<u8>>, account: Seq<u8>) -> int {
    choose|i: int| in_range(boundaries, i, account)
}

/// The largest shard number among `shards`, or zero if there is none.
pub open spec fn max_shard_id(shards: Seq<ShardUId>) -> int
    decreases shards.len(),
{
    if shards.len() == 0 {
        0
    } else {
        let rest = max_shard_id(shards.drop_last());
        if shards.last().shard_id > rest {
            shards.last().shard_id as int
        } else {
            rest
        }
    }
}

/// The shards numbered `0, 1, .., count - 1` of one version.
pub open spec fn numbered_shards(version: u32, count: nat) -> Seq<ShardUId> {
    Seq::new(count, |i: int| ShardUId { version, shard_id: i as u32 })
}

impl ShardLayoutView {
    /// The invariant of a layout.
    pub open spec fn wf(self) -> bool {
        &&& strictly_increasing(self.boundaries)
        &&& forall|i: int| 0 <= i < self.boundaries.len() ==> (#[trigger] self.boundaries[i]).len() > 0
        &&& self.shards.len() == self.boundaries.len() + 1
        &&& forall|i: int, j: int|
            0 <= i < j < self.shards.len() ==> (#[trigger] self.shards[i]).shard_id != (
            #[trigger] self.shards[j]).shard_id
        &&& forall|i: int| 0 <= i < self.shards.len() ==> (#[trigger] self.shards[i]).version <= self.version
        &&& self.split matches Some(split) ==> {
            &&& split.parent.version < self.version
            &&& split.left.version == self.version
            &&& split.right.version == self.version
            &&& exists|p: int|
                0 <= p < self.boundaries.len() && #[trigger] self.shards[p] == split.left
                    && self.shards[p + 1] == split.right
            &&& forall|i: int| 0 <= i < self.shards.len() ==> #[trigger] self.shards[i] != split.parent
        }
    }

    /// The shard that holds `account`.
    pub open spec fn owner(self, account: Seq<u8>) -> ShardUId {
        self.shards[shard_index(self.boundaries, account)]
    }

    /// Whether `shard` is one of the layout's shards.
    pub open spec fn has_shard(self, shard: ShardUId) -> bool {
        self.shards.contains(shard)
    }
}

/// Whether `account` lies in the interior of the `i`-th range: in the range
/// and above its lower bound. The first range is bounded below by the empty
/// identifier, which is below every other.
pub open spec fn in_interior(boundaries: Seq<Seq<u8>>, i: int, account: Seq<u8>) -> bool {
    &&& in_range(boundaries, i, account)
    &&& if i > 0 {
        account != boundaries[i - 1]
    } else {
        account.len() > 0
    }
}

impl ShardLayoutView {
    /// Whether a new boundary at `account` would split one of the layout's
    /// shards into two ranges that both hold accounts.
    pub open spec fn splits_a_shard(self, account: Seq<u8>) -> bool {
        in_interior(self.boundaries, shard_index(self.boundaries, account), account)
    }

    /// Whether a version and two shard numbers are left for a derived layout.
    pub open spec fn has_room(self) -> bool {
        self.version < u32::MAX && max_shard_id(self.shards) + 2 <= u32::MAX
    }

    /// The layout derived by adding the boundary `account`. The shard that
    /// holds `account` gives way to two children, numbered after the largest
    /// shard number in use and carrying the new version; every other shard
    /// keeps its identifier and its range.
    pub open spec fn derive_split(self, account: Seq<u8>) -> ShardLayoutView {
        let p = shard_index(self.boundaries, account);
        let m = max_shard_id(self.shards);
        let version = (self.version + 1) as u32;
        let left = ShardUId { version, shard_id: (m + 1) as u32 };
        let right = ShardUId { version, shard_id: (m + 2) as u32 };
        ShardLayoutView {
            version,
            boundaries: self.boundaries.insert(p, account),
            shards: self.shards.update(p, left).insert(p + 1, right),
            split: Some(ShardSplit { parent: self.shards[p], left, right }),
        }
    }

    /// Whether this layout is `earlier` with one shard split in two.
    pub open spec fn is_split_of(self, earlier: ShardLayoutView) -> bool {
        exists|account: Seq<u8>| self.is_split_at(earlier, account)
    }

    /// Whether this layout is `earlier` with a new boundary at `account`.
    pub open spec fn is_split_at(self, earlier: ShardLayoutView, account: Seq<u8>) -> bool {
        &&& earlier.splits_a_shard(account)
        &&& earlier.has_room()
        &&& self == earlier.derive_split(account)
    }
}

/// An account that is not below the boundary before `k` lies in a range
/// from the `k`-th on.
proof fn lemma_scan(boundaries: Seq<Seq<u8>>, account: Seq<u8>, k: int)
    requires
        0 <= k <= boundaries.len(),
        k > 0 ==> bytes_le(boundaries[k - 1], account),
    ensures
        exists|i: int| in_range(boundaries, i, account),
    decreases boundaries.len() - k,
{
    if k == boundaries.len() {
        assert(in_range(boundaries, k, account));
    } else if bytes_lt(account, boundaries[k]) {
        assert(in_range(boundaries, k, account));
    } else {
        lemma_scan(boundaries, account, k + 1);
    }
}

/// Every account lies in some range.
pub proof fn lemma_range_exists(boundaries: Seq<Seq<u8>>, account: Seq<u8>)
    ensures
        in_range(boundaries, shard_index(boundaries, account), account),
{
    lemma_scan(boundaries, account, 0);
}

/// No account lies in two ranges.
pub proof fn lemma_range_unique(boundaries: Seq<Seq<u8>>, i: int, j: int, account: Seq<u8>)
    requires
        strictly_increasing(boundaries),
        in_range(boundaries, i, account),
        in_range(boundaries, j, account),
    ensures
        i == j,
{
    if i < j {
        if i < j - 1 {
            lemma_lt_transitive(account, boundaries[i], boundaries[j - 1]);
        }
    } else if j < i {
        if j < i - 1 {
            lemma_lt_transitive(account, boundaries[j], boundaries[i - 1]);
        }
    }
}

/// The range that holds an account is the one `shard_index` names.
pub proof fn lemma_shard_index(boundaries: Seq<Seq<u8>>, i: int, account: Seq<u8>)
    requires
        strictly_increasing(boundaries),
        in_range(boundaries, i, account),
    ensures
        shard_index(boundaries, account) == i,
{
    lemma_range_unique(boundaries, i, shard_index(boundaries, account), account);
}

/// Every shard's number is at most the largest.
pub proof fn lemma_max_shard_id(shards: Seq<ShardUId>, i: int)
    requires
        0 <= i < shards.len(),
    ensures
        shards[i].shard_id <= max_shard_id(shards),
        0 <= max_shard_id(shards) <= u32::MAX,
    decreases shards.len(),
{
    if shards.len() == 1 {
        assert(max_shard_id(shards.drop_last()) == 0);
    } else if i < shards.len() - 1 {
        lemma_max_shard_id(shards.drop_last(), i);
    } else {
        lemma_max_shard_id(shards.drop_last(), 0);
    }
}

/// The byte strings that a sequence of account identifiers spells.
pub open spec fn account_views(ids: Seq<AccountId>) -> Seq<Seq<u8>> {
    Seq::new(ids.len(), |i: int| ids[i]@)
}

/// A shard layout.
#[derive(Debug, PartialEq, Eq)]
pub struct ShardLayout {
    version: u32,
    boundary_accounts: Vec<AccountId>,
    shards: Vec<ShardUId>,
    split: Option<ShardSplit>,
}

impl View for ShardLayout {
    type V = ShardLayoutView;

    closed spec fn view(&self) -> ShardLayoutView {
        ShardLayoutView {
            version: self.version,
            boundaries: account_views(self.boundary_accounts@),
            shards: self.shards@,
            split: self.split,
        }
    }
}

impl Clone for ShardLayout {
    fn clone(&self) -> (layout: ShardLayout)
        ensures
            layout@ == self@,
    {
        self.duplicate()
    }
}

/// Whether `ids` can bound a layout's shards: none is empty, each is below
/// the next, and their ranges can be numbered.
pub open spec fn valid_boundaries(ids: Seq<Seq<u8>>) -> bool {
    &&& strictly_increasing(ids)
    &&& forall|i: int| 0 <= i < ids.len() ==> (#[trigger] ids[i]).len() > 0
    &&& ids.len() < u32::MAX
}

impl ShardLayout {
    /// The invariant of a layout. Every layout meets it.
    #[verifier::type_invariant]
    pub open spec fn wf(&self) -> bool {
        self@.wf()
    }

    /// The layout with the given boundaries, whose shards are numbered from
    /// zero in the order of their ranges.
    pub fn new(boundary_accounts: Vec<AccountId>, version: u32) -> (r: Result<ShardLayout, ConfigError>)
        ensures
            r is Ok <==> valid_boundaries(account_views(boundary_accounts@)),
            r matches Ok(layout) ==> {
                &&& layout.wf()
                &&& layout@.version == version
                &&& layout@.boundaries == account_views(boundary_accounts@)
                &&& layout@.shards == numbered_shards(version, boundary_accounts@.len() + 1)
                &&& layout@.split is None
            },
            r matches Err(e) ==> e == ConfigError::InvalidBoundary,
    {
        let n = boundary_accounts.len();
        let ghost ids = account_views(boundary_accounts@);
        if n >= u32::MAX as usize {
            return Err(ConfigError::InvalidBoundary);
        }
        let mut i: usize = 0;
        while i < n
            invariant
                i <= n,
                n == boundary_accounts@.len(),
                ids == account_views(boundary_accounts@),
                forall|k: int| 0 <= k < i ==> (#[trigger] ids[k]).len() > 0,
                forall|k: int| 0 < k < i ==> bytes_lt(ids[k - 1], #[trigger] ids[k]),
            decreases n - i,
        {
            if boundary_accounts[i].is_empty() {
                assert(ids[i as int].len() == 0);
                return Err(ConfigError::InvalidBoundary);
            }
            if i > 0 && !boundary_accounts[i - 1].lt(&boundary_accounts[i]) {
                assert(!bytes_lt(ids[i - 1], ids[i as int]));
                return Err(ConfigError::InvalidBoundary);
            }
            i += 1;
        }
        proof {
            lemma_adjacent_increasing(ids);
        }
        let mut shards: Vec<ShardUId> = Vec::new();
        let mut k: u32 = 0;
        while (k as usize) <= n
            invariant
                n < u32::MAX,
                k <= n + 1,
                shards@ == numbered_shards(version, k as nat),
            decreases n + 1 - k,
        {
            shards.push(ShardUId { version, shard_id: k });
            assert(shards@ =~= numbered_shards(version, (k + 1) as nat));
            k += 1;
        }
        proof {
            let view = ShardLayoutView {
                version,
                boundaries: account_views(boundary_accounts@),
                shards: shards@,
                split: None,
            };
            assert(view.shards == numbered_shards(version, (n + 1) as nat));
            assert(view.wf());
        }
        Ok(ShardLayout { version, boundary_accounts, shards, split: None })
    }

    /// The layout's version.
    pub fn version(&self) -> (v: u32)
        ensures
            v == self@.version,
    {
        self.version
    }

    /// How many shards the layout has.
    pub fn num_shards(&self) -> (n: usize)
        ensures
            n == self@.shards.len(),
    {
        self.shards.len()
    }

    /// The layout's shards, in the order of their ranges.
    pub fn shard_uids(&self) -> (uids: Vec<ShardUId>)
        ensures
            uids@ == self@.shards,
    {
        self.shards.clone()
    }

    /// The numbers of the layout's shards, in the order of their ranges.
    pub fn shard_ids(&self) -> (ids: Vec<u32>)
        ensures
            ids@.len() == self@.shards.len(),
            forall|i: int| 0 <= i < ids@.len() ==> ids@[i] == self@.shards[i].shard_id,
    {
        let mut ids: Vec<u32> = Vec::new();
        let mut i: usize = 0;
        while i < self.shards.len()
            invariant
                i <= self.shards@.len(),
                ids@.len() == i,
                forall|k: int| 0 <= k < i ==> ids@[k] == self.shards@[k].shard_id,
            decreases self.shards@.len() - i,
        {
            ids.push(self.shards[i].shard_id);
            i += 1;
        }
        ids
    }

    /// The layout's boundaries, in increasing order.
    pub fn boundary_accounts(&self) -> (ids: &Vec<AccountId>)
        ensures
            account_views(ids@) == self@.boundaries,
    {
        &self.boundary_accounts
    }

    /// The split that produced the layout, if one did.
    pub fn split(&self) -> (s: Option<ShardSplit>)
        ensures
            s == self@.split,
    {
        self.split
    }

    /// The index of the range that holds `account`.
    pub fn shard_index_of(&self, account: &AccountId) -> (i: usize)
        ensures
            i == shard_index(self@.boundaries, account@),
            in_range(self@.boundaries, i as int, account@),
            i < self@.shards.len(),
    {
        proof {
            use_type_invariant(self);
        }
        let ghost bs = self@.boundaries;
        let mut lo: usize = 0;
        let mut hi: usize = self.boundary_accounts.len();
        while lo < hi
            invariant
                self.wf(),
                bs == self@.boundaries,
                lo <= hi <= bs.len(),
                lo > 0 ==> bytes_le(bs[lo - 1], account@),
                hi < bs.len() ==> bytes_lt(account@, bs[hi as int]),
            decreases hi - lo,
        {
            let mid = lo + (hi - lo) / 2;
            if account.lt(&self.boundary_accounts[mid]) {
                hi = mid;
            } else {
                lo = mid + 1;
            }
        }
        proof {
            lemma_shard_index(bs, lo as int, account@);
        }
        lo
    }

    /// The shard that holds `account`.
    pub fn shard_for(&self, account: &AccountId) -> (uid: ShardUId)
        ensures
            uid == self@.owner(account@),
            self@.has_shard(uid),
    {
        let i = self.shard_index_of(account);
        self.shards[i]
    }

    /// The largest shard number in use.
    fn largest_shard_id(&self) -> (m: u32)
        ensures
            m == max_shard_id(self@.shards),
    {
        let mut m: u32 = 0;
        let mut i: usize = 0;
        while i < self.shards.len()
            invariant
                i <= self.shards@.len(),
                m == max_shard_id(self.shards@.take(i as int)),
            decreases self.shards@.len() - i,
        {
            assert(self.shards@.take(i + 1).drop_last() =~= self.shards@.take(i as int));
            if self.shards[i].shard_id > m {
                m = self.shards[i].shard_id;
            }
            i += 1;
        }
        assert(self.shards@.take(i as int) =~= self.shards@);
        m
    }

    /// A copy of the layout.
    pub fn duplicate(&self) -> (layout: ShardLayout)
        ensures
            layout@ == self@,
    {
        let boundary_accounts = duplicate_accounts(&self.boundary_accounts);
        let shards = self.shards.clone();
        proof {
            use_type_invariant(self);
            assert(shards@ =~= self.shards@);
        }
        ShardLayout { version: self.version, boundary_accounts, shards, split: self.split }
    }

    /// Whether two layouts are the same layout.
    pub fn same(&self, other: &ShardLayout) -> (r: bool)
        ensures
            r == (self@ == other@),
    {
        if self.version != other.version {
            return false;
        }
        let same_split = match (self.split, other.split) {
            (None, None) => true,
            (Some(a), Some(b)) => a == b,
            _ => false,
        };
        if !same_split {
            return false;
        }
        if self.shards.len() != other.shards.len() {
            return false;
        }
        if self.boundary_accounts.len() != other.boundary_accounts.len() {
            assert(self@.boundaries.len() != other@.boundaries.len());
            return false;
        }
        let mut i: usize = 0;
        while i < self.shards.len()
            invariant
                i <= self.shards@.len(),
                self.shards@.len() == other.shards@.len(),
                forall|k: int| 0 <= k < i ==> self.shards@[k] == other.shards@[k],
            decreases self.shards@.len() - i,
        {
            if self.shards[i] != other.shards[i] {
                return false;
            }
            i += 1;
        }
        let mut j: usize = 0;
        while j < self.boundary_accounts.len()
            invariant
                j <= self.boundary_accounts@.len(),
                self.boundary_accounts@.len() == other.boundary_accounts@.len(),
                forall|k: int| 0 <= k < j ==> self@.boundaries[k] == other@.boundaries[k],
            decreases self.boundary_accounts@.len() - j,
        {
            if !self.boundary_accounts[j].same(&other.boundary_accounts[j]) {
                assert(self@.boundaries[j as int] != other@.boundaries[j as int]);
                return false;
            }
            j += 1;
        }
        assert(self@.shards =~= other@.shards);
        assert(self@.boundaries =~= other@.boundaries);
        true
    }

    /// Derives the layout that has `boundary_account` as one more boundary.
    ///
    /// The boundary must lie in the interior of a shard, which is then split
    /// in two; it may not be a boundary already. A layout whose version or
    /// shard numbers are used up cannot be split.
    pub fn derive_split(&self, boundary_account: AccountId) -> (r: Result<ShardLayout, ConfigError>)
        ensures
            r is Ok <==> self@.splits_a_shard(boundary_account@) && self@.has_room(),
            r matches Ok(layout) ==> layout.wf() && layout@ == self@.derive_split(boundary_account@),
            r matches Err(e) ==> {
                &&& e == ConfigError::InvalidBoundary <==> !self@.splits_a_shard(boundary_account@)
                &&& e == ConfigError::UnsupportedSplit <==> self@.splits_a_shard(boundary_account@)
            },
    {
        proof {
            use_type_invariant(self);
        }
        let p = self.shard_index_of(&boundary_account);
        if p == 0 {
            if boundary_account.is_empty() {
                return Err(ConfigError::InvalidBoundary);
            }
        } else if self.boundary_accounts[p - 1].same(&boundary_account) {
            return Err(ConfigError::InvalidBoundary);
        }
        if self.version == u32::MAX {
            return Err(ConfigError::UnsupportedSplit);
        }
        let m = self.largest_shard_id();
        if m > u32::MAX - 2 {
            return Err(ConfigError::UnsupportedSplit);
        }
        let version = self.version + 1;
        let left = ShardUId { version, shard_id: m + 1 };
        let right = ShardUId { version, shard_id: m + 2 };
        let parent = self.shards[p];
        let ghost account = boundary_account@;
        let mut boundary_accounts = duplicate_accounts(&self.boundary_accounts);
        boundary_accounts.insert(p, boundary_account);
        let mut shards = self.shards.clone();
        shards.set(p, left);
        shards.insert(p + 1, right);
        proof {
            let derived = self@.derive_split(account);
            assert(account_views(boundary_accounts@) =~= derived.boundaries);
            assert(shards@ =~= derived.shards);
            lemma_derive_split_wf(self@, account);
        }
        Ok(ShardLayout { version, boundary_accounts, shards, split: Some(ShardSplit { parent, left, right }) })
    }

    /// The split that leads from `earlier` to this layout, if this layout is
    /// `earlier` with one shard split in two.
    pub fn split_from(&self, earlier: &ShardLayout) -> (r: Option<ShardSplit>)
        ensures
            r is Some <==> self@.is_split_of(earlier@),
            r matches Some(split) ==> self@.split == Some(split),
    {
        proof {
            use_type_invariant(self);
            use_type_invariant(earlier);
        }
        let n = earlier.boundary_accounts.len();
        if self.boundary_accounts.len() == 0 || self.boundary_accounts.len() - 1 != n {
            proof {
                if self@.is_split_of(earlier@) {
                    lemma_split_adds_boundary(self@, earlier@);
                }
            }
            return None;
        }
        let mut p: usize = 0;
        while p < n && earlier.boundary_accounts[p].same(&self.boundary_accounts[p])
            invariant
                p <= n,
                n == earlier.boundary_accounts@.len(),
                self.boundary_accounts@.len() == n + 1,
                forall|k: int| 0 <= k < p ==> earlier@.boundaries[k] == self@.boundaries[k],
            decreases n - p,
        {
            p += 1;
        }
        let candidate = self.boundary_accounts[p].duplicate();
        proof {
            if self@.is_split_of(earlier@) {
                lemma_split_adds_boundary(self@, earlier@);
                let account = choose|account: Seq<u8>| self@.is_split_at(earlier@, account);
                let q = shard_index(earlier@.boundaries, account);
                lemma_range_exists(earlier@.boundaries, account);
                lemma_lt_irreflexive(account);
                let inserted = earlier@.boundaries.insert(q, account);
                assert(self@.boundaries == inserted);
                assert(inserted[q] == account);
                if p < q {
                    assert(inserted[p as int] == earlier@.boundaries[p as int]);
                    assert(false);
                } else if q < p {
                    assert(earlier@.boundaries[q] == self@.boundaries[q]);
                    assert(bytes_lt(account, earlier@.boundaries[q]));
                    assert(false);
                }
                assert(candidate@ == self@.boundaries[p as int]);
                assert(candidate@ == account);
            }
        }
        match earlier.derive_split(candidate) {
            Ok(derived) => {
                if derived.same(self) {
                    assert(self@.is_split_at(earlier@, candidate@));
                    self.split
                } else {
                    None
                }
            },
            Err(_) => None,
        }
    }

    /// The two children into which `parent` was split to give this layout.
    pub fn children_of(&self, parent: ShardUId) -> (r: Result<(ShardUId, ShardUId), ActivationError>)
        ensures
            r is Ok <==> (self@.split matches Some(split) && split.parent == parent),
            r matches Ok(children) ==> self@.split matches Some(split) && children == (
                split.left,
                split.right,
            ),
            r matches Err(e) ==> e == ActivationError::NotDerived,
    {
        match self.split {
            Some(split) => {
                if split.parent == parent {
                    Ok((split.left, split.right))
                } else {
                    Err(ActivationError::NotDerived)
                }
            },
            None => Err(ActivationError::NotDerived),
        }
    }

    /// The shard from which `child` was split off to give this layout.
    pub fn parent_of(&self, child: ShardUId) -> (r: Option<ShardUId>)
        ensures
            r is Some <==> (self@.split matches Some(split) && (child == split.left || child
                == split.right)),
            r matches Some(parent) ==> self@.split matches Some(split) && parent == split.parent,
    {
        match self.split {
            Some(split) => {
                if split.left == child || split.right == child {
                    Some(split.parent)
                } else {
                    None
                }
            },
            None => None,
        }
    }
}

/// Copies a list of account identifiers.
pub fn duplicate_accounts(ids: &Vec<AccountId>) -> (out: Vec<AccountId>)
    ensures
        account_views(out@) == account_views(ids@),
{
    let mut out: Vec<AccountId> = Vec::new();
    let mut i: usize = 0;
    while i < ids.len()
        invariant
            i <= ids@.len(),
            out@.len() == i,
            forall|k: int| 0 <= k < i ==> out@[k]@ == ids@[k]@,
        decreases ids@.len() - i,
    {
        out.push(ids[i].duplicate());
        i += 1;
    }
    assert(account_views(out@) =~= account_views(ids@));
    out
}

/// A layout derived by a permitted split is a layout.
pub proof fn lemma_derive_split_wf(layout: ShardLayoutView, account: Seq<u8>)
    requires
        layout.wf(),
        layout.splits_a_shard(account),
        layout.has_room(),
    ensures
        layout.derive_split(account).wf(),
{
    let bs = layout.boundaries;
    let p = shard_index(bs, account);
    let derived = layout.derive_split(account);
    let nb = derived.boundaries;
    let ns = derived.shards;
    let m = max_shard_id(layout.shards);
    if p > 0 {
        lemma_lt_total(bs[p - 1], account);
    }
    assert forall|i: int, j: int| 0 <= i < j < nb.len() implies bytes_lt(
        #[trigger] nb[i],
        #[trigger] nb[j],
    ) by {
        if j < p {
            assert(bytes_lt(bs[i], bs[j]));
        } else if j == p {
            if i < p - 1 {
                assert(bytes_lt(bs[i], bs[p - 1]));
                lemma_lt_transitive(bs[i], bs[p - 1], account);
            }
        } else if i < p {
            assert(bytes_lt(bs[i], bs[j - 1]));
        } else if i == p {
            if p < j - 1 {
                assert(bytes_lt(bs[p], bs[j - 1]));
                lemma_lt_transitive(account, bs[p], bs[j - 1]);
            }
        } else {
            assert(bytes_lt(bs[i - 1], bs[j - 1]));
        }
    }
    assert forall|i: int| 0 <= i < nb.len() implies (#[trigger] nb[i]).len() > 0 by {
        if i < p {
            assert(bs[i].len() > 0);
        } else if i > p {
            assert(bs[i - 1].len() > 0);
        } else {
            if p > 0 {
                assert(bs[p - 1].len() > 0);
            }
        }
    }
    assert forall|i: int| 0 <= i < layout.shards.len() implies (
    #[trigger] layout.shards[i]).shard_id <= m by {
        lemma_max_shard_id(layout.shards, i);
    }
    lemma_max_shard_id(layout.shards, 0);
    assert(ns[p] == derived.split->0.left);
    assert(ns[p + 1] == derived.split->0.right);
    assert forall|i: int, j: int| 0 <= i < j < ns.len() implies (#[trigger] ns[i]).shard_id != (
    #[trigger] ns[j]).shard_id by {
        let oi = if i <= p { i } else { i - 1 };
        let oj = if j <= p { j } else { j - 1 };
        assert(layout.shards[oi].shard_id <= m);
        assert(layout.shards[oj].shard_id <= m);
        if i != p && i != p + 1 && j != p && j != p + 1 {
            assert(ns[i] == layout.shards[oi]);
            assert(ns[j] == layout.shards[oj]);
            assert(oi < oj);
        }
    }
    assert forall|i: int| 0 <= i < ns.len() implies #[trigger] ns[i] != layout.shards[p] by {
        let oi = if i <= p { i } else { i - 1 };
        assert(layout.shards[oi].shard_id <= m);
        assert(layout.shards[p].shard_id <= m);
        if i != p && i != p + 1 {
            assert(ns[i] == layout.shards[oi]);
            assert(oi != p);
            if oi < p {
                assert(layout.shards[oi].shard_id != layout.shards[p].shard_id);
            } else {
                assert(layout.shards[p].shard_id != layout.shards[oi].shard_id);
            }
        }
    }
    assert forall|i: int| 0 <= i < ns.len() implies (#[trigger] ns[i]).version
        <= derived.version by {
        let oi = if i <= p { i } else { i - 1 };
        assert(layout.shards[oi].version <= layout.version);
    }
    assert(layout.shards[p].version <= layout.version);
}

/// Boundaries of which each is below the next are strictly increasing.
pub proof fn lemma_adjacent_increasing(ids: Seq<Seq<u8>>)
    requires
        forall|k: int| 0 < k < ids.len() ==> bytes_lt(ids[k - 1], #[trigger] ids[k]),
    ensures
        strictly_increasing(ids),
{
    assert forall|i: int, j: int| 0 <= i < j < ids.len() implies bytes_lt(
        #[trigger] ids[i],
        #[trigger] ids[j],
    ) by {
        lemma_increasing_between(ids, i, j);
    }
}

/// Where each boundary is below the next, an earlier one is below a later
/// one.
proof fn lemma_increasing_between(ids: Seq<Seq<u8>>, i: int, j: int)
    requires
        forall|k: int| 0 < k < ids.len() ==> bytes_lt(ids[k - 1], #[trigger] ids[k]),
        0 <= i < j < ids.len(),
    ensures
        bytes_lt(ids[i], ids[j]),
    decreases j - i,
{
    if i + 1 < j {
        lemma_increasing_between(ids, i, j - 1);
        lemma_lt_transitive(ids[i], ids[j - 1], ids[j]);
    }
}


/// Under a layout every account belongs to exactly one shard: it lies in the
/// range that `shard_index` names and in no other, and the shard of that
/// range stands nowhere else in the layout.
pub proof fn lemma_owner_defined_and_unique(layout: ShardLayoutView, account: Seq<u8>)
    requires
        layout.wf(),
    ensures
        in_range(layout.boundaries, shard_index(layout.boundaries, account), account),
        forall|i: int|
            in_range(layout.boundaries, i, account) ==> i == shard_index(layout.boundaries, account),
        layout.has_shard(layout.owner(account)),
        forall|i: int|
            0 <= i < layout.shards.len() && layout.shards[i] == layout.owner(account) ==> i
                == shard_index(layout.boundaries, account),
{
    let p = shard_index(layout.boundaries, account);
    lemma_range_exists(layout.boundaries, account);
    assert forall|i: int| in_range(layout.boundaries, i, account) implies i == p by {
        lemma_range_unique(layout.boundaries, i, p, account);
    }
    assert(layout.shards[p] == layout.owner(account));
    assert forall|i: int|
        0 <= i < layout.shards.len() && layout.shards[i] == layout.owner(account) implies i
        == p by {
        if i < p {
            assert(layout.shards[i].shard_id != layout.shards[p].shard_id);
        } else if p < i {
            assert(layout.shards[p].shard_id != layout.shards[i].shard_id);
        }
    }
}

/// The two children of a split divide the parent's accounts between them.
///
/// An account belongs to the parent under the earlier layout exactly if it
/// belongs to one of the children under the derived layout: to the left
/// child if it is below the new boundary, to the right child otherwise, and
/// never to both. Every other account stays with the shard it had.
pub proof fn lemma_children_partition_parent(
    layout: ShardLayoutView,
    boundary: Seq<u8>,
    account: Seq<u8>,
)
    requires
        layout.wf(),
        layout.splits_a_shard(boundary),
        layout.has_room(),
    ensures
        ({
            let derived = layout.derive_split(boundary);
            let split = derived.split->0;
            &&& split.parent == layout.owner(boundary)
            &&& split.left != split.right
            &&& layout.owner(account) == split.parent <==> (derived.owner(account) == split.left
                || derived.owner(account) == split.right)
            &&& derived.owner(account) == split.left <==> (layout.owner(account) == split.parent
                && bytes_lt(account, boundary))
            &&& derived.owner(account) == split.right <==> (layout.owner(account) == split.parent
                && bytes_le(boundary, account))
            &&& layout.owner(account) != split.parent ==> derived.owner(account) == layout.owner(
                account,
            )
        }),
{
    let bs = layout.boundaries;
    let p = shard_index(bs, boundary);
    let q = shard_index(bs, account);
    let derived = layout.derive_split(boundary);
    let nb = derived.boundaries;
    let ns = derived.shards;
    let split = derived.split->0;
    lemma_derive_split_wf(layout, boundary);
    lemma_owner_defined_and_unique(layout, boundary);
    lemma_owner_defined_and_unique(layout, account);
    lemma_owner_defined_and_unique(derived, account);
    if p > 0 {
        lemma_lt_total(bs[p - 1], boundary);
    }
    let nq = if q < p {
        q
    } else if q > p {
        q + 1
    } else if bytes_lt(account, boundary) {
        p
    } else {
        p + 1
    };
    assert(in_range(nb, nq, account)) by {
        if q < p {
            assert(nb[q] == bs[q]);
            if q > 0 {
                assert(nb[q - 1] == bs[q - 1]);
            }
        } else if q > p {
            assert(nb[q] == bs[q - 1]);
            if q < bs.len() {
                assert(nb[q + 1] == bs[q]);
            }
        } else if bytes_lt(account, boundary) {
            assert(nb[p] == boundary);
            if p > 0 {
                assert(nb[p - 1] == bs[p - 1]);
            }
        } else {
            assert(nb[p] == boundary);
            if p < bs.len() {
                assert(nb[p + 1] == bs[p]);
            }
        }
    }
    assert(shard_index(nb, account) == nq);
    assert(ns[p] == split.left);
    assert(ns[p + 1] == split.right);
    assert(split.left.shard_id != split.right.shard_id);
    if q < p {
        assert(ns[nq] == layout.shards[q]);
    } else if q > p {
        assert(ns[nq] == layout.shards[q]);
    }
}

/// The children of a split carry identifiers that the earlier layout does
/// not use, and the derived layout no longer uses the parent's.
pub proof fn lemma_split_identifiers_are_new(layout: ShardLayoutView, boundary: Seq<u8>)
    requires
        layout.wf(),
        layout.splits_a_shard(boundary),
        layout.has_room(),
    ensures
        ({
            let derived = layout.derive_split(boundary);
            let split = derived.split->0;
            &&& layout.has_shard(split.parent)
            &&& !layout.has_shard(split.left)
            &&& !layout.has_shard(split.right)
            &&& !derived.has_shard(split.parent)
            &&& derived.has_shard(split.left)
            &&& derived.has_shard(split.right)
            &&& derived.shards.len() == layout.shards.len() + 1
        }),
{
    let p = shard_index(layout.boundaries, boundary);
    let derived = layout.derive_split(boundary);
    let split = derived.split->0;
    lemma_derive_split_wf(layout, boundary);
    lemma_range_exists(layout.boundaries, boundary);
    assert(layout.shards[p] == split.parent);
    assert(derived.shards[p] == split.left);
    assert(derived.shards[p + 1] == split.right);
}

/// A boundary can split a shard exactly if it is not the empty identifier
/// and not a boundary already.
pub proof fn lemma_splits_iff_new_boundary(layout: ShardLayoutView, boundary: Seq<u8>)
    requires
        layout.wf(),
    ensures
        layout.splits_a_shard(boundary) <==> boundary.len() > 0 && !layout.boundaries.contains(
            boundary,
        ),
{
    let bs = layout.boundaries;
    let p = shard_index(bs, boundary);
    lemma_range_exists(bs, boundary);
    lemma_lt_irreflexive(boundary);
    if bs.contains(boundary) {
        let k = choose|k: int| 0 <= k < bs.len() && bs[k] == boundary;
        assert(in_range(bs, k + 1, boundary)) by {
            if k + 1 < bs.len() {
                assert(bytes_lt(bs[k], bs[k + 1]));
            }
        }
        lemma_range_unique(bs, k + 1, p, boundary);
    } else if boundary.len() > 0 {
        if p > 0 {
            assert(bs[p - 1] != boundary);
        }
    } else {
        if p > 0 {
            assert(bs[p - 1].len() > 0);
            assert(precedes_at(boundary, bs[p - 1], 0));
        }
    }
}

/// A layout that is another with one shard split has one boundary more
/// than the other.
pub proof fn lemma_split_adds_boundary(layout: ShardLayoutView, earlier: ShardLayoutView)
    requires
        layout.is_split_of(earlier),
    ensures
        layout.boundaries.len() == earlier.boundaries.len() + 1,
        layout.split is Some,
{
    let account = choose|account: Seq<u8>| layout.is_split_at(earlier, account);
    lemma_range_exists(earlier.boundaries, account);
}

} // verus!
