//! Account identifiers and the order in which a shard layout ranks them.
//!
//! An account identifier is a string; its view is the sequence of its UTF-8
//! bytes, and identifiers are ordered as those byte sequences are ordered
//! lexicographically.

use vstd::prelude::*;
use vstd::string::StringSliceAdditionalSpecFns;
use vstd::utf8::encode_utf8;

verus! {

/// `k` marks the first place at which `a` falls below `b`: the two agree on
/// every earlier position, and there either `a` ends while `b` goes on, or
/// `a` holds the smaller byte.
pub open spec fn precedes_at(a: Seq<u8>, b: Seq<u8>, k: int) -> bool {
    &&& 0 <= k <= a.len()
    &&& k <= b.len()
    &&& forall|j: int| 0 <= j < k ==> a[j] == b[j]
    &&& if k == a.len() {
        k < b.len()
    } else {
        k < b.len() && a[k] < b[k]
    }
}

/// Strict lexicographic order on byte sequences.
pub open spec fn bytes_lt(a: Seq<u8>, b: Seq<u8>) -> bool {
    exists|k: int| precedes_at(a, b, k)
}

/// Non-strict lexicographic order on byte sequences.
pub open spec fn bytes_le(a: Seq<u8>, b: Seq<u8>) -> bool {
    !bytes_lt(b, a)
}

/// No byte sequence is below itself.
pub proof fn lemma_lt_irreflexive(a: Seq<u8>)
    ensures
        !bytes_lt(a, a),
{
}

/// The order is transitive.
pub proof fn lemma_lt_transitive(a: Seq<u8>, b: Seq<u8>, c: Seq<u8>)
    requires
        bytes_lt(a, b),
        bytes_lt(b, c),
    ensures
        bytes_lt(a, c),
{
    let k1 = choose|k: int| precedes_at(a, b, k);
    let k2 = choose|k: int| precedes_at(b, c, k);
    let k = if k1 <= k2 { k1 } else { k2 };
    assert(precedes_at(a, c, k));
}

/// No two byte sequences are each below the other.
pub proof fn lemma_lt_asymmetric(a: Seq<u8>, b: Seq<u8>)
    requires
        bytes_lt(a, b),
    ensures
        !bytes_lt(b, a),
{
    if bytes_lt(b, a) {
        lemma_lt_transitive(a, b, a);
        lemma_lt_irreflexive(a);
    }
}

/// Two byte sequences that agree before `i` are equal or one is below the
/// other.
proof fn lemma_total_from(a: Seq<u8>, b: Seq<u8>, i: int)
    requires
        0 <= i <= a.len(),
        i <= b.len(),
        forall|j: int| 0 <= j < i ==> a[j] == b[j],
    ensures
        bytes_lt(a, b) || bytes_lt(b, a) || a == b,
    decreases a.len() - i,
{
    if i == a.len() {
        if i == b.len() {
            assert(a =~= b);
        } else {
            assert(precedes_at(a, b, i));
        }
    } else if i == b.len() {
        assert(precedes_at(b, a, i));
    } else if a[i] < b[i] {
        assert(precedes_at(a, b, i));
    } else if b[i] < a[i] {
        assert(precedes_at(b, a, i));
    } else {
        lemma_total_from(a, b, i + 1);
    }
}

/// Of two different byte sequences one is below the other.
pub proof fn lemma_lt_total(a: Seq<u8>, b: Seq<u8>)
    ensures
        bytes_lt(a, b) || bytes_lt(b, a) || a == b,
{
    lemma_total_from(a, b, 0);
}

/// `a <= b < c` gives `a < c`.
pub proof fn lemma_le_lt_transitive(a: Seq<u8>, b: Seq<u8>, c: Seq<u8>)
    requires
        bytes_le(a, b),
        bytes_lt(b, c),
    ensures
        bytes_lt(a, c),
{
    lemma_lt_total(a, b);
    if bytes_lt(a, b) {
        lemma_lt_transitive(a, b, c);
    }
}

/// `a < b <= c` gives `a < c`.
pub proof fn lemma_lt_le_transitive(a: Seq<u8>, b: Seq<u8>, c: Seq<u8>)
    requires
        bytes_lt(a, b),
        bytes_le(b, c),
    ensures
        bytes_lt(a, c),
{
    lemma_lt_total(b, c);
    if bytes_lt(b, c) {
        lemma_lt_transitive(a, b, c);
    }
}

/// Outcome of comparing two byte sequences.
#[derive(Clone, Copy, Debug, PartialEq, Eq, Structural)]
pub enum Comparison {
    Less,
    Equal,
    Greater,
}

/// Compares two byte strings lexicographically.
pub fn compare_bytes(a: &[u8], b: &[u8]) -> (r: Comparison)
    ensures
        r == Comparison::Less <==> bytes_lt(a@, b@),
        r == Comparison::Equal <==> a@ == b@,
        r == Comparison::Greater <==> bytes_lt(b@, a@),
{
    let mut i: usize = 0;
    let mut r = Comparison::Equal;
    loop
        invariant_except_break
            i <= a@.len(),
            i <= b@.len(),
            forall|j: int| 0 <= j < i ==> a@[j] == b@[j],
        ensures
            r == Comparison::Less ==> precedes_at(a@, b@, i as int),
            r == Comparison::Greater ==> precedes_at(b@, a@, i as int),
            r == Comparison::Equal ==> a@ =~= b@,
        decreases a@.len() - i,
    {
        if i == a.len() {
            if i == b.len() {
                r = Comparison::Equal;
            } else {
                r = Comparison::Less;
            }
            break;
        }
        if i == b.len() {
            r = Comparison::Greater;
            break;
        }
        if a[i] < b[i] {
            r = Comparison::Less;
            break;
        }
        if b[i] < a[i] {
            r = Comparison::Greater;
            break;
        }
        i += 1;
    }
    proof {
        lemma_lt_irreflexive(a@);
        if bytes_lt(a@, b@) {
            lemma_lt_asymmetric(a@, b@);
        }
    }
    r
}

/// An account identifier.
#[derive(Clone, Debug, PartialEq, Eq, Hash)]
pub struct AccountId {
    pub name: String,
}

impl View for AccountId {
    type V = Seq<u8>;

    open spec fn view(&self) -> Seq<u8> {
        encode_utf8(self.name@)
    }
}

impl AccountId {
    /// The identifier spelled `name`.
    pub fn new(name: &str) -> (id: AccountId)
        ensures
            id@ == encode_utf8(name@),
            id.name@ == name@,
    {
        AccountId { name: name.to_owned() }
    }

    /// The identifier's spelling.
    pub fn as_str(&self) -> (s: &str)
        ensures
            s@ == self.name@,
            encode_utf8(s@) == self@,
    {
        self.name.as_str()
    }

    /// How this identifier ranks against `other`.
    pub fn compare(&self, other: &AccountId) -> (r: Comparison)
        ensures
            r == Comparison::Less <==> bytes_lt(self@, other@),
            r == Comparison::Equal <==> self@ == other@,
            r == Comparison::Greater <==> bytes_lt(other@, self@),
    {
        compare_bytes(self.name.as_str().as_bytes(), other.name.as_str().as_bytes())
    }

    /// Whether this identifier is strictly below `other`.
    pub fn lt(&self, other: &AccountId) -> (r: bool)
        ensures
            r == bytes_lt(self@, other@),
    {
        match self.compare(other) {
            Comparison::Less => true,
            _ => false,
        }
    }

    /// Whether both identifiers are spelled alike.
    pub fn same(&self, other: &AccountId) -> (r: bool)
        ensures
            r == (self@ == other@),
    {
        match self.compare(other) {
            Comparison::Equal => true,
            _ => false,
        }
    }

    /// Whether the identifier is the empty string, which is below every
    /// other identifier.
    pub fn is_empty(&self) -> (r: bool)
        ensures
            r == (self@.len() == 0),
    {
        self.name.as_str().as_bytes().len() == 0
    }

    /// A copy of the identifier.
    pub fn duplicate(&self) -> (id: AccountId)
        ensures
            id@ == self@,
            id.name@ == self.name@,
    {
        AccountId { name: self.name.clone() }
    }
}

} // verus!
