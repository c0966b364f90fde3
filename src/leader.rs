//! Round-robin leader election over the committee's key order.
use vstd::prelude::*;
use crate::committee::{Authority, Committee, sorted_by_name};
use crate::types::{PublicKey, Round, key_lt, lemma_bytes_lt_asymmetric, lemma_bytes_lt_irreflexive};

verus! {

/// The leader of `round` among `keys`: the key at position `round mod |keys|`.
pub open spec fn leader_of(keys: Seq<PublicKey>, round: int) -> PublicKey {
    keys[round % (keys.len() as int)]
}

/// Elects the leader of each round in strict rotation over the committee.
pub struct RRLeaderElector {
    committee: Committee,
}

/// The elector used by the protocol.
pub type LeaderElector = RRLeaderElector;

impl RRLeaderElector {
    /// The committee the elector rotates over.
    pub closed spec fn committee(&self) -> Committee {
        self.committee
    }

    pub fn new(committee: Committee) -> (r: Self)
        ensures
            r.committee() == committee,
    {
        Self { committee }
    }

    /// Least number of distinct authorities that forms a quorum of the committee.
    pub fn quorum_threshold(&self) -> (r: usize)
        ensures
            r == crate::committee::quorum(self.committee().members().len() as int),
    {
        self.committee.quorum_threshold()
    }

    /// Number of authorities in the committee.
    pub fn size(&self) -> (r: usize)
        ensures
            r == self.committee().members().len(),
    {
        self.committee.size()
    }

    /// The authority that leads `round`.
    pub fn get_leader(&self, round: Round) -> (r: PublicKey)
        requires
            self.committee().wf(),
        ensures
            r == leader_of(self.committee().keys(), round as int),
            self.committee().keys().contains(r),
    {
        elect(&self.committee, round)
    }
}

/// The authority of `committee` that leads `round`.
pub fn elect(committee: &Committee, round: Round) -> (r: PublicKey)
    requires
        committee.wf(),
    ensures
        r == leader_of(committee.keys(), round as int),
        committee.keys().contains(r),
{
    let n = committee.size();
    let names = committee.names();
    let idx = (round % (n as u64)) as usize;
    proof {
        lemma_leader_is_member(*committee, round as int);
    }
    names[idx]
}

/// The keys of a well-formed committee are pairwise distinct.
pub proof fn lemma_keys_distinct(c: Committee)
    requires
        c.wf(),
    ensures
        forall|i: int, j: int|
            0 <= i < c.keys().len() && 0 <= j < c.keys().len() && i != j ==> c.keys()[i] != c.keys()[j],
{
    assert forall|i: int, j: int|
        0 <= i < c.keys().len() && 0 <= j < c.keys().len() && i != j implies c.keys()[i] != c.keys()[j] by {
        if i < j {
            assert(key_lt(c.members()[i].name, c.members()[j].name));
            lemma_bytes_lt_asymmetric(c.keys()[i].bytes@, c.keys()[j].bytes@);
        } else {
            assert(key_lt(c.members()[j].name, c.members()[i].name));
            lemma_bytes_lt_asymmetric(c.keys()[j].bytes@, c.keys()[i].bytes@);
        }
    }
}

/// The leader of any round is a member of the committee.
pub proof fn lemma_leader_is_member(c: Committee, round: int)
    requires
        c.wf(),
        round >= 0,
    ensures
        c.keys().contains(leader_of(c.keys(), round)),
{
    let n = c.keys().len() as int;
    assert(0 <= round % n < n) by (nonlinear_arith)
        requires
            n > 0,
            round >= 0,
    ;
    assert(c.keys()[round % n] == leader_of(c.keys(), round));
}

/// Over `n` consecutive rounds from any start, where `n` is the committee size,
/// every authority leads exactly once.
pub proof fn lemma_leader_rotation(c: Committee, start: int)
    requires
        c.wf(),
        start >= 0,
    ensures
        forall|k: PublicKey|
            c.keys().contains(k) ==> exists|i: int|
                0 <= i < c.keys().len() && #[trigger] leader_of(c.keys(), start + i) == k,
        forall|i1: int, i2: int|
            0 <= i1 < c.keys().len() && 0 <= i2 < c.keys().len() && #[trigger] leader_of(
                c.keys(),
                start + i1,
            ) == #[trigger] leader_of(c.keys(), start + i2) ==> i1 == i2,
{
    let keys = c.keys();
    let n = keys.len() as int;
    lemma_keys_distinct(c);
    let q = start / n;
    let m = start % n;
    vstd::arithmetic::div_mod::lemma_fundamental_div_mod(start, n);
    assert(0 <= m < n) by (nonlinear_arith)
        requires
            n > 0,
            m == start % n,
    ;
    assert forall|k: PublicKey| keys.contains(k) implies exists|i: int|
        0 <= i < n && #[trigger] leader_of(keys, start + i) == k by {
        let j = choose|j: int| 0 <= j < n && keys[j] == k;
        if j >= m {
            let i = j - m;
            assert(start + i == q * n + j);
            vstd::arithmetic::div_mod::lemma_fundamental_div_mod_converse(start + i, n, q, j);
            assert(leader_of(keys, start + i) == k);
        } else {
            let i = j + n - m;
            assert(start + i == (q + 1) * n + j) by (nonlinear_arith)
                requires
                    start == n * q + m,
                    i == j + n - m,
            ;
            vstd::arithmetic::div_mod::lemma_fundamental_div_mod_converse(start + i, n, q + 1, j);
            assert(leader_of(keys, start + i) == k);
        }
    }
    assert forall|i1: int, i2: int|
        0 <= i1 < n && 0 <= i2 < n && #[trigger] leader_of(keys, start + i1) == #[trigger] leader_of(
            keys,
            start + i2,
        ) implies i1 == i2 by {
        let x1 = start + i1;
        let x2 = start + i2;
        vstd::arithmetic::div_mod::lemma_fundamental_div_mod(x1, n);
        vstd::arithmetic::div_mod::lemma_fundamental_div_mod(x2, n);
        let r1 = x1 % n;
        let r2 = x2 % n;
        assert(0 <= r1 < n && 0 <= r2 < n) by (nonlinear_arith)
            requires
                n > 0,
                r1 == x1 % n,
                r2 == x2 % n,
        ;
        assert(r1 == r2);
        let d1 = x1 / n;
        let d2 = x2 / n;
        assert(i1 - i2 == n * (d1 - d2)) by (nonlinear_arith)
            requires
                x1 == n * d1 + r1,
                x2 == n * d2 + r2,
                r1 == r2,
                x1 == start + i1,
                x2 == start + i2,
        ;
        assert(d1 == d2) by (nonlinear_arith)
            requires
                i1 - i2 == n * (d1 - d2),
                0 <= i1 < n,
                0 <= i2 < n,
        ;
    }
}

/// Two lists strictly ordered by key that hold the same authorities are equal.
pub proof fn lemma_sorted_unique(a: Seq<Authority>, b: Seq<Authority>)
    requires
        sorted_by_name(a),
        sorted_by_name(b),
        a.to_multiset() == b.to_multiset(),
    ensures
        a == b,
    decreases a.len(),
{
    vstd::seq_lib::to_multiset_len(a);
    vstd::seq_lib::to_multiset_len(b);
    if a.len() > 0 {
        vstd::seq_lib::to_multiset_contains(a, a[0]);
        vstd::seq_lib::to_multiset_contains(b, a[0]);
        vstd::seq_lib::to_multiset_contains(b, b[0]);
        vstd::seq_lib::to_multiset_contains(a, b[0]);
        let j = choose|j: int| 0 <= j < b.len() && b[j] == a[0];
        let i = choose|i: int| 0 <= i < a.len() && a[i] == b[0];
        if j > 0 {
            assert(key_lt(b[0].name, b[j].name));
            if i > 0 {
                assert(key_lt(a[0].name, a[i].name));
                lemma_bytes_lt_asymmetric(a[0].name.bytes@, b[0].name.bytes@);
            } else {
                lemma_bytes_lt_irreflexive(a[0].name.bytes@);
            }
        }
        assert(a[0] == b[0]);
        vstd::seq_lib::to_multiset_remove(a, 0);
        vstd::seq_lib::to_multiset_remove(b, 0);
        let a1 = a.remove(0);
        let b1 = b.remove(0);
        assert(sorted_by_name(a1)) by {
            assert forall|x: int, y: int| 0 <= x < y < a1.len() implies key_lt(a1[x].name, a1[y].name) by {
                assert(a1[x] == a[x + 1] && a1[y] == a[y + 1]);
            }
        }
        assert(sorted_by_name(b1)) by {
            assert forall|x: int, y: int| 0 <= x < y < b1.len() implies key_lt(b1[x].name, b1[y].name) by {
                assert(b1[x] == b[x + 1] && b1[y] == b[y + 1]);
            }
        }
        lemma_sorted_unique(a1, b1);
        assert(a =~= b1.insert(0, b[0]));
        assert(b =~= b1.insert(0, b[0]));
    } else {
        assert(a =~= b);
    }
}

/// Leader election depends on the committee's membership alone: two
/// committees formed from the same authorities, in whatever order they were
/// given, elect the same leader in every round.
pub proof fn lemma_leader_deterministic(c1: Committee, c2: Committee, round: int)
    requires
        c1.wf(),
        c2.wf(),
        c1.members().to_multiset() == c2.members().to_multiset(),
    ensures
        leader_of(c1.keys(), round) == leader_of(c2.keys(), round),
{
    lemma_sorted_unique(c1.members(), c2.members());
    assert(c1.keys() == c2.keys());
}

} // verus!
