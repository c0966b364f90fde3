//! Static membership of an epoch: authorities ordered by key, their addresses,
//! and the quorum threshold.
use vstd::prelude::*;
use crate::types::{
    PublicKey, WorkerId, KeyOrder, key_lt, compare_keys, keys_equal, lemma_bytes_lt_transitive,
    lemma_bytes_lt_asymmetric, lemma_bytes_lt_irreflexive,
};

verus! {

/// A network address: an IPv6 (or IPv4-mapped) host and a port.
#[derive(Clone, Copy, Debug, PartialEq, Eq, Hash)]
pub struct Address {
    pub ip: [u8; 16],
    pub port: u16,
}

/// The addresses at which one worker can be reached.
#[derive(Clone, Copy, Debug, PartialEq, Eq, Hash)]
pub struct WorkerAddresses {
    pub transactions: Address,
    pub worker_to_worker: Address,
}

/// One worker of an authority.
#[derive(Clone, Copy, Debug, PartialEq, Eq, Hash)]
pub struct WorkerInfo {
    pub id: WorkerId,
    pub addresses: WorkerAddresses,
}

/// A committee member.
#[derive(Clone, Debug)]
pub struct Authority {
    pub name: PublicKey,
    pub primary: Address,
    pub workers: Vec<WorkerInfo>,
}

/// Why a committee could not be formed.
#[derive(Clone, Copy, Debug, PartialEq, Eq)]
pub enum CommitteeError {
    /// No authority was given.
    Empty,
    /// Two authorities share a key.
    DuplicateAuthority,
    /// One authority lists the same worker id twice.
    DuplicateWorker,
}

/// Why a worker lookup failed.
#[derive(Clone, Copy, Debug, PartialEq, Eq)]
pub enum ConfigError {
    NotInCommittee,
    UnknownWorker,
}

/// The members of an epoch, held in strictly increasing key order.
#[derive(Clone, Debug)]
pub struct Committee {
    authorities: Vec<Authority>,
}

/// No two workers of the list share an id.
pub open spec fn workers_distinct(ws: Seq<WorkerInfo>) -> bool {
    forall|i: int, j: int| 0 <= i < j < ws.len() ==> ws[i].id != ws[j].id
}

/// Every authority of the list has distinct worker ids.
pub open spec fn all_workers_distinct(s: Seq<Authority>) -> bool {
    forall|i: int| 0 <= i < s.len() ==> workers_distinct(#[trigger] s[i].workers@)
}

/// No two authorities of the list share a key.
pub open spec fn names_distinct(s: Seq<Authority>) -> bool {
    forall|i: int, j: int| 0 <= i < j < s.len() ==> s[i].name != s[j].name
}

/// The list is strictly increasing by key.
pub open spec fn sorted_by_name(s: Seq<Authority>) -> bool {
    forall|i: int, j: int| 0 <= i < j < s.len() ==> key_lt(s[i].name, s[j].name)
}

/// Least size of a quorum among `n` authorities: `2n/3 + 1`, which is `2f + 1` for `n = 3f + 1`.
pub open spec fn quorum(n: int) -> int {
    2 * n / 3 + 1
}

/// Some member named `name` has a worker `id`.
pub open spec fn has_worker(s: Seq<Authority>, name: PublicKey, id: WorkerId) -> bool {
    exists|a: int, w: int|
        0 <= a < s.len() && s[a].name == name && 0 <= w < s[a].workers@.len()
            && s[a].workers@[w].id == id
}

/// `addr` is the address entry of worker `id` of the member named `name`.
pub open spec fn is_worker_of(s: Seq<Authority>, name: PublicKey, id: WorkerId, addr: WorkerAddresses) -> bool {
    exists|a: int, w: int|
        0 <= a < s.len() && s[a].name == name && 0 <= w < s[a].workers@.len()
            && s[a].workers@[w].id == id && s[a].workers@[w].addresses == addr
}

/// For a committee of `3f + 1` authorities the quorum is `2f + 1`, so `2f`
/// endorsements never make one.
pub proof fn lemma_quorum_of_3f_plus_1(f: int)
    requires
        f >= 0,
    ensures
        quorum(3 * f + 1) == 2 * f + 1,
        2 * f < quorum(3 * f + 1),
{
    assert(2 * (3 * f + 1) == 3 * (2 * f) + 2);
}

impl Committee {
    /// The members in key order.
    pub closed spec fn members(&self) -> Seq<Authority> {
        self.authorities@
    }

    /// The members' keys in increasing order.
    pub open spec fn keys(&self) -> Seq<PublicKey> {
        self.members().map_values(|a: Authority| a.name)
    }

    /// Non-empty, strictly ordered by key, worker ids distinct per authority.
    pub open spec fn wf(&self) -> bool {
        &&& self.members().len() > 0
        &&& sorted_by_name(self.members())
        &&& all_workers_distinct(self.members())
    }

    /// Number of authorities.
    pub fn size(&self) -> (r: usize)
        ensures
            r == self.members().len(),
    {
        self.authorities.len()
    }

    /// The members' keys in increasing order.
    pub fn names(&self) -> (r: Vec<PublicKey>)
        ensures
            r@ == self.keys(),
    {
        let mut out: Vec<PublicKey> = Vec::new();
        let mut i: usize = 0;
        while i < self.authorities.len()
            invariant
                0 <= i <= self.members().len(),
                out@ == self.keys().take(i as int),
            decreases self.members().len() - i,
        {
            out.push(self.authorities[i].name);
            i = i + 1;
            assert(out@ =~= self.keys().take(i as int));
        }
        assert(out@ =~= self.keys());
        out
    }

    /// Least number of distinct authorities that forms a quorum.
    pub fn quorum_threshold(&self) -> (r: usize)
        ensures
            r == quorum(self.members().len() as int),
    {
        let n = self.authorities.len();
        (n / 3) * 2 + (n % 3) * 2 / 3 + 1
    }

    /// Position of the authority with key `name`, if it is a member.
    pub fn index_of(&self, name: &PublicKey) -> (r: Option<usize>)
        ensures
            r is Some ==> r->Some_0 < self.members().len() && self.members()[r->Some_0 as int].name
                == *name,
            r is None ==> !self.keys().contains(*name),
    {
        let mut i: usize = 0;
        while i < self.authorities.len()
            invariant
                0 <= i <= self.members().len(),
                forall|j: int| 0 <= j < i ==> self.members()[j].name != *name,
            decreases self.members().len() - i,
        {
            if keys_equal(&self.authorities[i].name, name) {
                return Some(i);
            }
            i = i + 1;
        }
        proof {
            if self.keys().contains(*name) {
                let j = choose|j: int| 0 <= j < self.keys().len() && self.keys()[j] == *name;
                assert(self.members()[j].name == *name);
            }
        }
        None
    }

    /// Whether `name` is a member.
    pub fn contains(&self, name: &PublicKey) -> (r: bool)
        ensures
            r == self.keys().contains(*name),
    {
        match self.index_of(name) {
            Some(i) => {
                assert(self.keys()[i as int] == *name);
                true
            },
            None => false,
        }
    }

    /// The addresses of worker `id` of authority `name`.
    pub fn worker(&self, name: &PublicKey, id: WorkerId) -> (r: Result<WorkerAddresses, ConfigError>)
        requires
            self.wf(),
        ensures
            r == Err::<WorkerAddresses, ConfigError>(ConfigError::NotInCommittee) <==> !self.keys().contains(*name),
            r == Err::<WorkerAddresses, ConfigError>(ConfigError::UnknownWorker) <==> (self.keys().contains(*name)
                && !has_worker(self.members(), *name, id)),
            r is Ok ==> is_worker_of(self.members(), *name, id, r->Ok_0),
    {
        match self.index_of(name) {
            None => Err(ConfigError::NotInCommittee),
            Some(i) => {
                let ws = &self.authorities[i].workers;
                let mut j: usize = 0;
                while j < ws.len()
                    invariant
                        self.wf(),
                        i < self.members().len(),
                        *ws == self.members()[i as int].workers,
                        self.members()[i as int].name == *name,
                        0 <= j <= ws@.len(),
                        forall|t: int| 0 <= t < j ==> ws@[t].id != id,
                    decreases ws@.len() - j,
                {
                    if ws[j].id == id {
                        assert(self.keys()[i as int] == *name);
                        return Ok(ws[j].addresses);
                    }
                    j = j + 1;
                }
                proof {
                    assert(self.keys()[i as int] == *name);
                    if has_worker(self.members(), *name, id) {
                        let (a, w) = choose|a: int, w: int|
                            0 <= a < self.members().len() && self.members()[a].name == *name && 0 <= w
                                < self.members()[a].workers@.len() && self.members()[a].workers@[w].id == id;
                        if a != i as int {
                            if a < i {
                                assert(key_lt(self.members()[a].name, self.members()[i as int].name));
                            } else {
                                assert(key_lt(self.members()[i as int].name, self.members()[a].name));
                            }
                            lemma_bytes_lt_irreflexive(name.bytes@);
                        }
                    }
                }
                Err(ConfigError::UnknownWorker)
            },
        }
    }

    /// Forms a committee from its authorities, in any order.
    #[verifier::rlimit(30)]
    pub fn new(authorities: Vec<Authority>) -> (r: Result<Committee, CommitteeError>)
        ensures
            r == Err::<Committee, CommitteeError>(CommitteeError::Empty) <==> authorities@.len() == 0,
            r == Err::<Committee, CommitteeError>(CommitteeError::DuplicateWorker) <==> (
            authorities@.len() > 0 && !all_workers_distinct(authorities@)),
            r == Err::<Committee, CommitteeError>(CommitteeError::DuplicateAuthority) <==> (
            authorities@.len() > 0 && all_workers_distinct(authorities@) && !names_distinct(
                authorities@,
            )),
            r is Ok ==> r->Ok_0.wf() && r->Ok_0.members().to_multiset() == authorities@.to_multiset(),
    {
        if authorities.len() == 0 {
            return Err(CommitteeError::Empty);
        }
        if !Self::workers_all_distinct(&authorities) {
            return Err(CommitteeError::DuplicateWorker);
        }
        let ghost orig = authorities@;
        let mut input = authorities;
        let mut sorted: Vec<Authority> = Vec::new();
        proof {
            assert(orig.skip(orig.len() as int) =~= Seq::<Authority>::empty());
        }
        while input.len() > 0
            invariant
                orig == authorities@,
                orig.len() > 0,
                all_workers_distinct(orig),
                input@ == orig.take(input@.len() as int),
                input@.len() <= orig.len(),
                sorted_by_name(sorted@),
                names_distinct(orig.skip(input@.len() as int)),
                sorted@.to_multiset() == orig.skip(input@.len() as int).to_multiset(),
            decreases input@.len(),
        {
            let ghost k = input@.len() - 1;
            let ghost old_sorted = sorted@;
            let item = input.pop().unwrap();
            assert(item == orig[k]);
            match Self::insert_by_name(&mut sorted, item) {
                None => {
                    proof {
                        Self::lemma_duplicate_found(orig, k, old_sorted);
                    }
                    return Err(CommitteeError::DuplicateAuthority);
                },
                Some(p) => {
                    proof {
                        Self::lemma_insert_keeps_members(orig, k, old_sorted, sorted@, p as int);
                    }
                    assert(input@ =~= orig.take(input@.len() as int));
                },
            }
        }
        proof {
            assert(orig.skip(0) =~= orig);
            vstd::seq_lib::to_multiset_len(sorted@);
            vstd::seq_lib::to_multiset_len(orig);
            assert forall|i: int| 0 <= i < sorted@.len() implies workers_distinct(
                #[trigger] sorted@[i].workers@,
            ) by {
                vstd::seq_lib::to_multiset_contains(sorted@, sorted@[i]);
                vstd::seq_lib::to_multiset_contains(orig, sorted@[i]);
                let j = choose|j: int| 0 <= j < orig.len() && orig[j] == sorted@[i];
                assert(workers_distinct(orig[j].workers@));
            }
        }
        Ok(Committee { authorities: sorted })
    }

    /// Inserts `item` at its place in a list ordered by key, unless its key is already there.
    fn insert_by_name(sorted: &mut Vec<Authority>, item: Authority) -> (r: Option<usize>)
        requires
            sorted_by_name(old(sorted)@),
        ensures
            r is Some ==> {
                &&& r->Some_0 <= old(sorted)@.len()
                &&& final(sorted)@ == old(sorted)@.insert(r->Some_0 as int, item)
                &&& sorted_by_name(final(sorted)@)
                &&& forall|q: int| 0 <= q < old(sorted)@.len() ==> old(sorted)@[q].name != item.name
            },
            r is None ==> exists|q: int| 0 <= q < old(sorted)@.len() && old(sorted)@[q].name == item.name,
    {
        let mut p: usize = 0;
        let mut placed = false;
        while p < sorted.len() && !placed
            invariant
                sorted_by_name(sorted@),
                0 <= p <= sorted@.len(),
                forall|q: int| 0 <= q < p ==> key_lt(#[trigger] sorted@[q].name, item.name),
                placed ==> p < sorted@.len() && key_lt(item.name, sorted@[p as int].name),
            decreases sorted@.len() - p, if placed { 0int } else { 1int },
        {
            match compare_keys(&item.name, &sorted[p].name) {
                KeyOrder::Greater => {
                    p = p + 1;
                },
                KeyOrder::Equal => {
                    return None;
                },
                KeyOrder::Less => {
                    placed = true;
                },
            }
        }
        let ghost old_sorted = sorted@;
        proof {
            assert forall|q: int| p <= q < old_sorted.len() implies key_lt(
                item.name,
                #[trigger] old_sorted[q].name,
            ) by {
                if q > p {
                    assert(key_lt(old_sorted[p as int].name, old_sorted[q].name));
                    lemma_bytes_lt_transitive(
                        item.name.bytes@,
                        old_sorted[p as int].name.bytes@,
                        old_sorted[q].name.bytes@,
                    );
                }
            }
            assert forall|q: int| 0 <= q < old_sorted.len() implies old_sorted[q].name != item.name by {
                if q < p {
                    lemma_bytes_lt_asymmetric(old_sorted[q].name.bytes@, item.name.bytes@);
                } else {
                    lemma_bytes_lt_asymmetric(item.name.bytes@, old_sorted[q].name.bytes@);
                }
            }
        }
        sorted.insert(p, item);
        proof {
            let s = sorted@;
            let pi = p as int;
            assert forall|i: int, j: int| 0 <= i < j < s.len() implies key_lt(
                s[i].name,
                s[j].name,
            ) by {
                if i < pi && j == pi {
                } else if i < pi && j > pi {
                    assert(s[j] == old_sorted[j - 1]);
                    assert(s[i] == old_sorted[i]);
                    lemma_bytes_lt_transitive(
                        s[i].name.bytes@,
                        item.name.bytes@,
                        s[j].name.bytes@,
                    );
                } else if i == pi {
                    assert(s[j] == old_sorted[j - 1]);
                } else if i > pi {
                    assert(s[i] == old_sorted[i - 1] && s[j] == old_sorted[j - 1]);
                    assert(key_lt(old_sorted[i - 1].name, old_sorted[j - 1].name));
                } else {
                    assert(s[i] == old_sorted[i] && s[j] == old_sorted[j]);
                    assert(key_lt(old_sorted[i].name, old_sorted[j].name));
                }
            }
        }
        Some(p)
    }

    proof fn lemma_duplicate_found(orig: Seq<Authority>, k: int, old_sorted: Seq<Authority>)
        requires
            0 <= k < orig.len(),
            old_sorted.to_multiset() == orig.skip(k + 1).to_multiset(),
            exists|q: int| 0 <= q < old_sorted.len() && old_sorted[q].name == orig[k].name,
        ensures
            !names_distinct(orig),
    {
        let q = choose|q: int| 0 <= q < old_sorted.len() && old_sorted[q].name == orig[k].name;
        let rest = orig.skip(k + 1);
        vstd::seq_lib::to_multiset_contains(old_sorted, old_sorted[q]);
        vstd::seq_lib::to_multiset_contains(rest, old_sorted[q]);
        let t = choose|t: int| 0 <= t < rest.len() && rest[t] == old_sorted[q];
        assert(orig[k + 1 + t] == rest[t]);
        assert(orig[k].name == orig[k + 1 + t].name);
    }

    proof fn lemma_insert_keeps_members(
        orig: Seq<Authority>,
        k: int,
        old_sorted: Seq<Authority>,
        s: Seq<Authority>,
        p: int,
    )
        requires
            0 <= k < orig.len(),
            0 <= p <= old_sorted.len(),
            s == old_sorted.insert(p, orig[k]),
            names_distinct(orig.skip(k + 1)),
            forall|q: int| 0 <= q < old_sorted.len() ==> old_sorted[q].name != orig[k].name,
            old_sorted.to_multiset() == orig.skip(k + 1).to_multiset(),
        ensures
            names_distinct(orig.skip(k)),
            s.to_multiset() == orig.skip(k).to_multiset(),
    {
        let rest = orig.skip(k + 1);
        let now = orig.skip(k);
        assert(now =~= rest.insert(0, orig[k]));
        vstd::seq_lib::to_multiset_insert(rest, 0, orig[k]);
        vstd::seq_lib::to_multiset_insert(old_sorted, p, orig[k]);
        assert forall|i: int, j: int| 0 <= i < j < now.len() implies now[i].name != now[j].name by {
            if i == 0 {
                assert(now[j] == rest[j - 1]);
                vstd::seq_lib::to_multiset_contains(rest, rest[j - 1]);
                vstd::seq_lib::to_multiset_contains(old_sorted, rest[j - 1]);
                let t = choose|t: int| 0 <= t < old_sorted.len() && old_sorted[t] == rest[j - 1];
                assert(old_sorted[t].name != orig[k].name);
            } else {
                assert(now[i] == rest[i - 1] && now[j] == rest[j - 1]);
            }
        }
    }

    /// Whether every authority of the list has distinct worker ids.
    fn workers_all_distinct(authorities: &Vec<Authority>) -> (r: bool)
        ensures
            r == all_workers_distinct(authorities@),
    {
        let mut a: usize = 0;
        while a < authorities.len()
            invariant
                0 <= a <= authorities@.len(),
                forall|i: int| 0 <= i < a ==> workers_distinct(#[trigger] authorities@[i].workers@),
            decreases authorities@.len() - a,
        {
            if !Self::distinct_worker_ids(&authorities[a]) {
                return false;
            }
            a = a + 1;
        }
        true
    }

    /// Whether no two workers of the authority share an id.
    fn distinct_worker_ids(a: &Authority) -> (r: bool)
        ensures
            r == workers_distinct(a.workers@),
    {
        let n = a.workers.len();
        let mut i: usize = 0;
        while i < n
            invariant
                n == a.workers@.len(),
                0 <= i <= n,
                forall|x: int, y: int| 0 <= x < i && x < y < n ==> a.workers@[x].id != a.workers@[y].id,
            decreases n - i,
        {
            let mut j: usize = i + 1;
            while j < n
                invariant
                    n == a.workers@.len(),
                    0 <= i < n,
                    i + 1 <= j <= n,
                    forall|x: int, y: int| 0 <= x < i && x < y < n ==> a.workers@[x].id != a.workers@[y].id,
                    forall|y: int| i < y < j ==> a.workers@[i as int].id != a.workers@[y].id,
                decreases n - j,
            {
                if a.workers[i].id == a.workers[j].id {
                    return false;
                }
                j = j + 1;
            }
            i = i + 1;
        }
        true
    }
}

} // verus!
