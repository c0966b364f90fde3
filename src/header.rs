//! Validity of a proposal: the right leader, and a quorum of distinct
//! certified parents from the previous round.
use vstd::prelude::*;
use crate::committee::{Committee, quorum};
use crate::leader::{elect, leader_of};
use crate::types::{Digest, PublicKey, Round, Signature, keys_equal, digests_equal};

verus! {

/// A proposal by one authority for one round.
#[derive(Clone, Debug)]
pub struct Header {
    pub author: PublicKey,
    pub round: Round,
    /// Digests of the worker batches it carries.
    pub payload: Vec<Digest>,
    /// Digests of the certified headers of the previous round it extends.
    pub parents: Vec<Digest>,
    pub signature: Signature,
}

/// A certificate known to the local DAG, by round and certified digest.
#[derive(Clone, Copy, Debug, PartialEq, Eq)]
pub struct CertRef {
    pub round: Round,
    pub digest: Digest,
}

/// Why a header is rejected.
#[derive(Clone, Copy, Debug, PartialEq, Eq)]
pub enum HeaderError {
    /// The author is not the leader of the header's round.
    WrongLeader,
    /// The parents are not a quorum of distinct known certificates of the previous round.
    InvalidParents,
    /// The header's signature does not verify under its author's key.
    InvalidSignature,
}

/// No digest occurs twice.
pub open spec fn distinct_digests(s: Seq<Digest>) -> bool {
    forall|i: int, j: int| 0 <= i < j < s.len() ==> s[i] != s[j]
}

/// `d` is a known certificate of round `round`.
pub open spec fn is_known(known: Seq<CertRef>, round: Round, d: Digest) -> bool {
    exists|j: int| 0 <= j < known.len() && known[j].round == round && known[j].digest == d
}

/// The parents of a header of round `round` are acceptable: none are needed
/// in round 0; otherwise they are distinct known certificates of round
/// `round - 1`, at least `q` of them.
pub open spec fn parents_ok(parents: Seq<Digest>, known: Seq<CertRef>, round: Round, q: int) -> bool {
    round == 0 || (distinct_digests(parents) && parents.len() >= q && forall|i: int|
        0 <= i < parents.len() ==> is_known(known, (round - 1) as Round, #[trigger] parents[i]))
}

/// Whether `d` is a known certificate of round `round`.
fn find_known(known: &Vec<CertRef>, round: Round, d: &Digest) -> (r: bool)
    ensures
        r == is_known(known@, round, *d),
{
    let mut j: usize = 0;
    while j < known.len()
        invariant
            0 <= j <= known@.len(),
            forall|t: int| 0 <= t < j ==> !(known@[t].round == round && known@[t].digest == *d),
        decreases known@.len() - j,
    {
        if known[j].round == round && digests_equal(&known[j].digest, d) {
            return true;
        }
        j = j + 1;
    }
    false
}

/// Whether no digest occurs twice.
fn all_distinct(s: &Vec<Digest>) -> (r: bool)
    ensures
        r == distinct_digests(s@),
{
    let n = s.len();
    let mut i: usize = 0;
    while i < n
        invariant
            n == s@.len(),
            0 <= i <= n,
            forall|x: int, y: int| 0 <= x < i && x < y < n ==> s@[x] != s@[y],
        decreases n - i,
    {
        let mut j: usize = i + 1;
        while j < n
            invariant
                n == s@.len(),
                0 <= i < n,
                i + 1 <= j <= n,
                forall|x: int, y: int| 0 <= x < i && x < y < n ==> s@[x] != s@[y],
                forall|y: int| i < y < j ==> s@[i as int] != s@[y],
            decreases n - j,
        {
            if digests_equal(&s[i], &s[j]) {
                return false;
            }
            j = j + 1;
        }
        i = i + 1;
    }
    true
}

/// The verdict on a header of a committee with keys `keys` and quorum `q`,
/// given the known certificates and whether its signature verified: the
/// leader check comes first, whatever the signature, then the parents, then
/// the signature.
pub open spec fn header_verdict(
    keys: Seq<PublicKey>,
    q: int,
    header: Header,
    known: Seq<CertRef>,
    signature_valid: bool,
) -> Result<(), HeaderError> {
    if header.author != leader_of(keys, header.round as int) {
        Err(HeaderError::WrongLeader)
    } else if !parents_ok(header.parents@, known, header.round, q) {
        Err(HeaderError::InvalidParents)
    } else if !signature_valid {
        Err(HeaderError::InvalidSignature)
    } else {
        Ok(())
    }
}

/// Checks a header before voting on it. `known` lists the certificates of
/// the local DAG; `signature_valid` tells whether the header's signature
/// verifies under its author's key. A header from anyone but the round's
/// leader is rejected whatever its signature.
#[verifier::loop_isolation(false)]
pub fn validate_header(
    committee: &Committee,
    header: &Header,
    known: &Vec<CertRef>,
    signature_valid: bool,
) -> (r: Result<(), HeaderError>)
    requires
        committee.wf(),
    ensures
        r == header_verdict(
            committee.keys(),
            quorum(committee.members().len() as int),
            *header,
            known@,
            signature_valid,
        ),
{
    let leader = elect(committee, header.round);
    if !keys_equal(&header.author, &leader) {
        return Err(HeaderError::WrongLeader);
    }
    if header.round > 0 {
        let q = committee.quorum_threshold();
        if header.parents.len() < q || !all_distinct(&header.parents) {
            return Err(HeaderError::InvalidParents);
        }
        let mut i: usize = 0;
        while i < header.parents.len()
            invariant
                0 <= i <= header.parents@.len(),
                header.round > 0,
                forall|t: int|
                    0 <= t < i ==> is_known(known@, (header.round - 1) as Round, #[trigger] header.parents@[t]),
            decreases header.parents@.len() - i,
        {
            if !find_known(known, header.round - 1, &header.parents[i]) {
                return Err(HeaderError::InvalidParents);
            }
            i = i + 1;
        }
    }
    if !signature_valid {
        return Err(HeaderError::InvalidSignature);
    }
    Ok(())
}

/// A header whose author is not the leader of its round is rejected, with
/// or without a valid signature; a header of a round above 0 with fewer
/// than a quorum of parents is rejected too.
pub proof fn lemma_header_validity(
    keys: Seq<PublicKey>,
    q: int,
    header: Header,
    known: Seq<CertRef>,
    signature_valid: bool,
)
    ensures
        header.author != leader_of(keys, header.round as int) ==> header_verdict(
            keys,
            q,
            header,
            known,
            true,
        ) == Err::<(), HeaderError>(HeaderError::WrongLeader) && header_verdict(
            keys,
            q,
            header,
            known,
            false,
        ) == Err::<(), HeaderError>(HeaderError::WrongLeader),
        (header.round > 0 && header.parents@.len() < q) ==> header_verdict(
            keys,
            q,
            header,
            known,
            signature_valid,
        ) is Err,
{
}

/// The digests of `payload` that are not among `held`, in order.
pub open spec fn missing_from(payload: Seq<Digest>, held: Seq<Digest>) -> Seq<Digest>
    decreases payload.len(),
{
    if payload.len() == 0 {
        Seq::empty()
    } else {
        let rest = missing_from(payload.drop_last(), held);
        if held.contains(payload.last()) {
            rest
        } else {
            rest.push(payload.last())
        }
    }
}

/// The batches a header refers to that are not held locally, in payload
/// order: they must be fetched from other workers before the header can be
/// voted on.
pub fn missing_batches(header: &Header, held: &Vec<Digest>) -> (r: Vec<Digest>)
    ensures
        r@ == missing_from(header.payload@, held@),
{
    let mut out: Vec<Digest> = Vec::new();
    let mut i: usize = 0;
    while i < header.payload.len()
        invariant
            0 <= i <= header.payload@.len(),
            out@ == missing_from(header.payload@.take(i as int), held@),
        decreases header.payload@.len() - i,
    {
        proof {
            assert(header.payload@.take(i + 1).drop_last() =~= header.payload@.take(i as int));
        }
        let mut found = false;
        let mut j: usize = 0;
        while j < held.len()
            invariant
                0 <= j <= held@.len(),
                i < header.payload@.len(),
                found == exists|t: int| 0 <= t < j && held@[t] == header.payload@[i as int],
            decreases held@.len() - j,
        {
            if digests_equal(&held[j], &header.payload[i]) {
                found = true;
            }
            j = j + 1;
        }
        if !found {
            out.push(header.payload[i]);
        }
        i = i + 1;
    }
    assert(header.payload@.take(header.payload@.len() as int) =~= header.payload@);
    out
}

} // verus!
