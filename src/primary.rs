//! The per-authority DAG driver: proposes when it leads, votes on valid
//! headers, turns quorums of votes into certificates, and advances rounds.
use vstd::prelude::*;
use crate::aggregator::{Aggregator, AggregatorError, Certificate, Timeout, Vote, tallied, timeout_as_vote, retain_from};
use crate::committee::{Committee, quorum};
use crate::header::{CertRef, Header, HeaderError, header_verdict, validate_header};
use crate::leader::{elect, leader_of};
use crate::types::{Digest, PublicKey, Round, keys_equal};

verus! {

/// What the leader of a round proposes, before it is signed.
#[derive(Clone, Debug)]
pub struct Proposal {
    pub author: PublicKey,
    pub round: Round,
    pub payload: Vec<Digest>,
    pub parents: Vec<Digest>,
}

/// The digests of the known certificates of round `round`, in order of arrival.
pub open spec fn certified_in(dag: Seq<CertRef>, round: Round) -> Seq<Digest>
    decreases dag.len(),
{
    if dag.len() == 0 {
        Seq::empty()
    } else {
        let rest = certified_in(dag.drop_last(), round);
        if dag.last().round == round {
            rest.push(dag.last().digest)
        } else {
            rest
        }
    }
}

/// The round after a certificate or timeout quorum for `quorum_round` is
/// reached in round `current`: past it, unless it lies behind or is the last round.
pub open spec fn advanced(current: Round, quorum_round: Round) -> Round {
    if quorum_round >= current && quorum_round < u64::MAX {
        (quorum_round + 1) as Round
    } else {
        current
    }
}

/// One authority's protocol state.
pub struct Primary {
    name: PublicKey,
    round: Round,
    dag: Vec<CertRef>,
    aggregator: Aggregator,
}

impl Primary {
    /// This authority's key.
    pub closed spec fn name(&self) -> PublicKey {
        self.name
    }

    /// The current round.
    pub closed spec fn round(&self) -> Round {
        self.round
    }

    /// The certificates formed so far, in order.
    pub closed spec fn dag(&self) -> Seq<CertRef> {
        self.dag@
    }

    pub closed spec fn aggregator(&self) -> Aggregator {
        self.aggregator
    }

    pub open spec fn committee(&self) -> Committee {
        self.aggregator().committee()
    }

    pub open spec fn wf(&self) -> bool {
        self.aggregator().wf()
    }

    /// A primary at round 0 with an empty DAG.
    pub fn new(name: PublicKey, committee: Committee) -> (r: Self)
        requires
            committee.wf(),
        ensures
            r.wf(),
            r.name() == name,
            r.committee() == committee,
            r.round() == 0,
            r.dag() == Seq::<CertRef>::empty(),
            r.aggregator().votes() == Seq::<Vote>::empty(),
            r.aggregator().timeouts() == Seq::<Vote>::empty(),
    {
        Primary { name, round: 0, dag: Vec::new(), aggregator: Aggregator::new(committee) }
    }

    /// The current round.
    pub fn current_round(&self) -> (r: Round)
        ensures
            r == self.round(),
    {
        self.round
    }

    /// The certificates formed so far.
    pub fn certificates(&self) -> (r: &Vec<CertRef>)
        ensures
            r@ == self.dag(),
    {
        &self.dag
    }

    /// The digests of the known certificates of `round`.
    pub fn certified_digests(&self, round: Round) -> (r: Vec<Digest>)
        ensures
            r@ == certified_in(self.dag(), round),
    {
        let mut out: Vec<Digest> = Vec::new();
        let mut i: usize = 0;
        while i < self.dag.len()
            invariant
                0 <= i <= self.dag@.len(),
                out@ == certified_in(self.dag@.take(i as int), round),
            decreases self.dag@.len() - i,
        {
            proof {
                assert(self.dag@.take(i + 1).drop_last() =~= self.dag@.take(i as int));
            }
            if self.dag[i].round == round {
                out.push(self.dag[i].digest);
            }
            i = i + 1;
        }
        assert(self.dag@.take(self.dag@.len() as int) =~= self.dag@);
        out
    }

    /// The proposal for the current round, made only when this authority
    /// leads it: the given batch digests over the certificates of the
    /// previous round.
    pub fn propose(&self, payload: Vec<Digest>) -> (r: Option<Proposal>)
        requires
            self.wf(),
        ensures
            r is Some <==> self.name() == leader_of(self.committee().keys(), self.round() as int),
            r matches Some(p) ==> {
                &&& p.author == self.name()
                &&& p.round == self.round()
                &&& p.payload@ == payload@
                &&& p.parents@ == if self.round() == 0 {
                    Seq::<Digest>::empty()
                } else {
                    certified_in(self.dag(), (self.round() - 1) as Round)
                }
            },
    {
        let leader = elect(self.aggregator.committee_ref(), self.round);
        if !keys_equal(&leader, &self.name) {
            return None;
        }
        let parents = if self.round == 0 {
            Vec::new()
        } else {
            self.certified_digests(self.round - 1)
        };
        Some(Proposal { author: self.name, round: self.round, payload, parents })
    }

    /// Decides whether to vote on a peer's header: `Ok` means vote.
    pub fn process_header(&self, header: &Header, signature_valid: bool) -> (r: Result<(), HeaderError>)
        requires
            self.wf(),
        ensures
            r == header_verdict(
                self.committee().keys(),
                quorum(self.committee().members().len() as int),
                *header,
                self.dag(),
                signature_valid,
            ),
    {
        validate_header(self.aggregator.committee_ref(), header, &self.dag, signature_valid)
    }

    /// Moves past `quorum_round` when it is the current round or later,
    /// dropping the tallies of rounds before it.
    fn advance(&mut self, quorum_round: Round)
        requires
            old(self).wf(),
        ensures
            final(self).wf(),
            final(self).name() == old(self).name(),
            final(self).dag() == old(self).dag(),
            final(self).committee() == old(self).committee(),
            final(self).round() == advanced(old(self).round(), quorum_round),
            final(self).round() != old(self).round() ==> final(self).aggregator().votes() == retain_from(
                old(self).aggregator().votes(),
                quorum_round,
            ) && final(self).aggregator().timeouts() == retain_from(
                old(self).aggregator().timeouts(),
                quorum_round,
            ),
            final(self).round() == old(self).round() ==> final(self).aggregator() == old(
                self,
            ).aggregator(),
    {
        if quorum_round >= self.round && quorum_round < u64::MAX {
            self.round = quorum_round + 1;
            self.aggregator.cleanup(quorum_round);
        }
    }

    /// Takes a vote on a header. A new certificate is appended to the DAG
    /// and moves the round past the certified one.
    pub fn process_vote(&mut self, vote: Vote, signature_valid: bool) -> (r: Result<
        Option<Certificate>,
        AggregatorError,
    >)
        requires
            old(self).wf(),
        ensures
            final(self).wf(),
            final(self).name() == old(self).name(),
            final(self).committee() == old(self).committee(),
            exists|t: Seq<Vote>|
                tallied(
                    old(self).aggregator().votes(),
                    t,
                    old(self).committee(),
                    old(self).aggregator().watermark(),
                    vote,
                    signature_valid,
                    r,
                ),
            r matches Ok(Some(c)) ==> {
                &&& final(self).dag() == old(self).dag().push(CertRef { round: c.round, digest: c.digest })
                &&& final(self).round() == advanced(old(self).round(), c.round)
            },
            !(r matches Ok(Some(_))) ==> final(self).dag() == old(self).dag() && final(self).round() == old(
                self,
            ).round(),
    {
        let ghost before = self.aggregator();
        let r = self.aggregator.add_vote(vote, signature_valid);
        let ghost t = self.aggregator().votes();
        assert(tallied(before.votes(), t, before.committee(), before.watermark(), vote, signature_valid, r));
        match &r {
            Ok(Some(c)) => {
                self.dag.push(CertRef { round: c.round, digest: c.digest });
                self.advance(c.round);
            },
            _ => {},
        }
        assert(tallied(
            old(self).aggregator().votes(),
            t,
            old(self).committee(),
            old(self).aggregator().watermark(),
            vote,
            signature_valid,
            r,
        ));
        r
    }

    /// Takes a timeout. A new quorum of timeouts moves the round past the
    /// timed-out one.
    pub fn process_timeout(&mut self, timeout: Timeout, signature_valid: bool) -> (r: Result<
        Option<Certificate>,
        AggregatorError,
    >)
        requires
            old(self).wf(),
        ensures
            final(self).wf(),
            final(self).name() == old(self).name(),
            final(self).committee() == old(self).committee(),
            final(self).dag() == old(self).dag(),
            exists|t: Seq<Vote>|
                tallied(
                    old(self).aggregator().timeouts(),
                    t,
                    old(self).committee(),
                    old(self).aggregator().watermark(),
                    timeout_as_vote(timeout),
                    signature_valid,
                    r,
                ),
            r matches Ok(Some(c)) ==> final(self).round() == advanced(old(self).round(), c.round),
            !(r matches Ok(Some(_))) ==> final(self).round() == old(self).round(),
    {
        let ghost before = self.aggregator();
        let r = self.aggregator.add_timeout(timeout, signature_valid);
        let ghost t = self.aggregator().timeouts();
        assert(tallied(
            before.timeouts(),
            t,
            before.committee(),
            before.watermark(),
            timeout_as_vote(timeout),
            signature_valid,
            r,
        ));
        match &r {
            Ok(Some(c)) => {
                self.advance(c.round);
            },
            _ => {},
        }
        assert(tallied(
            old(self).aggregator().timeouts(),
            t,
            old(self).committee(),
            old(self).aggregator().watermark(),
            timeout_as_vote(timeout),
            signature_valid,
            r,
        ));
        r
    }
}

} // verus!
