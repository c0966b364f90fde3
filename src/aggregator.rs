//! Accumulates votes and timeouts per (round, digest) and forms a quorum
//! certificate the first time a quorum of distinct authorities is reached.
use vstd::prelude::*;
use crate::committee::{Committee, quorum};
use crate::types::{Digest, PublicKey, Round, Signature, keys_equal, digests_equal};

verus! {

/// One authority's endorsement of a digest in a round.
#[derive(Clone, Copy, Debug, PartialEq, Eq)]
pub struct Vote {
    pub digest: Digest,
    pub round: Round,
    pub author: PublicKey,
    pub signature: Signature,
}

/// Round-change evidence: an authority gives up on `round`, naming the
/// digest of the highest certificate it knows.
#[derive(Clone, Copy, Debug, PartialEq, Eq)]
pub struct Timeout {
    pub high_qc: Digest,
    pub round: Round,
    pub author: PublicKey,
    pub signature: Signature,
}

/// Proof that a quorum of authorities endorsed `digest` in `round`.
#[derive(Clone, Debug)]
pub struct Certificate {
    pub digest: Digest,
    pub round: Round,
    pub votes: Vec<(PublicKey, Signature)>,
}

/// Why a vote or timeout was rejected.
#[derive(Clone, Copy, Debug, PartialEq, Eq)]
pub enum AggregatorError {
    /// The author is not a committee member.
    UnknownAuthority,
    /// The signature does not verify under the author's key.
    InvalidSignature,
    /// The author already endorsed another digest in this round.
    DuplicateVote,
}

/// Number of entries of `s` that satisfy `f`.
pub open spec fn count_where(s: Seq<Vote>, f: spec_fn(Vote) -> bool) -> nat
    decreases s.len(),
{
    if s.len() == 0 {
        0
    } else {
        count_where(s.drop_last(), f) + if f(s.last()) {
            1nat
        } else {
            0nat
        }
    }
}

/// Number of recorded endorsements of `digest` in `round`.
pub open spec fn votes_for(s: Seq<Vote>, round: Round, digest: Digest) -> nat {
    count_where(s, |v: Vote| v.round == round && v.digest == digest)
}

/// Number of recorded endorsements by `author` in `round`.
pub open spec fn votes_by(s: Seq<Vote>, round: Round, author: PublicKey) -> nat {
    count_where(s, |v: Vote| v.round == round && v.author == author)
}

/// `author` has an endorsement of `digest` recorded in `round`.
pub open spec fn voted_for(s: Seq<Vote>, round: Round, author: PublicKey, digest: Digest) -> bool {
    exists|i: int|
        0 <= i < s.len() && s[i].round == round && s[i].author == author && s[i].digest == digest
}

/// The signature shares of the endorsements of `digest` in `round`, in order of arrival.
pub open spec fn shares_for(s: Seq<Vote>, round: Round, digest: Digest) -> Seq<(PublicKey, Signature)>
    decreases s.len(),
{
    if s.len() == 0 {
        Seq::empty()
    } else {
        let rest = shares_for(s.drop_last(), round, digest);
        if s.last().round == round && s.last().digest == digest {
            rest.push((s.last().author, s.last().signature))
        } else {
            rest
        }
    }
}

/// The entries of `s` whose round is at least `from`, in order.
pub open spec fn retain_from(s: Seq<Vote>, from: Round) -> Seq<Vote>
    decreases s.len(),
{
    if s.len() == 0 {
        Seq::empty()
    } else {
        let rest = retain_from(s.drop_last(), from);
        if s.last().round >= from {
            rest.push(s.last())
        } else {
            rest
        }
    }
}

/// At most one endorsement per (round, author), none below the watermark.
pub open spec fn tally_wf(s: Seq<Vote>, watermark: Round) -> bool {
    &&& forall|r: Round, a: PublicKey| #[trigger] votes_by(s, r, a) <= 1
    &&& forall|i: int| 0 <= i < s.len() ==> s[i].round >= watermark
}

/// What adding `v` to the tally `s` does, given the committee `c`, the
/// watermark `w` and whether the signature verified: the new tally `t` and
/// the result `r`.
pub open spec fn tallied(
    s: Seq<Vote>,
    t: Seq<Vote>,
    c: Committee,
    w: Round,
    v: Vote,
    signature_valid: bool,
    r: Result<Option<Certificate>, AggregatorError>,
) -> bool {
    let fresh = v.round >= w && c.keys().contains(v.author) && signature_valid
        && votes_by(s, v.round, v.author) == 0;
    &&& v.round < w ==> r == Ok::<Option<Certificate>, AggregatorError>(None)
    &&& (v.round >= w && !c.keys().contains(v.author)) ==> r == Err::<
        Option<Certificate>,
        AggregatorError,
    >(AggregatorError::UnknownAuthority)
    &&& (v.round >= w && c.keys().contains(v.author) && !signature_valid) ==> r == Err::<
        Option<Certificate>,
        AggregatorError,
    >(AggregatorError::InvalidSignature)
    &&& (v.round >= w && c.keys().contains(v.author) && signature_valid && votes_by(
        s,
        v.round,
        v.author,
    ) > 0) ==> (r == if voted_for(s, v.round, v.author, v.digest) {
        Ok::<Option<Certificate>, AggregatorError>(None)
    } else {
        Err::<Option<Certificate>, AggregatorError>(AggregatorError::DuplicateVote)
    })
    &&& !fresh ==> t == s
    &&& fresh ==> t == s.push(v)
    &&& fresh ==> (r is Ok && (r->Ok_0 is Some <==> votes_for(s, v.round, v.digest) + 1 == quorum(
        c.members().len() as int,
    )))
    &&& r matches Ok(Some(cert)) ==> cert.digest == v.digest && cert.round == v.round
        && cert.votes@ == shares_for(t, v.round, v.digest)
}

/// Appending one entry adds one to the count exactly when it satisfies `f`.
pub proof fn lemma_count_push(s: Seq<Vote>, v: Vote, f: spec_fn(Vote) -> bool)
    ensures
        count_where(s.push(v), f) == count_where(s, f) + if f(v) {
            1nat
        } else {
            0nat
        },
{
    assert(s.push(v).drop_last() =~= s);
}

/// The count is positive exactly when some entry satisfies `f`.
pub proof fn lemma_count_positive(s: Seq<Vote>, f: spec_fn(Vote) -> bool)
    ensures
        count_where(s, f) > 0 <==> exists|i: int| 0 <= i < s.len() && f(s[i]),
    decreases s.len(),
{
    if s.len() > 0 {
        lemma_count_positive(s.drop_last(), f);
        if exists|i: int| 0 <= i < s.drop_last().len() && f(s.drop_last()[i]) {
            let i = choose|i: int| 0 <= i < s.drop_last().len() && f(s.drop_last()[i]);
            assert(f(s[i]));
        }
        if exists|i: int| 0 <= i < s.len() && f(s[i]) {
            let i = choose|i: int| 0 <= i < s.len() && f(s[i]);
            if i < s.len() - 1 {
                assert(f(s.drop_last()[i]));
            }
        }
    }
}

/// Nothing that `retain_from` keeps lies below its bound, and the counts of
/// entries at or above it are unchanged.
pub proof fn lemma_retain(s: Seq<Vote>, from: Round, f: spec_fn(Vote) -> bool)
    ensures
        forall|i: int| 0 <= i < retain_from(s, from).len() ==> retain_from(s, from)[i].round >= from,
        (forall|v: Vote| f(v) ==> v.round >= from) ==> count_where(retain_from(s, from), f)
            == count_where(s, f),
        (forall|v: Vote| f(v) ==> v.round < from) ==> count_where(retain_from(s, from), f) == 0,
    decreases s.len(),
{
    if s.len() > 0 {
        lemma_retain(s.drop_last(), from, f);
        let rest = retain_from(s.drop_last(), from);
        if s.last().round >= from {
            lemma_count_push(rest, s.last(), f);
        }
    }
}

/// Counts the endorsements of `digest` in `round`.
fn count_votes(s: &Vec<Vote>, round: Round, digest: &Digest) -> (r: usize)
    ensures
        r == votes_for(s@, round, *digest),
{
    let mut i: usize = 0;
    let mut n: usize = 0;
    while i < s.len()
        invariant
            0 <= i <= s@.len(),
            n == votes_for(s@.take(i as int), round, *digest),
            n <= i,
        decreases s@.len() - i,
    {
        proof {
            assert(s@.take(i + 1) =~= s@.take(i as int).push(s@[i as int]));
            lemma_count_push(s@.take(i as int), s@[i as int], |v: Vote| v.round == round && v.digest == *digest);
        }
        if s[i].round == round && digests_equal(&s[i].digest, digest) {
            n = n + 1;
        }
        i = i + 1;
    }
    assert(s@.take(s@.len() as int) =~= s@);
    n
}

/// Collects the signature shares of the endorsements of `digest` in `round`.
fn collect_shares(s: &Vec<Vote>, round: Round, digest: &Digest) -> (r: Vec<(PublicKey, Signature)>)
    ensures
        r@ == shares_for(s@, round, *digest),
{
    let mut i: usize = 0;
    let mut out: Vec<(PublicKey, Signature)> = Vec::new();
    while i < s.len()
        invariant
            0 <= i <= s@.len(),
            out@ == shares_for(s@.take(i as int), round, *digest),
        decreases s@.len() - i,
    {
        proof {
            assert(s@.take(i + 1).drop_last() =~= s@.take(i as int));
        }
        if s[i].round == round && digests_equal(&s[i].digest, digest) {
            out.push((s[i].author, s[i].signature));
        }
        i = i + 1;
    }
    assert(s@.take(s@.len() as int) =~= s@);
    out
}

/// Keeps the entries whose round is at least `from`.
fn retain_rounds(s: &mut Vec<Vote>, from: Round)
    ensures
        final(s)@ == retain_from(old(s)@, from),
{
    let mut i: usize = 0;
    let mut out: Vec<Vote> = Vec::new();
    while i < s.len()
        invariant
            0 <= i <= s@.len(),
            out@ == retain_from(s@.take(i as int), from),
        decreases s@.len() - i,
    {
        proof {
            assert(s@.take(i + 1).drop_last() =~= s@.take(i as int));
        }
        if s[i].round >= from {
            out.push(s[i]);
        }
        i = i + 1;
    }
    assert(s@.take(s@.len() as int) =~= s@);
    *s = out;
}

/// Cleans a tally below `from`, keeping it well formed.
fn clean_tally(s: &mut Vec<Vote>, watermark: Round, from: Round)
    requires
        tally_wf(old(s)@, watermark),
        from >= watermark,
    ensures
        final(s)@ == retain_from(old(s)@, from),
        tally_wf(final(s)@, from),
{
    let ghost before = s@;
    retain_rounds(s, from);
    proof {
        assert forall|r: Round, a: PublicKey| #[trigger] votes_by(s@, r, a) <= 1 by {
            let f = |v: Vote| v.round == r && v.author == a;
            lemma_retain(before, from, f);
            assert(votes_by(before, r, a) <= 1);
        }
        lemma_retain(before, from, |v: Vote| true);
    }
}

/// Adds `v` to the tally `s`.
#[verifier::loop_isolation(false)]
fn add_to_tally(
    s: &mut Vec<Vote>,
    committee: &Committee,
    watermark: Round,
    v: Vote,
    signature_valid: bool,
) -> (r: Result<Option<Certificate>, AggregatorError>)
    requires
        committee.wf(),
        tally_wf(old(s)@, watermark),
    ensures
        tally_wf(final(s)@, watermark),
        tallied(old(s)@, final(s)@, *committee, watermark, v, signature_valid, r),
{
    if v.round < watermark {
        return Ok(None);
    }
    if !committee.contains(&v.author) {
        return Err(AggregatorError::UnknownAuthority);
    }
    if !signature_valid {
        return Err(AggregatorError::InvalidSignature);
    }
    let ghost by_author = |x: Vote| x.round == v.round && x.author == v.author;
    let mut i: usize = 0;
    while i < s.len()
        invariant
            0 <= i <= s@.len(),
            forall|j: int| 0 <= j < i ==> !by_author(s@[j]),
        decreases s@.len() - i,
    {
        if s[i].round == v.round && keys_equal(&s[i].author, &v.author) {
            proof {
                lemma_count_positive(s@, by_author);
            }
            if digests_equal(&s[i].digest, &v.digest) {
                assert(voted_for(s@, v.round, v.author, v.digest));
                return Ok(None);
            } else {
                proof {
                    if voted_for(s@, v.round, v.author, v.digest) {
                        let j = choose|j: int|
                            0 <= j < s@.len() && s@[j].round == v.round && s@[j].author == v.author
                                && s@[j].digest == v.digest;
                        lemma_at_most_one(s@, watermark, v.round, v.author, i as int, j);
                    }
                }
                return Err(AggregatorError::DuplicateVote);
            }
        }
        i = i + 1;
    }
    proof {
        lemma_count_positive(s@, by_author);
    }
    let before = count_votes(s, v.round, &v.digest);
    let ghost old_s = s@;
    let quorum_size = committee.quorum_threshold();
    s.push(v);
    proof {
        assert forall|r: Round, a: PublicKey| #[trigger] votes_by(s@, r, a) <= 1 by {
            lemma_count_push(old_s, v, |x: Vote| x.round == r && x.author == a);
            assert(votes_by(old_s, r, a) <= 1);
        }
    }
    if before == quorum_size - 1 {
        let shares = collect_shares(s, v.round, &v.digest);
        Ok(Some(Certificate { digest: v.digest, round: v.round, votes: shares }))
    } else {
        Ok(None)
    }
}

/// In a well-formed tally, two entries by one author in one round are the same entry.
proof fn lemma_at_most_one(s: Seq<Vote>, watermark: Round, round: Round, author: PublicKey, i: int, j: int)
    requires
        tally_wf(s, watermark),
        0 <= i < s.len(),
        0 <= j < s.len(),
        s[i].round == round && s[i].author == author,
        s[j].round == round && s[j].author == author,
    ensures
        i == j,
    decreases s.len(),
{
    let f = |x: Vote| x.round == round && x.author == author;
    assert(votes_by(s, round, author) <= 1);
    if i != j {
        lemma_two_counted(s, f, i, j);
    }
}

/// Two distinct entries that satisfy `f` make a count of at least two.
proof fn lemma_two_counted(s: Seq<Vote>, f: spec_fn(Vote) -> bool, i: int, j: int)
    requires
        0 <= i < s.len(),
        0 <= j < s.len(),
        i != j,
        f(s[i]),
        f(s[j]),
    ensures
        count_where(s, f) >= 2,
    decreases s.len(),
{
    let last = s.len() - 1;
    if i == last || j == last {
        let k = if i == last { j } else { i };
        lemma_count_positive(s.drop_last(), f);
        assert(f(s.drop_last()[k]));
    } else {
        lemma_two_counted(s.drop_last(), f, i, j);
    }
}

/// Accumulates votes on headers and round-change timeouts for one committee.
pub struct Aggregator {
    committee: Committee,
    watermark: Round,
    votes: Vec<Vote>,
    timeouts: Vec<Vote>,
}

impl Aggregator {
    pub closed spec fn committee(&self) -> Committee {
        self.committee
    }

    /// Rounds below this are no longer tallied.
    pub closed spec fn watermark(&self) -> Round {
        self.watermark
    }

    /// The recorded votes, in order of arrival.
    pub closed spec fn votes(&self) -> Seq<Vote> {
        self.votes@
    }

    /// The recorded timeouts, as endorsements of their `high_qc`, in order of arrival.
    pub closed spec fn timeouts(&self) -> Seq<Vote> {
        self.timeouts@
    }

    pub open spec fn wf(&self) -> bool {
        &&& self.committee().wf()
        &&& tally_wf(self.votes(), self.watermark())
        &&& tally_wf(self.timeouts(), self.watermark())
    }

    /// An empty aggregator for `committee`.
    pub fn new(committee: Committee) -> (r: Self)
        requires
            committee.wf(),
        ensures
            r.wf(),
            r.committee() == committee,
            r.watermark() == 0,
            r.votes() == Seq::<Vote>::empty(),
            r.timeouts() == Seq::<Vote>::empty(),
    {
        let r = Aggregator { committee, watermark: 0, votes: Vec::new(), timeouts: Vec::new() };
        proof {
            assert forall|x: Round, a: PublicKey| #[trigger] votes_by(r.votes@, x, a) <= 1 by {}
        }
        r
    }

    /// Records a vote. `signature_valid` tells whether `vote.signature`
    /// verifies under `vote.author`'s key over `vote.digest`.
    pub fn add_vote(&mut self, vote: Vote, signature_valid: bool) -> (r: Result<
        Option<Certificate>,
        AggregatorError,
    >)
        requires
            old(self).wf(),
        ensures
            final(self).wf(),
            final(self).committee() == old(self).committee(),
            final(self).watermark() == old(self).watermark(),
            final(self).timeouts() == old(self).timeouts(),
            tallied(
                old(self).votes(),
                final(self).votes(),
                old(self).committee(),
                old(self).watermark(),
                vote,
                signature_valid,
                r,
            ),
    {
        add_to_tally(&mut self.votes, &self.committee, self.watermark, vote, signature_valid)
    }

    /// Records a timeout. `signature_valid` tells whether its signature
    /// verifies under its author's key.
    pub fn add_timeout(&mut self, timeout: Timeout, signature_valid: bool) -> (r: Result<
        Option<Certificate>,
        AggregatorError,
    >)
        requires
            old(self).wf(),
        ensures
            final(self).wf(),
            final(self).committee() == old(self).committee(),
            final(self).watermark() == old(self).watermark(),
            final(self).votes() == old(self).votes(),
            tallied(
                old(self).timeouts(),
                final(self).timeouts(),
                old(self).committee(),
                old(self).watermark(),
                timeout_as_vote(timeout),
                signature_valid,
                r,
            ),
    {
        let v = Vote {
            digest: timeout.high_qc,
            round: timeout.round,
            author: timeout.author,
            signature: timeout.signature,
        };
        add_to_tally(&mut self.timeouts, &self.committee, self.watermark, v, signature_valid)
    }

    /// Discards every vote and timeout of a round below `round`; later
    /// messages for such rounds are ignored.
    pub fn cleanup(&mut self, round: Round)
        requires
            old(self).wf(),
        ensures
            final(self).wf(),
            final(self).committee() == old(self).committee(),
            final(self).watermark() == if round > old(self).watermark() {
                round
            } else {
                old(self).watermark()
            },
            final(self).votes() == retain_from(old(self).votes(), round),
            final(self).timeouts() == retain_from(old(self).timeouts(), round),
            forall|i: int| 0 <= i < final(self).votes().len() ==> final(self).votes()[i].round >= round,
            forall|i: int|
                0 <= i < final(self).timeouts().len() ==> final(self).timeouts()[i].round >= round,
    {
        if round > self.watermark {
            clean_tally(&mut self.votes, self.watermark, round);
            clean_tally(&mut self.timeouts, self.watermark, round);
            self.watermark = round;
        } else {
            proof {
                lemma_retain_above(self.votes@, round, self.watermark);
                lemma_retain_above(self.timeouts@, round, self.watermark);
            }
        }
    }

    /// The committee whose votes are tallied.
    pub fn committee_ref(&self) -> (r: &Committee)
        ensures
            *r == self.committee(),
    {
        &self.committee
    }

    /// Number of votes held.
    pub fn pending_votes(&self) -> (r: usize)
        ensures
            r == self.votes().len(),
    {
        self.votes.len()
    }

    /// Number of timeouts held.
    pub fn pending_timeouts(&self) -> (r: usize)
        ensures
            r == self.timeouts().len(),
    {
        self.timeouts.len()
    }

    /// Number of recorded votes for `digest` in `round`.
    pub fn vote_count(&self, round: Round, digest: &Digest) -> (r: usize)
        ensures
            r == votes_for(self.votes(), round, *digest),
    {
        count_votes(&self.votes, round, digest)
    }
}

/// A timeout seen as an endorsement of its `high_qc` in its round.
pub open spec fn timeout_as_vote(t: Timeout) -> Vote {
    Vote { digest: t.high_qc, round: t.round, author: t.author, signature: t.signature }
}

/// Retaining from a bound that every entry already meets keeps everything.
proof fn lemma_retain_above(s: Seq<Vote>, from: Round, watermark: Round)
    requires
        from <= watermark,
        forall|i: int| 0 <= i < s.len() ==> s[i].round >= watermark,
    ensures
        retain_from(s, from) == s,
    decreases s.len(),
{
    if s.len() > 0 {
        lemma_retain_above(s.drop_last(), from, watermark);
        assert(s.drop_last().push(s.last()) =~= s);
    }
}

/// Each share of `shares_for(s, round, digest)` comes from an entry of `s`
/// by that author for that round and digest; there are as many shares as
/// such entries.
pub proof fn lemma_shares_from(s: Seq<Vote>, round: Round, digest: Digest)
    ensures
        shares_for(s, round, digest).len() == votes_for(s, round, digest),
        forall|k: int|
            0 <= k < shares_for(s, round, digest).len() ==> exists|i: int|
                0 <= i < s.len() && s[i].round == round && s[i].digest == digest && s[i].author
                    == #[trigger] shares_for(s, round, digest)[k].0,
    decreases s.len(),
{
    if s.len() > 0 {
        let s0 = s.drop_last();
        lemma_shares_from(s0, round, digest);
        lemma_count_push(s0, s.last(), |v: Vote| v.round == round && v.digest == digest);
        assert(s0.push(s.last()) =~= s);
        let sh = shares_for(s, round, digest);
        let sh0 = shares_for(s0, round, digest);
        assert forall|k: int| 0 <= k < sh.len() implies exists|i: int|
            0 <= i < s.len() && s[i].round == round && s[i].digest == digest && s[i].author
                == #[trigger] sh[k].0 by {
            if k < sh0.len() {
                assert(sh[k] == sh0[k]);
                let i = choose|i: int|
                    0 <= i < s0.len() && s0[i].round == round && s0[i].digest == digest && s0[i].author
                        == #[trigger] sh0[k].0;
                assert(s[i] == s0[i]);
            } else {
                assert(s[s.len() - 1] == s.last());
            }
        }
    }
}

/// In a well-formed tally the shares for one (round, digest) have pairwise
/// distinct authors.
pub proof fn lemma_shares_distinct(s: Seq<Vote>, watermark: Round, round: Round, digest: Digest)
    requires
        tally_wf(s, watermark),
    ensures
        forall|k: int, m: int|
            0 <= k < m < shares_for(s, round, digest).len() ==> shares_for(s, round, digest)[k].0
                != shares_for(s, round, digest)[m].0,
    decreases s.len(),
{
    if s.len() > 0 {
        let s0 = s.drop_last();
        let last = s.last();
        assert(s0.push(last) =~= s);
        assert forall|r: Round, a: PublicKey| #[trigger] votes_by(s0, r, a) <= 1 by {
            lemma_count_push(s0, last, |x: Vote| x.round == r && x.author == a);
            assert(votes_by(s, r, a) <= 1);
        }
        assert forall|i: int| 0 <= i < s0.len() implies s0[i].round >= watermark by {
            assert(s0[i] == s[i]);
        }
        lemma_shares_distinct(s0, watermark, round, digest);
        lemma_shares_from(s0, round, digest);
        let sh = shares_for(s, round, digest);
        let sh0 = shares_for(s0, round, digest);
        if last.round == round && last.digest == digest {
            assert forall|k: int, m: int| 0 <= k < m < sh.len() implies sh[k].0 != sh[m].0 by {
                if m == sh.len() - 1 {
                    assert(sh[k] == sh0[k]);
                    if sh0[k].0 == last.author {
                        let i = choose|i: int|
                            0 <= i < s0.len() && s0[i].round == round && s0[i].digest == digest
                                && s0[i].author == #[trigger] sh0[k].0;
                        let f = |x: Vote| x.round == round && x.author == last.author;
                        lemma_count_positive(s0, f);
                        lemma_count_push(s0, last, f);
                        assert(f(s0[i]));
                        assert(votes_by(s, round, last.author) <= 1);
                    }
                } else {
                    assert(sh[k] == sh0[k] && sh[m] == sh0[m]);
                }
            }
        }
    }
}

/// A certificate comes out of an addition exactly when the count of distinct
/// authorities endorsing that (round, digest) goes from below the quorum to
/// the quorum; it then holds one share from each of them, a quorum of
/// distinct committee members.
pub proof fn lemma_quorum_threshold(
    s: Seq<Vote>,
    t: Seq<Vote>,
    c: Committee,
    w: Round,
    v: Vote,
    signature_valid: bool,
    r: Result<Option<Certificate>, AggregatorError>,
)
    requires
        c.wf(),
        tally_wf(s, w),
        tally_wf(t, w),
        tallied(s, t, c, w, v, signature_valid, r),
    ensures
        (r matches Ok(Some(_))) <==> (votes_for(s, v.round, v.digest) < quorum(c.members().len() as int)
            && votes_for(t, v.round, v.digest) >= quorum(c.members().len() as int)),
        r matches Ok(Some(cert)) ==> {
            &&& cert.votes@.len() == quorum(c.members().len() as int)
            &&& forall|k: int, m: int|
                0 <= k < m < cert.votes@.len() ==> cert.votes@[k].0 != cert.votes@[m].0
        },
{
    let f = |x: Vote| x.round == v.round && x.digest == v.digest;
    if t == s.push(v) {
        lemma_count_push(s, v, f);
    }
    lemma_shares_from(t, v.round, v.digest);
    lemma_shares_distinct(t, w, v.round, v.digest);
}

/// Once a quorum has endorsed a (round, digest), further additions never
/// yield another certificate for it, and the quorum stays recorded.
pub proof fn lemma_no_double_certification(
    s: Seq<Vote>,
    t: Seq<Vote>,
    c: Committee,
    w: Round,
    v: Vote,
    signature_valid: bool,
    r: Result<Option<Certificate>, AggregatorError>,
)
    requires
        c.wf(),
        tallied(s, t, c, w, v, signature_valid, r),
        votes_for(s, v.round, v.digest) >= quorum(c.members().len() as int),
    ensures
        !(r matches Ok(Some(_))),
        votes_for(t, v.round, v.digest) >= quorum(c.members().len() as int),
{
    if t == s.push(v) {
        lemma_count_push(s, v, |x: Vote| x.round == v.round && x.digest == v.digest);
    }
}

/// An authority that endorsed one digest in a round cannot then endorse
/// another in that round: the second is rejected, as an equivocation where
/// it is otherwise admissible, and counts toward nothing.
pub proof fn lemma_equivocation_rejected(
    s: Seq<Vote>,
    t: Seq<Vote>,
    c: Committee,
    w: Round,
    v: Vote,
    signature_valid: bool,
    r: Result<Option<Certificate>, AggregatorError>,
    first: Digest,
)
    requires
        tally_wf(s, w),
        tallied(s, t, c, w, v, signature_valid, r),
        voted_for(s, v.round, v.author, first),
        first != v.digest,
    ensures
        r is Err,
        t == s,
        votes_for(t, v.round, v.digest) == votes_for(s, v.round, v.digest),
        (c.keys().contains(v.author) && signature_valid) ==> r == Err::<Option<Certificate>, AggregatorError>(
            AggregatorError::DuplicateVote,
        ),
{
    let i = choose|i: int|
        0 <= i < s.len() && s[i].round == v.round && s[i].author == v.author && s[i].digest == first;
    let f = |x: Vote| x.round == v.round && x.author == v.author;
    lemma_count_positive(s, f);
    assert(f(s[i]));
    if voted_for(s, v.round, v.author, v.digest) {
        let j = choose|j: int|
            0 <= j < s.len() && s[j].round == v.round && s[j].author == v.author && s[j].digest == v.digest;
        lemma_at_most_one(s, w, v.round, v.author, i, j);
    }
}

/// A vote or timeout for a round below the watermark changes nothing and is
/// not an error.
pub proof fn lemma_stale_ignored(
    s: Seq<Vote>,
    t: Seq<Vote>,
    c: Committee,
    w: Round,
    v: Vote,
    signature_valid: bool,
    r: Result<Option<Certificate>, AggregatorError>,
)
    requires
        tallied(s, t, c, w, v, signature_valid, r),
        v.round < w,
    ensures
        t == s,
        r == Ok::<Option<Certificate>, AggregatorError>(None),
{
}

} // verus!
