use sailfish::aggregator::{Aggregator, AggregatorError, Timeout, Vote};
use sailfish::committee::{Address, Authority, Committee};
use sailfish::types::{Digest, PublicKey, Signature};

fn key(first: u8) -> PublicKey {
    let mut bytes = [0u8; 32];
    bytes[0] = first;
    PublicKey { bytes }
}

fn digest(b: u8) -> Digest {
    Digest { bytes: [b; 32] }
}

fn committee(n: u8) -> Committee {
    let auths = (1..=n)
        .map(|i| Authority { name: key(i), primary: Address { ip: [0u8; 16], port: i as u16 }, workers: vec![] })
        .collect();
    Committee::new(auths).unwrap()
}

fn vote(author: u8, round: u64, d: u8) -> Vote {
    Vote { digest: digest(d), round, author: key(author), signature: Signature { bytes: [author; 64] } }
}

fn timeout(author: u8, round: u64) -> Timeout {
    Timeout { high_qc: digest(0), round, author: key(author), signature: Signature { bytes: [author; 64] } }
}

#[test]
fn add_vote_below_quorum() {
    let mut a = Aggregator::new(committee(4));
    let r = a.add_vote(vote(1, 1, 9), true);
    assert!(r.is_ok());
    assert!(r.unwrap().is_none());
    assert_eq!(a.pending_votes(), 1);
    assert_eq!(a.pending_timeouts(), 0);
}

#[test]
fn make_qc_at_two_f_plus_one() {
    let mut a = Aggregator::new(committee(4));
    assert!(a.add_vote(vote(4, 1, 9), true).unwrap().is_none());
    assert!(a.add_vote(vote(3, 1, 9), true).unwrap().is_none());
    assert_eq!(a.vote_count(1, &digest(9)), 2);
    let qc = a.add_vote(vote(2, 1, 9), true).unwrap().unwrap();
    assert_eq!(qc.round, 1);
    assert_eq!(qc.digest, digest(9));
    let authors: Vec<PublicKey> = qc.votes.iter().map(|(k, _)| *k).collect();
    assert_eq!(authors, vec![key(4), key(3), key(2)]);
    assert_eq!(qc.votes[0].1, Signature { bytes: [4; 64] });
}

#[test]
fn two_f_votes_make_no_qc() {
    let mut a = Aggregator::new(committee(7));
    for author in 1..=4u8 {
        assert!(a.add_vote(vote(author, 3, 1), true).unwrap().is_none());
    }
    assert!(a.add_vote(vote(5, 3, 1), true).unwrap().is_some());
}

#[test]
fn no_second_certificate() {
    let mut a = Aggregator::new(committee(4));
    a.add_vote(vote(1, 1, 9), true).unwrap();
    a.add_vote(vote(2, 1, 9), true).unwrap();
    assert!(a.add_vote(vote(3, 1, 9), true).unwrap().is_some());
    assert!(a.add_vote(vote(4, 1, 9), true).unwrap().is_none());
    assert_eq!(a.vote_count(1, &digest(9)), 4);
}

#[test]
fn equivocation_is_rejected() {
    let mut a = Aggregator::new(committee(4));
    assert!(a.add_vote(vote(1, 2, 5), true).unwrap().is_none());
    assert_eq!(a.add_vote(vote(1, 2, 6), true).err(), Some(AggregatorError::DuplicateVote));
    assert_eq!(a.vote_count(2, &digest(6)), 0);
    assert_eq!(a.vote_count(2, &digest(5)), 1);
    a.add_vote(vote(2, 2, 6), true).unwrap();
    assert!(a.add_vote(vote(3, 2, 6), true).unwrap().is_none());
    assert!(a.add_vote(vote(4, 2, 6), true).unwrap().is_some());
}

#[test]
fn repeated_vote_is_harmless() {
    let mut a = Aggregator::new(committee(4));
    a.add_vote(vote(1, 2, 5), true).unwrap();
    assert!(a.add_vote(vote(1, 2, 5), true).unwrap().is_none());
    assert_eq!(a.pending_votes(), 1);
}

#[test]
fn same_author_may_vote_in_other_rounds() {
    let mut a = Aggregator::new(committee(4));
    a.add_vote(vote(1, 2, 5), true).unwrap();
    assert!(a.add_vote(vote(1, 3, 6), true).is_ok());
    assert_eq!(a.pending_votes(), 2);
}

#[test]
fn invalid_signature_is_rejected() {
    let mut a = Aggregator::new(committee(4));
    assert_eq!(a.add_vote(vote(1, 1, 9), false).err(), Some(AggregatorError::InvalidSignature));
    assert_eq!(a.pending_votes(), 0);
}

#[test]
fn unknown_author_is_rejected() {
    let mut a = Aggregator::new(committee(4));
    assert_eq!(a.add_vote(vote(9, 1, 9), true).err(), Some(AggregatorError::UnknownAuthority));
    assert_eq!(a.pending_votes(), 0);
}

#[test]
fn cleanup() {
    let mut a = Aggregator::new(committee(4));
    a.add_vote(vote(1, 1, 9), true).unwrap();
    a.add_vote(vote(2, 3, 9), true).unwrap();
    a.add_timeout(timeout(1, 1), true).unwrap();
    assert_eq!(a.pending_votes(), 2);
    assert_eq!(a.pending_timeouts(), 1);
    a.cleanup(2);
    assert_eq!(a.pending_votes(), 1);
    assert_eq!(a.pending_timeouts(), 0);
    assert_eq!(a.vote_count(1, &digest(9)), 0);
    assert_eq!(a.vote_count(3, &digest(9)), 1);
    assert!(a.add_vote(vote(3, 1, 9), true).unwrap().is_none());
    assert!(a.add_vote(vote(3, 1, 9), false).unwrap().is_none());
    assert_eq!(a.pending_votes(), 1);
    a.cleanup(1);
    assert_eq!(a.pending_votes(), 1);
}

#[test]
fn timeouts_form_a_quorum() {
    let mut a = Aggregator::new(committee(4));
    assert!(a.add_timeout(timeout(1, 5), true).unwrap().is_none());
    assert!(a.add_timeout(timeout(2, 5), true).unwrap().is_none());
    let tc = a.add_timeout(timeout(3, 5), true).unwrap().unwrap();
    assert_eq!(tc.round, 5);
    assert_eq!(tc.votes.len(), 3);
    assert_eq!(a.pending_votes(), 0);
    let mut other = timeout(1, 5);
    other.high_qc = digest(4);
    assert_eq!(a.add_timeout(other, true).err(), Some(AggregatorError::DuplicateVote));
}
