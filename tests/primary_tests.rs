use sailfish::aggregator::{Timeout, Vote};
use sailfish::committee::{Address, Authority, Committee};
use sailfish::header::{CertRef, Header, HeaderError};
use sailfish::primary::Primary;
use sailfish::types::{Digest, PublicKey, Signature};

fn key(first: u8) -> PublicKey {
    let mut bytes = [0u8; 32];
    bytes[0] = first;
    PublicKey { bytes }
}

fn digest(b: u8) -> Digest {
    Digest { bytes: [b; 32] }
}

fn committee() -> Committee {
    let auths = (1..=4u8)
        .map(|i| Authority { name: key(i), primary: Address { ip: [0u8; 16], port: i as u16 }, workers: vec![] })
        .collect();
    Committee::new(auths).unwrap()
}

fn vote(author: u8, round: u64, d: u8) -> Vote {
    Vote { digest: digest(d), round, author: key(author), signature: Signature { bytes: [author; 64] } }
}

#[test]
fn only_the_leader_proposes() {
    let leader = Primary::new(key(1), committee());
    let other = Primary::new(key(2), committee());
    let p = leader.propose(vec![digest(50)]).unwrap();
    assert_eq!(p.author, key(1));
    assert_eq!(p.round, 0);
    assert_eq!(p.payload, vec![digest(50)]);
    assert!(p.parents.is_empty());
    assert!(other.propose(vec![digest(50)]).is_none());
}

#[test]
fn certificate_extends_dag_and_advances_round() {
    let mut p = Primary::new(key(2), committee());
    assert!(p.process_vote(vote(1, 0, 7), true).unwrap().is_none());
    assert!(p.process_vote(vote(3, 0, 7), true).unwrap().is_none());
    assert_eq!(p.current_round(), 0);
    let qc = p.process_vote(vote(4, 0, 7), true).unwrap().unwrap();
    assert_eq!(qc.votes.len(), 3);
    assert_eq!(p.current_round(), 1);
    assert_eq!(p.certificates(), &vec![CertRef { round: 0, digest: digest(7) }]);
    assert_eq!(p.certified_digests(0), vec![digest(7)]);
    let prop = p.propose(vec![]).unwrap();
    assert_eq!(prop.round, 1);
    assert_eq!(prop.parents, vec![digest(7)]);
    assert!(p.process_vote(vote(2, 0, 7), true).unwrap().is_none());
    assert_eq!(p.certificates().len(), 1);
}

#[test]
fn timeout_quorum_advances_round() {
    let mut p = Primary::new(key(1), committee());
    for author in 1..=2u8 {
        let t = Timeout { high_qc: digest(0), round: 0, author: key(author), signature: Signature { bytes: [0; 64] } };
        assert!(p.process_timeout(t, true).unwrap().is_none());
    }
    let t = Timeout { high_qc: digest(0), round: 0, author: key(3), signature: Signature { bytes: [0; 64] } };
    assert!(p.process_timeout(t, true).unwrap().is_some());
    assert_eq!(p.current_round(), 1);
    assert!(p.certificates().is_empty());
}

#[test]
fn header_checks_use_the_dag() {
    let mut p = Primary::new(key(3), committee());
    for author in 1..=3u8 {
        p.process_vote(vote(author, 0, 1), true).unwrap();
    }
    assert_eq!(p.certificates().len(), 1);
    let genesis = Header { author: key(1), round: 0, payload: vec![], parents: vec![], signature: Signature { bytes: [0; 64] } };
    assert_eq!(p.process_header(&genesis, true), Ok(()));
    assert_eq!(p.process_header(&genesis, false), Err(HeaderError::InvalidSignature));
    let h = Header {
        author: key(2),
        round: 1,
        payload: vec![],
        parents: vec![digest(1)],
        signature: Signature { bytes: [0; 64] },
    };
    assert_eq!(p.process_header(&h, true), Err(HeaderError::InvalidParents));
    let mut wrong = h.clone();
    wrong.author = key(3);
    assert_eq!(p.process_header(&wrong, true), Err(HeaderError::WrongLeader));
}
