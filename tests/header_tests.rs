use sailfish::committee::{Address, Authority, Committee};
use sailfish::header::{missing_batches, validate_header, CertRef, Header, HeaderError};
use sailfish::types::{Digest, PublicKey, Signature};

fn key(first: u8) -> PublicKey {
    let mut bytes = [0u8; 32];
    bytes[0] = first;
    PublicKey { bytes }
}

fn digest(b: u8) -> Digest {
    Digest { bytes: [b; 32] }
}

fn committee() -> Committee {
    let auths = (1..=4u8)
        .map(|i| Authority { name: key(i), primary: Address { ip: [0u8; 16], port: i as u16 }, workers: vec![] })
        .collect();
    Committee::new(auths).unwrap()
}

fn header(author: u8, round: u64, parents: &[u8]) -> Header {
    Header {
        author: key(author),
        round,
        payload: vec![digest(100)],
        parents: parents.iter().map(|p| digest(*p)).collect(),
        signature: Signature { bytes: [0; 64] },
    }
}

fn known() -> Vec<CertRef> {
    vec![
        CertRef { round: 0, digest: digest(1) },
        CertRef { round: 0, digest: digest(2) },
        CertRef { round: 0, digest: digest(3) },
        CertRef { round: 1, digest: digest(4) },
    ]
}

#[test]
fn genesis_header_from_leader_is_valid() {
    assert_eq!(validate_header(&committee(), &header(1, 0, &[]), &vec![], true), Ok(()));
}

#[test]
fn wrong_leader_rejected_whatever_the_signature() {
    let c = committee();
    assert_eq!(validate_header(&c, &header(2, 0, &[]), &known(), true), Err(HeaderError::WrongLeader));
    assert_eq!(validate_header(&c, &header(2, 0, &[]), &known(), false), Err(HeaderError::WrongLeader));
    assert_eq!(validate_header(&c, &header(1, 1, &[1, 2, 3]), &known(), true), Err(HeaderError::WrongLeader));
}

#[test]
fn quorum_of_parents_accepted() {
    assert_eq!(validate_header(&committee(), &header(2, 1, &[3, 1, 2]), &known(), true), Ok(()));
}

#[test]
fn too_few_parents_rejected() {
    assert_eq!(
        validate_header(&committee(), &header(2, 1, &[1, 2]), &known(), true),
        Err(HeaderError::InvalidParents)
    );
}

#[test]
fn repeated_parent_rejected() {
    assert_eq!(
        validate_header(&committee(), &header(2, 1, &[1, 2, 2]), &known(), true),
        Err(HeaderError::InvalidParents)
    );
}

#[test]
fn parent_from_wrong_round_rejected() {
    assert_eq!(
        validate_header(&committee(), &header(2, 1, &[1, 2, 4]), &known(), true),
        Err(HeaderError::InvalidParents)
    );
}

#[test]
fn unknown_parent_rejected() {
    assert_eq!(
        validate_header(&committee(), &header(2, 1, &[1, 2, 9]), &known(), true),
        Err(HeaderError::InvalidParents)
    );
}

#[test]
fn bad_signature_rejected_last() {
    assert_eq!(
        validate_header(&committee(), &header(2, 1, &[1, 2, 3]), &known(), false),
        Err(HeaderError::InvalidSignature)
    );
}

#[test]
fn missing_batches_in_payload_order() {
    let mut h = header(1, 0, &[]);
    h.payload = vec![digest(5), digest(6), digest(7), digest(8)];
    assert_eq!(missing_batches(&h, &vec![digest(6), digest(9)]), vec![digest(5), digest(7), digest(8)]);
    assert_eq!(missing_batches(&h, &h.payload.clone()), Vec::<Digest>::new());
    assert_eq!(missing_batches(&h, &vec![]), h.payload);
}
