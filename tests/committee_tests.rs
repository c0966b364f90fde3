use sailfish::committee::{Address, Authority, Committee, CommitteeError, ConfigError, WorkerAddresses, WorkerInfo};
use sailfish::types::PublicKey;

fn key(first: u8) -> PublicKey {
    let mut bytes = [0u8; 32];
    bytes[0] = first;
    bytes[31] = 7;
    PublicKey { bytes }
}

fn addr(port: u16) -> Address {
    let mut ip = [0u8; 16];
    ip[15] = 1;
    Address { ip, port }
}

fn authority(first: u8, worker_ids: &[u32]) -> Authority {
    let workers = worker_ids
        .iter()
        .map(|id| WorkerInfo {
            id: *id,
            addresses: WorkerAddresses {
                transactions: addr(1000 * first as u16 + 10 * *id as u16),
                worker_to_worker: addr(1000 * first as u16 + 10 * *id as u16 + 1),
            },
        })
        .collect();
    Authority { name: key(first), primary: addr(1000 * first as u16), workers }
}

#[test]
fn empty_committee_is_refused() {
    assert_eq!(Committee::new(vec![]).err(), Some(CommitteeError::Empty));
}

#[test]
fn duplicate_authority_is_refused() {
    let r = Committee::new(vec![authority(1, &[0]), authority(2, &[0]), authority(1, &[1])]);
    assert_eq!(r.err(), Some(CommitteeError::DuplicateAuthority));
}

#[test]
fn duplicate_worker_is_refused() {
    let r = Committee::new(vec![authority(1, &[0, 0]), authority(1, &[0])]);
    assert_eq!(r.err(), Some(CommitteeError::DuplicateWorker));
}

#[test]
fn members_are_held_in_key_order() {
    let c = Committee::new(vec![authority(9, &[0]), authority(3, &[0]), authority(5, &[0])]).unwrap();
    assert_eq!(c.size(), 3);
    assert_eq!(c.names(), vec![key(3), key(5), key(9)]);
}

#[test]
fn key_order_is_bytewise() {
    let mut late_first = [0u8; 32];
    late_first[0] = 1;
    let mut early_first = [0u8; 32];
    early_first[0] = 0;
    early_first[1] = 255;
    let a = Authority { name: PublicKey { bytes: late_first }, primary: addr(1), workers: vec![] };
    let b = Authority { name: PublicKey { bytes: early_first }, primary: addr(2), workers: vec![] };
    let c = Committee::new(vec![a, b]).unwrap();
    assert_eq!(c.names(), vec![PublicKey { bytes: early_first }, PublicKey { bytes: late_first }]);
}

#[test]
fn quorum_threshold_is_two_thirds_plus_one() {
    let sizes_and_quorums = [(1u8, 1usize), (2, 2), (3, 3), (4, 3), (5, 4), (7, 5), (10, 7)];
    for (n, q) in sizes_and_quorums {
        let auths = (1..=n).map(|i| authority(i, &[0])).collect();
        let c = Committee::new(auths).unwrap();
        assert_eq!(c.quorum_threshold(), q, "size {}", n);
    }
}

#[test]
fn worker_lookup() {
    let c = Committee::new(vec![authority(1, &[0, 2]), authority(2, &[0])]).unwrap();
    let w = c.worker(&key(1), 2).unwrap();
    assert_eq!(w.worker_to_worker, addr(1021));
    assert_eq!(w.transactions, addr(1020));
    assert_eq!(c.worker(&key(3), 0).err(), Some(ConfigError::NotInCommittee));
    assert_eq!(c.worker(&key(2), 1).err(), Some(ConfigError::UnknownWorker));
    assert!(c.contains(&key(2)));
    assert!(!c.contains(&key(4)));
    assert_eq!(c.index_of(&key(2)), Some(1));
}
