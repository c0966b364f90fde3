use sailfish::committee::{Address, Authority, Committee};
use sailfish::leader::RRLeaderElector;
use sailfish::types::PublicKey;

fn key(first: u8) -> PublicKey {
    let mut bytes = [0u8; 32];
    bytes[0] = first;
    PublicKey { bytes }
}

fn authority(first: u8) -> Authority {
    Authority { name: key(first), primary: Address { ip: [0u8; 16], port: first as u16 }, workers: vec![] }
}

fn committee(order: &[u8]) -> Committee {
    Committee::new(order.iter().map(|k| authority(*k)).collect()).unwrap()
}

#[test]
fn leader_is_round_mod_size_in_key_order() {
    let e = RRLeaderElector::new(committee(&[40, 10, 30, 20]));
    assert_eq!(e.get_leader(0), key(10));
    assert_eq!(e.get_leader(1), key(20));
    assert_eq!(e.get_leader(2), key(30));
    assert_eq!(e.get_leader(3), key(40));
    assert_eq!(e.get_leader(5), key(20));
    assert_eq!(e.get_leader(u64::MAX), key(40));
}

#[test]
fn leader_is_deterministic_and_a_member() {
    let a = RRLeaderElector::new(committee(&[3, 1, 2]));
    let b = RRLeaderElector::new(committee(&[2, 3, 1]));
    for round in 0..20u64 {
        let l = a.get_leader(round);
        assert_eq!(l, a.get_leader(round));
        assert_eq!(l, b.get_leader(round));
        assert!([key(1), key(2), key(3)].contains(&l));
    }
}

#[test]
fn each_authority_leads_once_per_rotation() {
    let e = RRLeaderElector::new(committee(&[5, 9, 1, 7]));
    for start in [0u64, 1, 2, 3, 17, 1000] {
        let mut seen: Vec<PublicKey> = (start..start + 4).map(|r| e.get_leader(r)).collect();
        seen.sort();
        assert_eq!(seen, vec![key(1), key(5), key(7), key(9)]);
    }
}

#[test]
fn single_member_always_leads() {
    let e = RRLeaderElector::new(committee(&[8]));
    assert_eq!(e.size(), 1);
    assert_eq!(e.quorum_threshold(), 1);
    for round in 0..5u64 {
        assert_eq!(e.get_leader(round), key(8));
    }
}
