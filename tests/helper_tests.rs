use sailfish::committee::{Address, Authority, Committee, WorkerAddresses, WorkerInfo};
use sailfish::helper::{found_only, Helper, HelperError, StoreRead};
use sailfish::types::PublicKey;

fn key(first: u8) -> PublicKey {
    let mut bytes = [0u8; 32];
    bytes[0] = first;
    PublicKey { bytes }
}

fn addr(port: u16) -> Address {
    Address { ip: [0u8; 16], port }
}

fn committee() -> Committee {
    let auths = (1..=4u8)
        .map(|i| Authority {
            name: key(i),
            primary: addr(i as u16),
            workers: vec![WorkerInfo {
                id: 0,
                addresses: WorkerAddresses { transactions: addr(100 + i as u16), worker_to_worker: addr(200 + i as u16) },
            }],
        })
        .collect();
    Committee::new(auths).unwrap()
}

#[test]
fn serves_found_batches_only() {
    let helper = Helper::new(0, committee());
    let reads = vec![StoreRead::Found(vec![1, 1]), StoreRead::Found(vec![2]), StoreRead::Missing];
    let (to, batches) = helper.reply(&key(3), reads).unwrap();
    assert_eq!(to, addr(203));
    assert_eq!(batches, vec![vec![1, 1], vec![2]]);
}

#[test]
fn store_failures_are_skipped() {
    let helper = Helper::new(0, committee());
    let reads = vec![StoreRead::Failed, StoreRead::Missing, StoreRead::Found(vec![5, 6, 7]), StoreRead::Failed];
    let (_, batches) = helper.reply(&key(1), reads).unwrap();
    assert_eq!(batches, vec![vec![5, 6, 7]]);
}

#[test]
fn empty_request_sends_nothing() {
    let helper = Helper::new(0, committee());
    let (to, batches) = helper.reply(&key(2), vec![]).unwrap();
    assert_eq!(to, addr(202));
    assert!(batches.is_empty());
}

#[test]
fn unknown_requester_dropped() {
    let helper = Helper::new(0, committee());
    assert_eq!(helper.reply(&key(9), vec![StoreRead::Found(vec![1])]).err(), Some(HelperError::UnknownAuthority));
}

#[test]
fn requester_without_matching_worker_dropped() {
    let helper = Helper::new(3, committee());
    assert_eq!(helper.reply(&key(1), vec![StoreRead::Found(vec![1])]).err(), Some(HelperError::UnknownWorker));
}

#[test]
fn found_only_keeps_order() {
    let reads = vec![StoreRead::Found(vec![3]), StoreRead::Missing, StoreRead::Found(vec![1]), StoreRead::Found(vec![2])];
    assert_eq!(found_only(reads), vec![vec![3], vec![1], vec![2]]);
}
