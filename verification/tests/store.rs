use snarkos_node_bft::assoc::AssocMap;
use snarkos_node_bft::committee::Committee;
use snarkos_node_bft::storage_service::{BFTMemoryService, StorageError};
use snarkos_node_bft::types::{Transmission, TransmissionID};

#[test]
fn test_inserted_transmissions_are_stored() {
    let mut store = BFTMemoryService::new();
    let a = TransmissionID::Solution(1, 1);
    let b = TransmissionID::Transaction(2, 2);
    let c = TransmissionID::Transaction(3, 3);
    let mut missing = AssocMap::new();
    missing.insert(a, Transmission::Solution(vec![1]));
    missing.insert(b, Transmission::Transaction(vec![2]));
    store.insert_transmissions(10, &vec![a, b, c], &vec![], missing);
    assert!(store.contains_transmission(a));
    assert!(store.contains_transmission(b));
    // A transmission provided by neither is passed over.
    assert!(!store.contains_transmission(c));
    assert_eq!(store.get_transmission(b), Some(Transmission::Transaction(vec![2])));
    // A second certificate referencing `a` keeps it after the first is removed.
    store.insert_transmissions(11, &vec![a], &vec![], AssocMap::new());
    store.remove_transmissions(10, &vec![a, b]);
    assert!(store.contains_transmission(a));
    assert!(!store.contains_transmission(b));
    store.remove_transmissions(11, &vec![a]);
    assert!(!store.contains_transmission(a));
}

#[test]
fn test_aborted_transmissions_are_contained() {
    let mut store = BFTMemoryService::new();
    let a = TransmissionID::Solution(7, 7);
    store.insert_transmissions(10, &vec![], &vec![a], AssocMap::new());
    assert!(store.contains_transmission(a));
    assert_eq!(store.get_transmission(a), None);
}

#[test]
fn test_quorums_intersect() {
    let committee = Committee::new(0, (1..=4u64).map(|a| (a, 100)).collect()).unwrap();
    assert_eq!(committee.quorum_threshold(), 267);
    assert_eq!(committee.availability_threshold(), 134);
    assert!(committee.is_quorum_threshold_reached(&vec![1, 2, 3]));
    assert!(committee.is_quorum_threshold_reached(&vec![2, 3, 4]));
    // The two quorums share members with the availability threshold.
    assert!(committee.is_availability_threshold_reached(&vec![2, 3]));
    assert!(!committee.is_quorum_threshold_reached(&vec![1, 2]));
}

#[test]
fn test_insert_then_remove_transmissions_restores() {
    let mut store = BFTMemoryService::new();
    let a = TransmissionID::Solution(1, 1);
    let b = TransmissionID::Transaction(2, 2);
    let x = TransmissionID::Solution(9, 9);
    let mut first = AssocMap::new();
    first.insert(a, Transmission::Solution(vec![1]));
    store.insert_transmissions(10, &vec![a], &vec![], first);
    // A second certificate with a new transmission and an aborted one, then removed.
    let mut missing = AssocMap::new();
    missing.insert(b, Transmission::Transaction(vec![2]));
    store.insert_transmissions(11, &vec![a, b, x], &vec![x], missing);
    assert!(store.contains_transmission(b));
    assert!(store.contains_transmission(x));
    store.remove_transmissions(11, &vec![a, b, x]);
    assert!(store.contains_transmission(a));
    assert_eq!(store.get_transmission(a), Some(Transmission::Solution(vec![1])));
    assert!(!store.contains_transmission(b));
    assert!(!store.contains_transmission(x));
}

#[test]
fn test_storage_error_message() {
    let error = StorageError::MissingTransmission(TransmissionID::Transaction(5, 9));
    assert_eq!(error.message(), "Missing transmission Transaction '5.9'");
}
