use rand::rngs::StdRng;
use rand::{Rng, SeedableRng};

use snarkos_node_bft::committee::{Committee, MAX_COMMITTEE_SIZE};
use snarkos_node_bft::helpers::pending::max_redundant_requests;
use snarkos_node_bft::storage_service::BFTMemoryService;
use snarkos_node_bft::types::{PeerIp, Transmission, TransmissionID};
use snarkos_node_bft::worker::{
    Worker, WorkerError, MAX_TRANSMISSIONS_PER_WORKER, MAX_TRANSMISSIONS_PER_WORKER_PING,
};

fn committee(size: u64) -> Committee {
    Committee::new(0, (1..=size).map(|a| (a, 1_000)).collect()).unwrap()
}

fn bytes(rng: &mut StdRng) -> Vec<u8> {
    (0..512).map(|_| rng.gen::<u8>()).collect()
}

fn localhost(port: u16) -> PeerIp {
    PeerIp::new(127, 0, 0, 1, port)
}

#[test]
fn worker_test_max_redundant_requests() {
    let committee = committee(MAX_COMMITTEE_SIZE as u64);
    assert_eq!(max_redundant_requests(Some(&committee)), 34, "Update me if the formula changes");
}

#[test]
fn test_worker_limits() {
    assert_eq!(MAX_TRANSMISSIONS_PER_WORKER, 250);
    assert_eq!(MAX_TRANSMISSIONS_PER_WORKER_PING, 25);
    assert!(Worker::<()>::new(0).is_ok());
    assert_eq!(Worker::<()>::new(1).err(), Some(WorkerError::InvalidWorkerId(1)));
    assert_eq!(Worker::<()>::new(1).err().unwrap().message(), format!("Invalid worker ID '{}'", 1));
    assert_eq!(WorkerError::AlreadyExists(TransmissionID::Solution(7, 12)).message(), "Solution '7.12' already exists.");
}

#[test]
fn test_process_transmission() {
    let mut rng = StdRng::seed_from_u64(1);
    let storage = BFTMemoryService::new();
    let mut worker = Worker::<()>::new(0).unwrap();
    let transmission_id = TransmissionID::Solution(rng.gen(), rng.gen());
    let transmission = Transmission::Solution(bytes(&mut rng));

    // Process the transmission.
    assert!(worker.process_transmission_from_peer(transmission_id, transmission.clone(), None, &storage, false));
    assert!(worker.contains_transmission(transmission_id, None, &storage, false));
    assert!(worker.ready().contains(transmission_id));
    assert_eq!(worker.get_transmission(transmission_id, None, &storage), Some(transmission.clone()));
    // A second copy is not taken.
    assert!(!worker.process_transmission_from_peer(transmission_id, transmission, None, &storage, false));
    // Take the transmission from the ready queue.
    let taken = worker.drain(1);
    assert_eq!(taken.len(), 1);
    assert!(!worker.ready().contains(transmission_id));
    // A transmission of the wrong kind is refused.
    assert!(!worker.process_transmission_from_peer(transmission_id, Transmission::Transaction(vec![1]), None, &storage, false));
    // So is a ratification.
    assert!(!worker.process_transmission_from_peer(TransmissionID::Ratification, Transmission::Ratification, None, &storage, false));
    // And one the ledger holds.
    assert!(!worker.process_transmission_from_peer(transmission_id, Transmission::Solution(vec![1]), None, &storage, true));
}

#[test]
fn test_reinsert_and_ping_decisions() {
    let storage = BFTMemoryService::new();
    let mut worker = Worker::<()>::new(0).unwrap();
    let id = TransmissionID::Transaction(5, 6);
    assert!(worker.process_transmission_id_from_ping(id, None, &storage, false));
    assert!(worker.reinsert(id, Transmission::Transaction(vec![1, 2]), None, &storage, false));
    // Once held, it is neither reinserted nor fetched again.
    assert!(!worker.reinsert(id, Transmission::Transaction(vec![1, 2]), None, &storage, false));
    assert!(!worker.process_transmission_id_from_ping(id, None, &storage, false));
    assert_eq!(worker.transmission_ids(), vec![id]);
    assert_eq!(worker.num_transmissions(), 1);
}

#[test]
fn test_send_transmission() {
    let mut rng = StdRng::seed_from_u64(2);
    let committee = committee(4);
    let mut worker = Worker::<()>::new(0).unwrap();
    let transmission_id = TransmissionID::Solution(rng.gen(), rng.gen());
    let peer_ip = localhost(1234);
    assert!(worker.send_transmission_request(100, peer_ip, transmission_id, Some(&committee), ()));
    assert!(worker.pending().contains(transmission_id));
    // The response from the peer finishes the request.
    let callbacks = worker.finish_transmission_request(peer_ip, transmission_id, true);
    assert_eq!(callbacks.map(|c| c.len()), Some(1));
    assert!(!worker.pending().contains(transmission_id));
}

#[test]
fn test_finish_transmission_request_needs_the_asked_peer() {
    let committee = committee(4);
    let mut worker = Worker::<()>::new(0).unwrap();
    let id = TransmissionID::Solution(1, 1);
    worker.send_transmission_request(100, localhost(1), id, Some(&committee), ());
    assert!(worker.finish_transmission_request(localhost(2), id, true).is_none());
    assert!(worker.finish_transmission_request(localhost(1), id, false).is_none());
    assert!(worker.pending().contains(id));
}

#[test]
fn test_process_solution_ok() {
    let mut rng = StdRng::seed_from_u64(3);
    let committee = committee(4);
    let storage = BFTMemoryService::new();
    let mut worker = Worker::<()>::new(0).unwrap();
    let (solution_id, checksum): (u64, u128) = (rng.gen(), rng.gen());
    let transmission_id = TransmissionID::Solution(solution_id, checksum);
    worker.send_transmission_request(100, localhost(1234), transmission_id, Some(&committee), ());
    assert!(worker.pending().contains(transmission_id));
    let (notified, result) =
        worker.process_unconfirmed_solution(solution_id, checksum, bytes(&mut rng), None, &storage, false, true);
    assert!(result.is_ok());
    assert_eq!(notified.map(|(peers, callbacks)| (peers, callbacks.len())), Some((vec![localhost(1234)], 1)));
    assert!(!worker.pending().contains(transmission_id));
    assert!(worker.ready().contains(transmission_id));
}

#[test]
fn test_process_solution_nok() {
    let mut rng = StdRng::seed_from_u64(4);
    let committee = committee(4);
    let storage = BFTMemoryService::new();
    let mut worker = Worker::<()>::new(0).unwrap();
    let (solution_id, checksum): (u64, u128) = (rng.gen(), rng.gen());
    let transmission_id = TransmissionID::Solution(solution_id, checksum);
    worker.send_transmission_request(100, localhost(1234), transmission_id, Some(&committee), ());
    assert!(worker.pending().contains(transmission_id));
    let (_, result) =
        worker.process_unconfirmed_solution(solution_id, checksum, bytes(&mut rng), None, &storage, false, false);
    assert_eq!(result, Err(WorkerError::CheckFailed(transmission_id)));
    assert!(!worker.pending().contains(transmission_id));
    assert!(!worker.ready().contains(transmission_id));
}

#[test]
fn test_process_transaction_ok() {
    let mut rng = StdRng::seed_from_u64(5);
    let committee = committee(4);
    let storage = BFTMemoryService::new();
    let mut worker = Worker::<()>::new(0).unwrap();
    let (transaction_id, checksum): (u128, u128) = (rng.gen(), rng.gen());
    let transmission_id = TransmissionID::Transaction(transaction_id, checksum);
    worker.send_transmission_request(100, localhost(1234), transmission_id, Some(&committee), ());
    assert!(worker.pending().contains(transmission_id));
    let (_, result) =
        worker.process_unconfirmed_transaction(transaction_id, checksum, bytes(&mut rng), None, &storage, false, true);
    assert!(result.is_ok());
    assert!(!worker.pending().contains(transmission_id));
    assert!(worker.ready().contains(transmission_id));
    // A second copy fails: it already exists.
    let (_, again) =
        worker.process_unconfirmed_transaction(transaction_id, checksum, bytes(&mut rng), None, &storage, false, true);
    assert_eq!(again, Err(WorkerError::AlreadyExists(transmission_id)));
}

#[test]
fn test_process_transaction_nok() {
    let mut rng = StdRng::seed_from_u64(6);
    let committee = committee(4);
    let storage = BFTMemoryService::new();
    let mut worker = Worker::<()>::new(0).unwrap();
    let (transaction_id, checksum): (u128, u128) = (rng.gen(), rng.gen());
    let transmission_id = TransmissionID::Transaction(transaction_id, checksum);
    worker.send_transmission_request(100, localhost(1234), transmission_id, Some(&committee), ());
    assert!(worker.pending().contains(transmission_id));
    let (_, result) =
        worker.process_unconfirmed_transaction(transaction_id, checksum, bytes(&mut rng), None, &storage, false, false);
    assert!(result.is_err());
    assert!(!worker.pending().contains(transmission_id));
    assert!(!worker.ready().contains(transmission_id));
}

#[test]
fn worker_test_flood_transmission_requests() {
    let mut rng = StdRng::seed_from_u64(7);
    let committee = committee(4);
    let storage = BFTMemoryService::new();
    let mut worker = Worker::<()>::new(0).unwrap();
    let (transaction_id, checksum): (u128, u128) = (rng.gen(), rng.gen());
    let transaction = bytes(&mut rng);
    let transmission_id = TransmissionID::Transaction(transaction_id, checksum);

    // Determine the number of redundant requests that are sent.
    let num_redundant_requests = max_redundant_requests(Some(&committee));
    let num_flood_requests = num_redundant_requests * 10;
    let mut peer_ips: Vec<PeerIp> = (0..num_flood_requests).map(|i| localhost(1234 + i as u16)).collect();
    let first_peer_ip = peer_ips[0];

    // Flood the pending queue with transmission requests.
    let now = 1_000;
    for i in 1..=num_flood_requests {
        let peer_ip = peer_ips.pop().unwrap();
        worker.send_transmission_request(now, peer_ip, transmission_id, Some(&committee), ());
        assert!(worker.num_sent_requests_at(now, transmission_id) <= num_redundant_requests);
        assert_eq!(worker.num_callbacks_at(now, transmission_id), i);
    }
    assert_eq!(worker.num_sent_requests_at(now, transmission_id), num_redundant_requests);
    assert_eq!(worker.num_callbacks_at(now, transmission_id), num_flood_requests);

    // Let all the requests expire.
    let later = now + 9;
    assert_eq!(worker.num_sent_requests_at(later, transmission_id), 0);
    assert_eq!(worker.num_callbacks_at(later, transmission_id), 0);

    // Flood the pending queue again, this time to a single peer.
    for i in 1..=num_flood_requests {
        worker.send_transmission_request(later, first_peer_ip, transmission_id, Some(&committee), ());
        assert!(worker.num_sent_requests_at(later, transmission_id) <= num_redundant_requests);
        assert_eq!(worker.num_callbacks_at(later, transmission_id), i);
    }
    assert_eq!(worker.num_sent_requests_at(later, transmission_id), 1);
    assert_eq!(worker.num_callbacks_at(later, transmission_id), num_flood_requests);

    // Fulfilling the transmission clears the pending queue.
    let (_, result) =
        worker.process_unconfirmed_transaction(transaction_id, checksum, transaction, None, &storage, false, true);
    assert!(result.is_ok());
    assert_eq!(worker.num_sent_requests_at(later, transmission_id), 0);
    assert_eq!(worker.num_callbacks_at(later, transmission_id), 0);
    assert!(!worker.pending().contains(transmission_id));
    assert!(worker.ready().contains(transmission_id));
}

#[test]
fn test_broadcast_ping() {
    let storage = BFTMemoryService::new();
    let mut worker = Worker::<()>::new(0).unwrap();
    assert!(worker.broadcast_ping().is_empty());
    for i in 0..30u64 {
        worker.reinsert(TransmissionID::Solution(i, i as u128), Transmission::Solution(vec![i as u8]), None, &storage, false);
    }
    let ids = worker.broadcast_ping();
    // At most the ping's capacity, each held and each once.
    assert_eq!(ids.len(), MAX_TRANSMISSIONS_PER_WORKER_PING);
    let held = worker.transmission_ids();
    for id in ids.iter() {
        assert!(held.contains(id));
    }
    let mut sorted: Vec<u64> = ids.iter().map(|id| match id { TransmissionID::Solution(s, _) => *s, _ => u64::MAX }).collect();
    sorted.sort();
    sorted.dedup();
    assert_eq!(sorted.len(), MAX_TRANSMISSIONS_PER_WORKER_PING);
}

#[test]
fn test_flood_transmission_requests_stays_bounded() {
    // A committee of 4: at most 1 + 4 / 3 = 2 requests in flight, and one per peer.
    let committee = committee(4);
    let k = max_redundant_requests(Some(&committee));
    assert_eq!(k, 2);
    let mut worker = Worker::<()>::new(0).unwrap();
    let id = TransmissionID::Solution(3, 4);
    let mut sent = 0;
    for i in 0..10u16 {
        // The same peer twice in a row: it is asked at most once.
        let peer = localhost(1000 + i / 2);
        if worker.send_transmission_request(100, peer, id, Some(&committee), ()) {
            sent += 1;
        }
        assert!(worker.num_sent_requests_at(100, id) <= k);
        assert_eq!(worker.num_callbacks_at(100, id), i as usize + 1);
    }
    assert_eq!(sent, k);
}
