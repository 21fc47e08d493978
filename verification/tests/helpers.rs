use std::collections::HashSet;

use rand::rngs::StdRng;
use rand::{Rng, RngCore, SeedableRng};
use tokio::sync::oneshot;

use snarkos_node_bft::committee::Committee;
use snarkos_node_bft::helpers::cache_round::{RoundCache, RoundCacheError};
use snarkos_node_bft::helpers::partition::{assign_to_worker, double_sha256, sha256d_to_u128};
use snarkos_node_bft::helpers::pending::{max_redundant_requests, Pending, CALLBACK_EXPIRATION_IN_SECS};
use snarkos_node_bft::helpers::ready::Ready;
use snarkos_node_bft::types::{PeerIp, Transmission, TransmissionID};

fn test_rng() -> StdRng {
    StdRng::seed_from_u64(0x5eed)
}

fn random_solution_id(rng: &mut StdRng) -> TransmissionID {
    TransmissionID::Solution(rng.gen::<u64>(), rng.gen::<u128>())
}

fn localhost(port: u16) -> PeerIp {
    PeerIp::new(127, 0, 0, 1, port)
}

fn peer_set(peers: Option<Vec<PeerIp>>) -> Option<HashSet<PeerIp>> {
    peers.map(|v| v.into_iter().collect())
}

#[test]
fn test_assign_to_worker() {
    let data = "Hello Aleo".as_bytes();
    let sha = double_sha256(data);
    assert_eq!(sha, [
        113, 157, 210, 34, 60, 51, 220, 8, 63, 213, 79, 8, 117, 190, 134, 206, 127, 197, 21, 180, 116, 49, 218, 150,
        49, 116, 116, 38, 244, 135, 215, 14
    ]);
    let hash = sha256d_to_u128(data);
    assert_eq!(hash, 274520597840828436951879875061540363633u128);
    let transmission_id = TransmissionID::Solution(123456789, 12345);
    let worker_id = assign_to_worker(transmission_id, 5);
    assert_eq!(worker_id, 4);
}

#[test]
fn test_assign_to_single_worker() {
    // With one worker, every transmission goes to it without hashing.
    assert_eq!(assign_to_worker(TransmissionID::Solution(123456789, 12345), 1), 0);
    assert_eq!(assign_to_worker(TransmissionID::Ratification, 1), 0);
}

fn committee_of(addresses: &[u64], stake: u64) -> Committee {
    Committee::new(0, addresses.iter().map(|&a| (a, stake)).collect()).unwrap()
}

#[test]
fn test_round_cache() {
    let mut rng = test_rng();

    let num_validators = 200;
    let mut addresses = Vec::new();
    while addresses.len() < num_validators {
        let a = rng.gen::<u64>();
        if !addresses.contains(&a) {
            addresses.push(a);
        }
    }

    let minimum_stake = 1000000000000;
    let committee = committee_of(&addresses, minimum_stake);

    // Test case 1: when we always observe increasing round numbers
    let mut cache = RoundCache::new();
    // Check that the cache is empty
    assert_eq!(cache.last_highest_round(), 0);
    for round in 1..1000 {
        cache.update(round as u64, addresses[round % num_validators], &committee).unwrap();
    }
    // Check that the cache is correctly updated
    assert_eq!(cache.last_highest_round(), 866);

    // Test case 2: when we always observe the same round number
    let mut cache = RoundCache::new();
    for round in 1..1000 {
        cache.update(round as u64, addresses[0], &committee).unwrap();
    }
    // Check that the cache is correctly updated
    assert_eq!(cache.last_highest_round(), 0);

    // Test case 3: when we observe non-consecutive round numbers
    let mut cache = RoundCache::new();
    for round in 0..50 {
        cache.update(0, addresses[round % num_validators], &committee).unwrap();
        cache.update(10, addresses[round + 50 % num_validators], &committee).unwrap();
        cache.update(15, addresses[round + 100 % num_validators], &committee).unwrap();
        cache.update(20, addresses[round + 150 % num_validators], &committee).unwrap();
    }
    // Check that the cache is correctly updated
    assert_eq!(cache.last_highest_round(), 10);

    // Test case 4: remove and add validators from the committee
    let mut cache = RoundCache::new();
    for round in 1..1000 {
        cache.update(round as u64, addresses[round % num_validators], &committee).unwrap();
    }

    // Remove a member from the committee
    let mut committee_members = committee.members().clone();
    committee_members.retain(|(a, _)| *a != addresses[0]);
    let committee = Committee::new(0, committee_members).unwrap();
    // Updating with address which is not in the committee should fail
    assert!(cache.update(1001, addresses[0], &committee).is_err());
    // Updating with a smaller commitee should prune the removed addresses from the cache
    cache.update(1001, addresses[1], &committee).unwrap();

    // Add a member back to the committee
    let mut committee_members = committee.members().clone();
    let mut new_address = rng.gen::<u64>();
    while addresses.contains(&new_address) {
        new_address = rng.gen::<u64>();
    }
    committee_members.push((new_address, minimum_stake));
    let committee = Committee::new(0, committee_members).unwrap();
    cache.update(1000, new_address, &committee).unwrap();
}

#[test]
fn test_round_cache_never_decreases() {
    // Four equal validators: the quorum is three of them.
    let addresses = [1u64, 2, 3, 4];
    let committee = committee_of(&addresses, 10);
    let mut cache = RoundCache::new();
    assert_eq!(cache.update(5, 1, &committee), Ok(0));
    assert_eq!(cache.update(5, 2, &committee), Ok(0));
    assert_eq!(cache.update(5, 3, &committee), Ok(5));
    // One validator moving back does not lower the quorum round.
    assert_eq!(cache.update(1, 3, &committee), Ok(5));
    assert_eq!(cache.last_highest_round(), 5);
}

fn random_data(rng: &mut StdRng) -> Vec<u8> {
    (0..512).map(|_| rng.gen::<u8>()).collect()
}

#[test]
fn test_ready() {
    let rng = &mut test_rng();

    // Initialize the ready queue.
    let mut ready = Ready::new();

    // Initialize the solution IDs.
    let solution_id_1 = random_solution_id(rng);
    let solution_id_2 = random_solution_id(rng);
    let solution_id_3 = random_solution_id(rng);

    // Initialize the solutions.
    let solution_1 = Transmission::Solution(random_data(rng));
    let solution_2 = Transmission::Solution(random_data(rng));
    let solution_3 = Transmission::Solution(random_data(rng));

    // Insert the solution IDs.
    assert!(ready.insert(solution_id_1, solution_1.clone()));
    assert!(ready.insert(solution_id_2, solution_2.clone()));
    assert!(ready.insert(solution_id_3, solution_3.clone()));

    // Check the number of transmissions.
    assert_eq!(ready.num_transmissions(), 3);

    // Check the transmission IDs.
    let transmission_ids = vec![solution_id_1, solution_id_2, solution_id_3];
    assert_eq!(ready.transmission_ids(), transmission_ids);
    transmission_ids.iter().for_each(|id| assert!(ready.contains(*id)));

    // Check that an unknown solution ID is not in the ready queue.
    let solution_id_unknown = random_solution_id(rng);
    assert!(!ready.contains(solution_id_unknown));

    // Check the transmissions.
    assert_eq!(ready.get(solution_id_1), Some(solution_1.clone()));
    assert_eq!(ready.get(solution_id_2), Some(solution_2.clone()));
    assert_eq!(ready.get(solution_id_3), Some(solution_3.clone()));
    assert_eq!(ready.get(solution_id_unknown), None);

    // Drain the ready queue.
    let transmissions = ready.drain(3);

    // Check the number of transmissions.
    assert!(ready.is_empty());
    // Check the transmission IDs.
    assert_eq!(ready.transmission_ids(), Vec::new());

    // Check the transmissions.
    assert_eq!(transmissions, vec![(solution_id_1, solution_1), (solution_id_2, solution_2), (solution_id_3, solution_3)]);
}

#[test]
fn test_ready_duplicate() {
    let rng = &mut test_rng();

    // Sample random fake bytes.
    let mut vec = vec![0u8; 512];
    rng.fill_bytes(&mut vec);

    // Initialize the ready queue.
    let mut ready = Ready::new();

    // Initialize the solution ID.
    let solution_id = random_solution_id(rng);

    // Initialize the solution.
    let solution = Transmission::Solution(vec);

    // Insert the solution ID.
    assert!(ready.insert(solution_id, solution.clone()));
    assert!(!ready.insert(solution_id, solution));

    // Check the number of transmissions.
    assert_eq!(ready.num_transmissions(), 1);
}

#[test]
fn test_ready_drain_partial_and_clear_solutions() {
    let mut ready = Ready::new();
    let s1 = TransmissionID::Solution(1, 1);
    let t1 = TransmissionID::Transaction(2, 2);
    let s2 = TransmissionID::Solution(3, 3);
    assert!(ready.insert(s1, Transmission::Solution(vec![1])));
    assert!(ready.insert(t1, Transmission::Transaction(vec![2])));
    assert!(ready.insert(s2, Transmission::Solution(vec![3])));
    assert_eq!(ready.num_solutions(), 2);
    assert_eq!(ready.num_transactions(), 1);
    // Draining more than is held takes everything that is held, in order.
    let first = ready.drain(1);
    assert_eq!(first, vec![(s1, Transmission::Solution(vec![1]))]);
    ready.clear_solutions();
    assert_eq!(ready.transmission_ids(), vec![t1]);
    assert_eq!(ready.drain(10).len(), 1);
    assert!(ready.is_empty());
}

type TestPending = Pending<TransmissionID, oneshot::Sender<()>>;

#[test]
fn test_pending() {
    let rng = &mut test_rng();

    // Initialize the ready queue.
    let mut pending = TestPending::new();

    // Check initially empty.
    assert!(pending.is_empty());
    assert_eq!(pending.len(), 0);

    // Initialize the solution IDs.
    let solution_id_1 = random_solution_id(rng);
    let solution_id_2 = random_solution_id(rng);
    let solution_id_3 = random_solution_id(rng);
    let solution_id_4 = random_solution_id(rng);

    // Initialize the SocketAddrs.
    let addr_1 = localhost(1234);
    let addr_2 = localhost(2345);
    let addr_3 = localhost(3456);
    let addr_4 = localhost(4567);

    // Initialize the callbacks.
    let (callback_sender_1, _) = oneshot::channel();
    let (callback_sender_2, _) = oneshot::channel();
    let (callback_sender_3, _) = oneshot::channel();
    let (callback_sender_4, _) = oneshot::channel();

    // Insert the solution IDs.
    assert!(pending.insert(solution_id_1, addr_1, Some((callback_sender_1, true))));
    assert!(pending.insert(solution_id_2, addr_2, Some((callback_sender_2, true))));
    assert!(pending.insert(solution_id_3, addr_3, Some((callback_sender_3, true))));
    // Add a callback without a sent request.
    assert!(pending.insert(solution_id_4, addr_4, Some((callback_sender_4, false))));

    // Check the number of SocketAddrs.
    assert_eq!(pending.len(), 4);
    assert!(!pending.is_empty());

    // Check the items.
    let ids = [solution_id_1, solution_id_2, solution_id_3];
    let peers = [addr_1, addr_2, addr_3];

    for i in 0..3 {
        let id = ids[i];
        assert!(pending.contains(id));
        assert!(pending.contains_peer(id, peers[i]));
        assert!(pending.contains_peer_with_sent_request(id, peers[i]));
    }
    // Ensure the last item does not have a sent request.
    assert!(pending.contains_peer(solution_id_4, addr_4));
    assert!(!pending.contains_peer_with_sent_request(solution_id_4, addr_4));

    let unknown_id = random_solution_id(rng);
    assert!(!pending.contains(unknown_id));

    // Check get.
    assert_eq!(peer_set(pending.get_peers(solution_id_1)), Some(HashSet::from([addr_1])));
    assert_eq!(peer_set(pending.get_peers(solution_id_2)), Some(HashSet::from([addr_2])));
    assert_eq!(peer_set(pending.get_peers(solution_id_3)), Some(HashSet::from([addr_3])));
    assert_eq!(peer_set(pending.get_peers(solution_id_4)), Some(HashSet::from([addr_4])));
    assert_eq!(peer_set(pending.get_peers(unknown_id)), None);

    // Check remove.
    assert!(pending.remove(solution_id_1).is_some());
    assert!(pending.remove(solution_id_2).is_some());
    assert!(pending.remove(solution_id_3).is_some());
    assert!(pending.remove(solution_id_4).is_some());
    assert!(pending.remove(unknown_id).is_none());

    // Check empty again.
    assert!(pending.is_empty());
}

#[test]
fn test_expired_callbacks() {
    let rng = &mut test_rng();

    // Initialize the ready queue.
    let mut pending = TestPending::new();

    // Check initially empty.
    assert!(pending.is_empty());
    assert_eq!(pending.len(), 0);

    // Initialize the solution ID.
    let solution_id_1 = random_solution_id(rng);

    // Initialize the SocketAddrs.
    let addr_1 = localhost(1234);
    let addr_2 = localhost(2345);
    let addr_3 = localhost(3456);

    // Initialize the callbacks.
    let (callback_sender_1, _) = oneshot::channel();
    let (callback_sender_2, _) = oneshot::channel();
    let (callback_sender_3, _) = oneshot::channel();

    // The clock is given explicitly, in place of sleeping.
    let start = 1_700_000_000i64;

    // Insert the solution ID.
    assert!(pending.insert_at(start, solution_id_1, addr_1, Some((callback_sender_1, true))));
    assert!(pending.insert_at(start, solution_id_1, addr_2, Some((callback_sender_2, true))));

    // A few seconds pass.
    let now = start + CALLBACK_EXPIRATION_IN_SECS - 1;

    assert!(pending.insert_at(now, solution_id_1, addr_3, Some((callback_sender_3, true))));

    // Check that the number of callbacks has not changed.
    assert_eq!(pending.num_callbacks_at(now, solution_id_1), 3);

    // Two more seconds pass.
    let now = now + 2;

    // Ensure that the expired callbacks have been removed.
    assert_eq!(pending.num_callbacks_at(now, solution_id_1), 1);

    // `CALLBACK_EXPIRATION_IN_SECS` more seconds pass.
    let now = now + CALLBACK_EXPIRATION_IN_SECS;

    // Ensure that the expired callbacks have been removed.
    assert_eq!(pending.num_callbacks_at(now, solution_id_1), 0);
}

const ITERATIONS: usize = 100;

#[test]
fn test_num_sent_requests() {
    let rng = &mut test_rng();

    // Initialize the ready queue.
    let mut pending = TestPending::new();

    for _ in 0..ITERATIONS {
        // Generate a solution ID.
        let solution_id = random_solution_id(rng);
        // Check if the number of sent requests is correct.
        let mut expected_num_sent_requests = 0;
        for i in 0..ITERATIONS {
            // Generate a peer address.
            let addr = localhost(i as u16);
            // Initialize a callback.
            let (callback_sender, _) = oneshot::channel();
            // Randomly determine if the callback is associated with a sent request.
            let is_sent_request = rng.gen();
            // Increment the expected number of sent requests.
            if is_sent_request {
                expected_num_sent_requests += 1;
            }
            // Insert the solution ID.
            assert!(pending.insert(solution_id, addr, Some((callback_sender, is_sent_request))));
        }
        // Ensure that the number of sent requests is correct.
        assert_eq!(pending.num_sent_requests(solution_id), expected_num_sent_requests);
    }
}

#[test]
fn test_expired_items() {
    let rng = &mut test_rng();

    // Initialize the ready queue.
    let mut pending = TestPending::new();

    // Check initially empty.
    assert!(pending.is_empty());
    assert_eq!(pending.len(), 0);

    // Initialize the solution IDs.
    let solution_id_1 = random_solution_id(rng);
    let solution_id_2 = random_solution_id(rng);

    // Initialize the SocketAddrs.
    let addr_1 = localhost(1234);
    let addr_2 = localhost(2345);
    let addr_3 = localhost(3456);

    // Initialize the callbacks.
    let (callback_sender_1, _) = oneshot::channel();
    let (callback_sender_2, _) = oneshot::channel();
    let (callback_sender_3, _) = oneshot::channel();

    let start = 1_700_000_000i64;

    // Insert the commitments.
    assert!(pending.insert_at(start, solution_id_1, addr_1, Some((callback_sender_1, true))));
    assert!(pending.insert_at(start, solution_id_1, addr_2, Some((callback_sender_2, true))));
    assert!(pending.insert_at(start, solution_id_2, addr_3, Some((callback_sender_3, true))));

    // Ensure that the items have not been expired yet.
    assert_eq!(pending.num_callbacks_at(start, solution_id_1), 2);
    assert_eq!(pending.num_callbacks_at(start, solution_id_2), 1);
    assert_eq!(pending.len(), 2);

    // `CALLBACK_EXPIRATION_IN_SECS + 1` seconds pass.
    let now = start + CALLBACK_EXPIRATION_IN_SECS + 1;

    // Expire the pending callbacks.
    pending.clear_expired_callbacks_at(now);

    // Ensure that the items have been expired.
    assert_eq!(pending.num_callbacks_at(now, solution_id_1), 0);
    assert_eq!(pending.num_callbacks_at(now, solution_id_2), 0);
    assert!(pending.is_empty());
}

#[test]
fn test_pending_insert_without_callback() {
    let mut pending = TestPending::new();
    let id = TransmissionID::Solution(1, 2);
    // Without a callback, the item and the peer are still inserted.
    assert!(pending.insert_at(100, id, localhost(1), None));
    assert!(pending.contains(id));
    assert!(pending.contains_peer(id, localhost(1)));
    assert_eq!(pending.len(), 1);
    assert_eq!(pending.num_callbacks_at(100, id), 0);
    // The same peer again is not new; a callback for it is still queued.
    let (cb, _) = oneshot::channel();
    assert!(!pending.insert_at(100, id, localhost(1), Some((cb, false))));
    assert!(!pending.insert_at(100, id, localhost(1), None));
    assert_eq!(pending.num_callbacks_at(100, id), 1);
    // Once the callback expires, the peer registered without one stays.
    pending.clear_expired_callbacks_at(100 + CALLBACK_EXPIRATION_IN_SECS + 1);
    assert!(pending.contains_peer(id, localhost(1)));
    assert_eq!(pending.num_callbacks_at(200, id), 0);
    let (peers, callbacks) = pending.remove(id).unwrap();
    assert_eq!(peers, vec![localhost(1)]);
    assert_eq!(callbacks.len(), 0);
    assert!(pending.is_empty());
}

#[test]
fn pending_test_max_redundant_requests() {
    const NUM_NODES: u64 = 100;
    let addresses: Vec<u64> = (1..=NUM_NODES).collect();
    let committee = committee_of(&addresses, 1_000_000);
    // Ensure the maximum number of redundant requests is correct and consistent across iterations.
    assert_eq!(max_redundant_requests(Some(&committee)), 34, "Update me if the formula changes");
    assert_eq!(max_redundant_requests(None), 34, "Update me if the formula changes");
    let small = committee_of(&[1, 2, 3, 4], 5);
    assert_eq!(max_redundant_requests(Some(&small)), 2);
}

#[test]
fn test_round_cache_error_message() {
    assert_eq!(RoundCacheError::NotCommitteeMember.message(), "Address is not a member of the committee");
}
