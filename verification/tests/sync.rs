use snarkos_node_bft::committee::Committee;
use snarkos_node_bft::dag::DAG;
use snarkos_node_bft::sync::{
    bootup_sync_range, is_linked_in_storage, is_synced, supporting_authors, sync_heights, Sync, SyncBlock,
    SyncError,
};
use snarkos_node_bft::types::{Address, BatchCertificate, BatchHeader, Field, PeerIp, Signature};

fn certificate(id: Field, author: Address, round: u64, previous: Vec<Field>) -> BatchCertificate {
    BatchCertificate {
        certificate_id: id,
        batch_header: BatchHeader {
            batch_id: id + 1_000_000,
            author,
            round,
            timestamp: 0,
            transmission_ids: Vec::new(),
            previous_certificate_ids: previous,
            last_election_certificate_ids: Vec::new(),
            signature: Signature { signer: author, message: id },
        },
        signatures: Vec::new(),
    }
}

fn block(height: u32, leader: Option<BatchCertificate>) -> SyncBlock {
    let round = leader.as_ref().map(|c| c.batch_header.round).unwrap_or(0);
    SyncBlock { height, round, leader_certificate: leader }
}

#[test]
fn test_sync_heights() {
    assert_eq!(bootup_sync_range(100, 50), Ok((75, 101)));
    assert_eq!(bootup_sync_range(10, 50), Ok((0, 11)));
    assert_eq!(bootup_sync_range(u32::MAX, 2), Ok((u32::MAX - 1, u32::MAX)));
    assert_eq!(bootup_sync_range(10, u64::MAX), Err(SyncError::MaxGcRoundsTooLarge));
    assert_eq!(sync_heights(10, 200, 100), Ok((11, 150)));
    assert_eq!(sync_heights(10, 20, 100), Ok((11, 0)));
    assert!(!is_synced(0, true));
    assert!(is_synced(3, true));
    assert!(!is_synced(3, false));
}

#[test]
fn test_block_responses() {
    let mut sync = Sync::<()>::new();
    assert!(sync.record_block_response(block(5, None), false, 4));
    assert!(sync.contains_block_response(5));
    // A block held already, or in the ledger, is skipped.
    assert!(!sync.record_block_response(block(5, None), false, 4));
    assert!(!sync.record_block_response(block(6, None), true, 4));
    assert!(sync.record_block_response(block(6, None), false, 4));
    assert!(sync.record_block_response(block(8, None), false, 4));
    assert_eq!(sync.contiguous_heights(4), vec![5, 6]);
    // Recording at a higher ledger height drops the older responses.
    assert!(sync.record_block_response(block(9, None), false, 6));
    assert!(!sync.contains_block_response(5));
    assert!(!sync.contains_block_response(6));
    assert!(sync.contains_block_response(8));
    assert_eq!(sync.contiguous_heights(6), Vec::<u32>::new());
    assert_eq!(sync.contiguous_heights(7), vec![8, 9]);
    sync.remove_block_response(8);
    assert!(!sync.contains_block_response(8));
    sync.clear_block_responses();
    assert!(!sync.contains_block_response(9));
    assert!(Sync::<()>::is_next_block(7, 6));
    assert!(!Sync::<()>::is_next_block(8, 6));
}

/// Stores four certificates per round from round 1 to `last`, each citing all four of the
/// previous round.
fn chain_storage(last: u64) -> (DAG, Vec<Vec<BatchCertificate>>) {
    let mut dag = DAG::new();
    let mut rounds: Vec<Vec<BatchCertificate>> = Vec::new();
    for round in 1..=last {
        let previous: Vec<Field> = rounds.last().map(|r| r.iter().map(|c| c.certificate_id).collect()).unwrap_or_default();
        let certs: Vec<BatchCertificate> =
            (1..=4u64).map(|a| certificate(round as u128 * 10 + a as u128, a, round, previous.clone())).collect();
        for c in certs.iter() {
            dag.insert(c.clone());
        }
        rounds.push(certs);
    }
    (dag, rounds)
}

#[test]
fn test_is_linked_in_storage() {
    let (dag, rounds) = chain_storage(4);
    assert!(is_linked_in_storage(&dag, &rounds[0][0], &rounds[3][2]));
    let stray = certificate(999, 9, 1, Vec::new());
    assert!(!is_linked_in_storage(&dag, &stray, &rounds[3][2]));
    // A certificate is linked to itself.
    assert!(is_linked_in_storage(&dag, &rounds[2][1], &rounds[2][1]));
    let mut authors = supporting_authors(&dag, 3, rounds[1][0].certificate_id);
    authors.sort();
    assert_eq!(authors, vec![1, 2, 3, 4]);
    assert!(supporting_authors(&dag, 9, rounds[1][0].certificate_id).is_empty());
}

#[test]
fn test_blocks_to_commit() {
    let (dag, rounds) = chain_storage(5);
    let committee = Committee::new(0, (1..=4u64).map(|a| (a, 1_000)).collect()).unwrap();
    let mut sync = Sync::<()>::new();
    // Blocks 11 and 12 with leader certificates of rounds 2 and 4, linked.
    sync.record_block_response(block(11, Some(rounds[1][0].clone())), false, 10);
    sync.record_block_response(block(12, Some(rounds[3][0].clone())), false, 10);
    assert_eq!(sync.blocks_to_commit(10, 12, &committee, &dag), Ok(Some(vec![11, 12])));
    assert_eq!(sync.blocks_to_commit(10, 11, &committee, &dag), Ok(Some(vec![11])));
    // A leader certificate without support in the next round waits.
    let lonely = certificate(555, 1, 5, Vec::new());
    sync.record_block_response(block(13, Some(lonely)), false, 10);
    assert_eq!(sync.blocks_to_commit(10, 13, &committee, &dag), Ok(None));
    // A block without a leader certificate is refused.
    sync.record_block_response(block(14, None), false, 10);
    assert_eq!(sync.blocks_to_commit(10, 14, &committee, &dag), Err(SyncError::UnexpectedAuthority(14)));
    // A missing block below fails the walk.
    let mut gap = Sync::<()>::new();
    gap.record_block_response(block(12, Some(rounds[3][0].clone())), false, 10);
    assert_eq!(gap.blocks_to_commit(10, 12, &committee, &dag), Err(SyncError::MissingBlock(11)));
}

#[test]
fn test_certificate_requests() {
    let committee = Committee::new(0, (1..=4u64).map(|a| (a, 1_000)).collect()).unwrap();
    let mut sync = Sync::<()>::new();
    let peer = PeerIp::new(127, 0, 0, 1, 1234);
    assert!(sync.send_certificate_request(50, peer, 77, Some(&committee), ()));
    // The same peer is not asked twice.
    assert!(!sync.send_certificate_request(50, peer, 77, Some(&committee), ()));
    assert!(sync.pending().contains(77));
    assert!(sync.finish_certificate_request(PeerIp::new(127, 0, 0, 1, 9), 77).is_none());
    assert_eq!(sync.finish_certificate_request(peer, 77).map(|c| c.len()), Some(2));
    assert!(!sync.pending().contains(77));
    sync.send_certificate_request(50, peer, 78, None, ());
    sync.clear_expired_callbacks_at(70);
    assert!(!sync.pending().contains(78));
}

#[test]
fn test_sync_error_message() {
    assert_eq!(SyncError::MissingBlock(12).message(), "Block 12 is missing from the latest block responses.");
}
