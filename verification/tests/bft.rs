use snarkos_node_bft::bft::{
    is_even_round_ready_for_next_round, is_leader_quorum_or_nonleaders_available, is_linked,
    update_leader_certificate_to_even_round, BftError, LeaderCertificateUpdate, BFT,
};
use snarkos_node_bft::clock::now_unix_timestamp;
use snarkos_node_bft::committee::Committee;
use snarkos_node_bft::dag::DAG;
use snarkos_node_bft::ordering::order_dag_with_dfs;
use indexmap::IndexMap;
use snarkos_node_bft::helpers::fmt_id;
use snarkos_node_bft::helpers::proposal::Proposal;
use snarkos_node_bft::primary::{
    check_batch_propose, ensure_is_signing_round, latest_certificate_of, process_batch_signature, record_proposal,
    step_proposed_batch, BatchProposeCheck, BatchSignatureCheck, ProposedBatchStep, SignatureStep,
};
use snarkos_node_bft::types::{Address, BatchCertificate, BatchHeader, Field, Signature, Transmission, TransmissionID};

fn certificate(id: Field, author: Address, round: u64, previous: Vec<Field>) -> BatchCertificate {
    BatchCertificate {
        certificate_id: id,
        batch_header: BatchHeader {
            batch_id: id + 1_000_000,
            author,
            round,
            timestamp: 0,
            transmission_ids: Vec::new(),
            previous_certificate_ids: previous,
            last_election_certificate_ids: Vec::new(),
            signature: Signature { signer: author, message: id + 1_000_000 },
        },
        signatures: Vec::new(),
    }
}

fn committee_of(round: u64, authors: &[Address]) -> Committee {
    Committee::new(round, authors.iter().map(|&a| (a, 1_000_000)).collect()).unwrap()
}

/// Four certificates of `round`, by authors 1 to 4, citing `previous`.
fn round_certificates(round: u64, previous: &[Field]) -> Vec<BatchCertificate> {
    (1..=4u64).map(|a| certificate(round as u128 * 100 + a as u128, a, round, previous.to_vec())).collect()
}

/// A certificate of round 3 by author 5, and the four certificates of round 2 that it cites.
fn certificate_with_previous_certificates() -> (BatchCertificate, Vec<BatchCertificate>) {
    let previous = round_certificates(2, &[]);
    let ids: Vec<Field> = previous.iter().map(|c| c.certificate_id).collect();
    (certificate(301, 5, 3, ids), previous)
}

#[test]
fn test_is_leader_quorum_odd() {
    let certificates = round_certificates(1, &[]);
    let committee = committee_of(1, &[1, 2, 3, 4]);
    let bft = BFT::new();
    let expired = bft.is_timer_expired(now_unix_timestamp());
    assert!(expired);
    // If the timer has expired but the quorum threshold is not reached, return `false`.
    assert!(!is_leader_quorum_or_nonleaders_available(1, 1, &Vec::new(), Some(&committee), None, expired));
    // With the certificates in storage, and no previous leader certificate.
    assert!(is_leader_quorum_or_nonleaders_available(1, 1, &certificates, Some(&committee), None, expired));
    // With a leader certificate, the call falls through to the end.
    let leader_certificate = certificate(999, 7, 0, Vec::new());
    assert!(is_leader_quorum_or_nonleaders_available(
        1,
        1,
        &certificates,
        Some(&committee),
        Some(&leader_certificate),
        expired
    ));
}

#[test]
fn test_is_leader_quorum_even_out_of_sync() {
    let committee = committee_of(1, &[1, 2, 3, 4]);
    assert_eq!(committee.starting_round(), 1);
    let bft = BFT::new();
    let expired = bft.is_timer_expired(now_unix_timestamp());
    assert!(expired);
    // Storage is at round 1, and round 2 is checked.
    assert!(!is_leader_quorum_or_nonleaders_available(1, 2, &Vec::new(), Some(&committee), None, expired));
}

#[test]
fn test_is_leader_quorum_even() {
    let committee = committee_of(2, &[1, 2, 3, 4]);
    assert_eq!(committee.starting_round(), 2);
    let bft = BFT::new();
    let expired = bft.is_timer_expired(now_unix_timestamp());
    assert!(expired);
    // The call fails on an even round.
    assert!(!is_leader_quorum_or_nonleaders_available(2, 2, &Vec::new(), Some(&committee), None, expired));
}

#[test]
fn test_is_even_round_ready() {
    let certificates = round_certificates(2, &[]);
    let committee = committee_of(2, &[1, 2, 3, 4]);
    // The leader certificate is set for round 2, but the quorum threshold is not reached.
    assert!(!is_even_round_ready_for_next_round(&Vec::new(), &committee, 2, Some(2), false));
    // Once the quorum threshold is reached, the round is ready.
    assert!(is_even_round_ready_for_next_round(&certificates, &committee, 2, Some(2), false));
    // Without a leader certificate, the round waits for the timer.
    let bft = BFT::new();
    let start = now_unix_timestamp();
    let mut timed = BFT::new();
    timed.restart_leader_certificate_timer(start);
    assert!(!is_even_round_ready_for_next_round(&certificates, &committee, 2, None, timed.is_timer_expired(start)));
    // Once the timer has expired, the round is ready.
    let later = start + 5;
    assert!(timed.is_timer_expired(later));
    assert!(is_even_round_ready_for_next_round(&certificates, &committee, 2, None, timed.is_timer_expired(later)));
    assert!(bft.is_timer_expired(start));
}

#[test]
fn test_update_leader_certificate_odd() {
    let committee = committee_of(1, &[1, 2, 3, 4]);
    let (ready, update) = update_leader_certificate_to_even_round(1, 1, &Vec::new(), Some(&committee), Some(1), true);
    assert!(!ready);
    assert!(matches!(update, LeaderCertificateUpdate::Keep));
}

#[test]
fn test_update_leader_certificate_bad_round() {
    let committee = committee_of(1, &[1, 2, 3, 4]);
    // Storage is at round 1; round 6 is not the current round.
    let (ready, update) = update_leader_certificate_to_even_round(1, 6, &Vec::new(), Some(&committee), Some(1), true);
    assert!(!ready);
    assert!(matches!(update, LeaderCertificateUpdate::Keep));
}

#[test]
fn test_update_leader_certificate_even() {
    let (_, certificates) = certificate_with_previous_certificates();
    let committee = committee_of(2, &[1, 2, 3, 4]);
    let leader: Address = 3;
    let (ready, update) = update_leader_certificate_to_even_round(2, 2, &certificates, Some(&committee), Some(leader), false);
    assert!(ready);
    match update {
        LeaderCertificateUpdate::Replace(Some(c)) => assert_eq!(c, certificates[2]),
        _ => panic!("the leader certificate was not found"),
    }
}

#[test]
fn test_order_dag_with_dfs() {
    let (certificate, previous_certificates) = certificate_with_previous_certificates();

    // Only the certificates above the garbage-collection round are returned.
    let mut dag = DAG::with_last_committed_round(3);
    for c in previous_certificates.iter() {
        dag.insert(c.clone());
    }
    let result = order_dag_with_dfs::<false>(&dag, certificate.clone(), 1, &Vec::new(), &Vec::new()).unwrap();
    assert_eq!(result, vec![certificate.clone()]);

    // Otherwise all the given certificates are returned, by round.
    let mut dag = DAG::with_last_committed_round(2);
    for c in previous_certificates.iter() {
        dag.insert(c.clone());
    }
    let result = order_dag_with_dfs::<false>(&dag, certificate.clone(), 1, &Vec::new(), &Vec::new()).unwrap();
    let mut expected = previous_certificates.clone();
    expected.push(certificate);
    assert_eq!(result.len(), 5);
    assert_eq!(
        result.iter().map(|c| c.certificate_id).collect::<Vec<_>>(),
        expected.iter().map(|c| c.certificate_id).collect::<Vec<_>>()
    );
    assert_eq!(result, expected);
}

#[test]
fn test_order_dag_with_dfs_fails_on_missing_previous_certificate() {
    let (certificate, previous_certificates) = certificate_with_previous_certificates();
    let previous_certificate_ids: Vec<Field> = previous_certificates.iter().map(|c| c.certificate_id).collect();
    let dag = DAG::new();
    let result = order_dag_with_dfs::<false>(&dag, certificate, 1, &Vec::new(), &Vec::new());
    assert_eq!(result, Err(BftError::MissingPreviousCertificate(previous_certificate_ids[3], 2)));
    assert_eq!(
        result.unwrap_err().message(),
        format!("Missing previous certificate {} for round 2", fmt_id(previous_certificate_ids[3]))
    );
}

#[test]
fn test_is_linked_through_dag() {
    let (current, previous_certificates) = certificate_with_previous_certificates();
    let mut dag = DAG::new();
    for c in previous_certificates.iter() {
        dag.insert(c.clone());
    }
    dag.insert(current.clone());
    assert_eq!(is_linked(&dag, &previous_certificates[0], &current), Ok(true));
    let unrelated = certificate(777, 9, 2, Vec::new());
    assert_eq!(is_linked(&dag, &unrelated, &current), Ok(false));
    // A round without certificates is an error.
    let far = certificate(778, 9, 0, Vec::new());
    assert_eq!(is_linked(&dag, &far, &current), Err(BftError::MissingRoundCertificates(1)));
}

#[test]
fn test_commit_raises_last_committed_round() {
    let (_, previous_certificates) = certificate_with_previous_certificates();
    let mut dag = DAG::new();
    for c in previous_certificates.iter() {
        dag.insert(c.clone());
    }
    dag.commit(&previous_certificates[0], 10);
    assert_eq!(dag.last_committed_round(), 2);
    assert!(dag.is_recently_committed(2, previous_certificates[0].certificate_id));
    // A committed certificate is not inserted back.
    dag.insert(previous_certificates[0].clone());
    assert!(dag.get_certificate_for_round_with_author(2, 1).is_none());
    // Committing an older certificate never lowers the last committed round.
    let older = certificate(5, 8, 1, Vec::new());
    dag.commit(&older, 10);
    assert_eq!(dag.last_committed_round(), 2);
}

#[test]
fn test_finish_round_update_restarts_timer() {
    let mut bft = BFT::new();
    bft.restart_leader_certificate_timer(1000);
    // Not ready, or storage refused to advance: the timer keeps running.
    assert!(!bft.finish_round_update(false, true, 5000));
    assert!(!bft.finish_round_update(true, false, 5000));
    assert!(bft.is_timer_expired(5000));
    // Ready and advanced: the timer restarts.
    assert!(bft.finish_round_update(true, true, 5000));
    assert!(!bft.is_timer_expired(5000));
}

#[test]
fn test_commit_leader_chain() {
    let round2 = round_certificates(2, &[]);
    let ids2: Vec<Field> = round2.iter().map(|c| c.certificate_id).collect();
    let round3 = round_certificates(3, &ids2);
    let ids3: Vec<Field> = round3.iter().map(|c| c.certificate_id).collect();
    let leader = certificate(401, 1, 4, ids3);
    let mut dag = DAG::new();
    for c in round2.iter().chain(round3.iter()) {
        dag.insert(c.clone());
    }
    let mut bft = BFT::with_dag(dag);
    let mut leaders = snarkos_node_bft::assoc::AssocMap::new();
    leaders.insert(2u64, 1 as Address);
    let mut gc_round = 0;
    let subdags = bft.commit_leader_chain::<false>(&leader, &leaders, 10, &Vec::new(), &Vec::new(), &mut gc_round).unwrap();
    let ids = |v: &Vec<BatchCertificate>| v.iter().map(|c| c.certificate_id).collect::<Vec<_>>();
    // The older leader of round 2 is committed first, then the newer leader's subDAG,
    // round by round, in the order of the search within a round.
    assert_eq!(subdags.len(), 2);
    assert_eq!(ids(&subdags[0]), vec![201]);
    assert_eq!(ids(&subdags[1]), vec![202, 203, 204, 301, 302, 303, 304, 401]);
    assert_eq!(bft.dag().last_committed_round(), 4);
    // With 10 GC rounds, a leader of round 4 does not move the GC round.
    assert_eq!(gc_round, 0);
}

#[test]
fn test_bft_gc_on_commit() {
    // One GC round: committing the round-2 leader garbage collects storage up to round 1.
    let round2 = round_certificates(2, &[]);
    let mut dag = DAG::new();
    for c in round2.iter() {
        dag.insert(c.clone());
    }
    let mut bft = BFT::with_dag(dag);
    let leaders = snarkos_node_bft::assoc::AssocMap::new();
    let mut gc_round = 0;
    assert!(bft.commit_leader_chain::<false>(&round2[0], &leaders, 1, &Vec::new(), &Vec::new(), &mut gc_round).is_ok());
    assert_eq!(gc_round, 2 - 1);
}

#[test]
fn test_latest_certificate_of() {
    let certificates = vec![
        certificate(21, 1, 2, Vec::new()),
        certificate(41, 1, 4, Vec::new()),
        certificate(42, 2, 4, Vec::new()),
        certificate(61, 1, 6, Vec::new()),
        certificate(43, 1, 4, Vec::new()),
    ];
    // The latest round at or below the current one, the first stored of that round.
    assert_eq!(latest_certificate_of(&certificates, 1, 5).map(|c| c.certificate_id), Some(41));
    assert_eq!(latest_certificate_of(&certificates, 1, 9).map(|c| c.certificate_id), Some(61));
    assert_eq!(latest_certificate_of(&certificates, 1, 1).map(|c| c.certificate_id), None);
    assert_eq!(latest_certificate_of(&certificates, 3, 9).map(|c| c.certificate_id), None);
}

#[test]
fn test_process_batch_signature() {
    let committee = committee_of(1, &[1, 2, 3, 4]);
    let id = TransmissionID::Solution(1, 1);
    let mut header = certificate(11, 1, 1, Vec::new()).batch_header;
    header.transmission_ids = vec![id];
    let batch_id = header.batch_id;
    let mut transmissions = IndexMap::new();
    transmissions.insert(id, Transmission::Solution(vec![1]));
    let mut proposed = Some(Proposal::new(&committee, header, transmissions).unwrap());
    let sig = |signer: Address| Signature { signer, message: batch_id };
    // A signature from this node is refused.
    let step = process_batch_signature(&mut proposed, 1, Some(1), 1, batch_id, false, sig(1), &committee);
    assert!(matches!(step, SignatureStep::Rejected(BatchSignatureCheck::FromSelf(1))));
    // The first peer signature is collected; the second reaches the quorum threshold.
    let step = process_batch_signature(&mut proposed, 2, Some(2), 1, batch_id, false, sig(2), &committee);
    assert!(matches!(step, SignatureStep::Collected));
    assert!(proposed.is_some());
    let step = process_batch_signature(&mut proposed, 3, Some(3), 1, batch_id, false, sig(3), &committee);
    match step {
        SignatureStep::Certify(p) => assert_eq!(p.batch_id(), batch_id),
        _ => panic!("the batch should be certified"),
    }
    assert!(proposed.is_none());
}

#[test]
fn test_fmt_id() {
    assert_eq!(fmt_id(204), "204");
    assert_eq!(fmt_id(12345678901234567890), "1234567890123456..");
    assert_eq!(
        BftError::MissingPreviousCertificate(12345678901234567890, 2).message(),
        "Missing previous certificate 1234567890123456.. for round 2"
    );
}

#[test]
fn test_batch_propose_from_peer_wrong_round_message() {
    // A peer proposes round 3 with a header of round 2: it is disconnected, with the reason.
    let header = certificate(21, 2, 2, Vec::new()).batch_header;
    let check = check_batch_propose(3, &header, Some(2), true, 1, None);
    assert_eq!(check, BatchProposeCheck::RoundMismatch(3, 2));
    assert!(check.disconnects());
    assert_eq!(check.message(), Some("Malicious peer - proposed round 3, but sent batch for round 2".to_string()));
    assert_eq!(check_batch_propose(2, &header, Some(2), true, 1, None).message(), None);
    let error = ensure_is_signing_round(10, 5, None, 20).unwrap_err();
    assert_eq!(error.message(), "Round 20 is too far in the future");
}

#[test]
fn test_propose_batch_steps() {
    let committee = committee_of(1, &[1, 2, 3, 4]);
    let id = TransmissionID::Transaction(7, 7);
    let mut header = certificate(21, 1, 2, Vec::new()).batch_header;
    header.transmission_ids = vec![id];
    let mut transmissions = IndexMap::new();
    transmissions.insert(id, Transmission::Transaction(vec![7]));
    let mut proposed: Option<Proposal> = None;
    let mut last_proposed_round = 1;
    assert!(matches!(step_proposed_batch(&mut proposed, 2, &committee), ProposedBatchStep::Empty));
    // A new proposal for round 2 by this node (author 1).
    assert_eq!(record_proposal(&mut proposed, &mut last_proposed_round, 2, 1, 1, &committee, header, transmissions), Ok(()));
    assert_eq!(last_proposed_round, 2);
    assert_eq!(proposed.as_ref().map(|p| p.round()), Some(2));
    // Still valid in round 2: it is sent again to the members that have not signed it.
    match step_proposed_batch(&mut proposed, 2, &committee) {
        ProposedBatchStep::Resend(mut nonsigners) => {
            nonsigners.sort();
            assert_eq!(nonsigners, vec![2, 3, 4]);
        }
        _ => panic!("the proposal should be resent"),
    }
    assert!(proposed.is_some());
    // Expired in round 3: it is taken out.
    match step_proposed_batch(&mut proposed, 3, &committee) {
        ProposedBatchStep::Expired(p) => assert_eq!(p.round(), 2),
        _ => panic!("the proposal should expire"),
    }
    assert!(proposed.is_none());
}
