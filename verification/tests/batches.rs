use indexmap::IndexMap;

use snarkos_node_bft::bft::{anchor_round, consensus_transmissions, dedup_transmission_ids, garbage_collect_round, BftError, BFT};
use snarkos_node_bft::committee::Committee;
use snarkos_node_bft::helpers::proposal::{Proposal, ProposalError};
use snarkos_node_bft::helpers::proposal_cache::{CacheError, ProposalCache};
use snarkos_node_bft::helpers::signed_proposals::SignedProposals;
use snarkos_node_bft::types::{Address, BatchCertificate, BatchHeader, Field, Signature, Transmission, TransmissionID};

fn header(author: Address, round: u64, ids: Vec<TransmissionID>) -> BatchHeader {
    BatchHeader {
        batch_id: 42,
        author,
        round,
        timestamp: 0,
        transmission_ids: ids,
        previous_certificate_ids: Vec::new(),
        last_election_certificate_ids: Vec::new(),
        signature: Signature { signer: author, message: 42 },
    }
}

fn committee(round: u64) -> Committee {
    Committee::new(round, (1..=4u64).map(|a| (a, 100)).collect()).unwrap()
}

fn transmissions(ids: &[TransmissionID]) -> IndexMap<TransmissionID, Transmission> {
    ids.iter().map(|id| (*id, Transmission::Solution(vec![1]))).collect()
}

#[test]
fn test_proposal_errors() {
    let ids = vec![TransmissionID::Solution(1, 1), TransmissionID::Solution(2, 2)];
    let c = committee(5);
    assert_eq!(Proposal::new(&c, header(1, 4, ids.clone()), transmissions(&ids)).err(), Some(ProposalError::RoundBelowCommittee));
    assert_eq!(Proposal::new(&c, header(9, 5, ids.clone()), transmissions(&ids)).err(), Some(ProposalError::AuthorNotInCommittee));
    assert_eq!(Proposal::new(&c, header(1, 5, Vec::new()), IndexMap::new()).err(), Some(ProposalError::EmptyTransmissions));
    let swapped = vec![ids[1], ids[0]];
    assert_eq!(Proposal::new(&c, header(1, 5, swapped), transmissions(&ids)).err(), Some(ProposalError::TransmissionMismatch));
    assert!(Proposal::new(&c, header(1, 5, ids.clone()), transmissions(&ids)).is_ok());
}

#[test]
fn test_proposal_signatures_and_certificate() {
    let ids = vec![TransmissionID::Solution(1, 1)];
    let c = committee(5);
    let mut proposal = Proposal::new(&c, header(1, 5, ids.clone()), transmissions(&ids)).unwrap();
    // The author's own signature counts; two more signers reach the quorum.
    assert!(!proposal.is_quorum_threshold_reached(&c));
    assert_eq!(proposal.to_certificate(&c, 7).err(), Some(ProposalError::QuorumNotReached));
    assert_eq!(proposal.add_signature(9, Signature { signer: 9, message: 42 }, &c), Err(ProposalError::NonCommitteeSigner));
    assert_eq!(proposal.add_signature(1, Signature { signer: 1, message: 42 }, &c), Err(ProposalError::DuplicateSigner));
    assert_eq!(proposal.add_signature(2, Signature { signer: 2, message: 41 }, &c), Err(ProposalError::InvalidSignature));
    assert_eq!(proposal.add_signature(2, Signature { signer: 2, message: 42 }, &c), Ok(()));
    assert_eq!(proposal.add_signature(2, Signature { signer: 2, message: 42 }, &c), Err(ProposalError::DuplicateSigner));
    let mut nonsigners = proposal.nonsigners(&c);
    nonsigners.sort();
    assert_eq!(nonsigners, vec![3, 4]);
    assert_eq!(proposal.add_signature(3, Signature { signer: 3, message: 42 }, &c), Ok(()));
    assert!(proposal.is_quorum_threshold_reached(&c));
    let (certificate, taken) = proposal.to_certificate(&c, 7).unwrap();
    assert_eq!(certificate.certificate_id, 7);
    assert_eq!(certificate.batch_header.round, 5);
    assert_eq!(certificate.signatures.len(), 2);
    assert_eq!(taken, vec![(ids[0], Transmission::Solution(vec![1]))]);
}

fn certificate(id: Field, author: Address, round: u64, previous: Vec<Field>) -> BatchCertificate {
    BatchCertificate { certificate_id: id, batch_header: BatchHeader { previous_certificate_ids: previous, ..header(author, round, Vec::new()) }, signatures: Vec::new() }
}

#[test]
fn test_update_dag_errors() {
    let c = committee(0);
    let mut bft = BFT::new();
    // Round 2 holds the leader's certificate; a round-3 certificate triggers the commit check.
    bft.update_dag(certificate(21, 1, 2, Vec::new()), Some(&c), Some(1)).unwrap();
    assert_eq!(bft.update_dag(certificate(31, 2, 3, vec![21]), None, Some(1)), Err(BftError::MissingCommittee(2)));
    assert_eq!(bft.update_dag(certificate(32, 3, 3, vec![21]), Some(&c), None), Err(BftError::MissingLeader(2)));
    // Three of four support the leader: above the availability threshold of 134.
    assert_eq!(bft.update_dag(certificate(33, 4, 3, vec![21]), Some(&c), Some(1)), Ok(Some(certificate(21, 1, 2, Vec::new()))));
}

#[test]
fn test_dedup_transmission_ids() {
    let a = TransmissionID::Solution(1, 1);
    let b = TransmissionID::Transaction(2, 2);
    assert_eq!(dedup_transmission_ids(&vec![a, b, a], &vec![false, false, false]), Ok(vec![a, b]));
    assert_eq!(dedup_transmission_ids(&vec![a, b], &vec![true, false]), Ok(vec![b]));
    assert_eq!(dedup_transmission_ids(&vec![a, TransmissionID::Ratification], &vec![false, false]), Err(BftError::RatificationUnsupported));
}

fn sample_cache(signer: Address) -> ProposalCache {
    let ids = vec![TransmissionID::Solution(1, 1), TransmissionID::Transaction(2, 3), TransmissionID::Ratification];
    let c = committee(5);
    let mut h = header(signer, 5, ids.clone());
    h.timestamp = -17;
    h.previous_certificate_ids = vec![7, 8];
    let mut t: IndexMap<TransmissionID, Transmission> = IndexMap::new();
    t.insert(ids[0], Transmission::Solution(vec![1, 2, 3]));
    t.insert(ids[1], Transmission::Transaction(vec![]));
    t.insert(ids[2], Transmission::Ratification);
    let mut proposal = Proposal::new(&c, h, t).unwrap();
    proposal.add_signature(2, Signature { signer: 2, message: 42 }, &c).unwrap();
    let mut signed = SignedProposals::new();
    signed.insert(3, 4, 5, Signature { signer, message: 5 });
    ProposalCache::new(Some(proposal), signed)
}

#[test]
fn test_proposal_cache_bytes_roundtrip() {
    let cache = sample_cache(1);
    let bytes = cache.to_bytes_le().unwrap();
    assert_eq!(bytes[0], 1);
    let decoded = ProposalCache::from_bytes_le(&bytes).unwrap();
    assert_eq!(decoded.to_bytes_le().unwrap(), bytes);
    let (proposal, signed) = decoded.into();
    let proposal = proposal.unwrap();
    assert_eq!(proposal.round(), 5);
    assert_eq!(proposal.timestamp(), -17);
    assert_eq!(proposal.batch_header().previous_certificate_ids, vec![7, 8]);
    assert_eq!(proposal.transmissions().len(), 3);
    let mut signers = proposal.signers();
    signers.sort();
    assert_eq!(signers, vec![1, 2]);
    assert_eq!(signed.get(3), Some((4, 5, Signature { signer: 1, message: 5 })));
    // Loading checks the signer.
    assert!(ProposalCache::load(Some(&bytes), 1).is_ok());
    assert_eq!(ProposalCache::load(Some(&bytes), 2).err(), Some(CacheError::Invalid(2)));
}

#[test]
fn test_proposal_cache_default_and_errors() {
    let empty = ProposalCache::default();
    assert_eq!(empty.to_bytes_le().unwrap(), vec![0, 0, 0, 0, 0]);
    assert!(ProposalCache::from_bytes_le(&[0, 0, 0, 0, 0]).is_ok());
    assert_eq!(ProposalCache::from_bytes_le(&[2, 0, 0, 0, 0]).err(), Some(CacheError::Malformed));
    assert_eq!(ProposalCache::from_bytes_le(&[]).err(), Some(CacheError::Malformed));
    let bytes = sample_cache(1).to_bytes_le().unwrap();
    assert_eq!(ProposalCache::from_bytes_le(&bytes[..bytes.len() - 1]).err(), Some(CacheError::Malformed));
    assert_eq!(ProposalCache::load(None, 1).err(), Some(CacheError::CannotRead));
    assert_eq!(CacheError::CannotRead.message("/tmp/cache"), "Couldn't read the proposal stored at /tmp/cache");
    assert_eq!(CacheError::Malformed.message("/tmp/cache"), "Couldn't deserialize the proposal stored at /tmp/cache");
    assert_eq!(CacheError::Invalid(12).message("/tmp/cache"), "The proposal cache is invalid for the given address 12");
}

#[test]
fn test_consensus_transmissions() {
    let a = TransmissionID::Solution(1, 1);
    let b = TransmissionID::Transaction(2, 2);
    let older = BatchCertificate { certificate_id: 1, batch_header: header(1, 1, vec![a, b]), signatures: Vec::new() };
    let leader = BatchCertificate { certificate_id: 2, batch_header: header(2, 2, vec![a]), signatures: Vec::new() };
    let subdag = vec![older, leader];
    assert_eq!(anchor_round(&subdag), 2);
    assert_eq!(anchor_round(&Vec::new()), 0);
    // The leader's transmission repeats an earlier one; the ledger holds `b`.
    assert_eq!(consensus_transmissions(&subdag, 2, &vec![false, true, false]), Ok(vec![a]));
    let mismatch = consensus_transmissions(&subdag, 4, &vec![false, false, false]);
    assert_eq!(mismatch, Err(BftError::AnchorMismatch(2, 4)));
    assert_eq!(
        mismatch.unwrap_err().message(),
        "BFT failed to commit - the subdag anchor round 2 does not match the leader round 4"
    );
}

#[test]
fn test_garbage_collect_round() {
    let mut gc = 0;
    garbage_collect_round(&mut gc, 2, 1);
    assert_eq!(gc, 1);
    // Garbage collection never goes back.
    garbage_collect_round(&mut gc, 1, 5);
    assert_eq!(gc, 1);
    garbage_collect_round(&mut gc, 10, 3);
    assert_eq!(gc, 7);
}
