use rand::rngs::StdRng;
use rand::{Rng, SeedableRng};

use snarkos_node_bft::helpers::signed_proposals::SignedProposals;
use snarkos_node_bft::types::{Address, Signature};

const ITERATIONS: usize = 100;

/// The number of certificates a round can hold on the main network.
const MAX_CERTIFICATES: usize = 25;

fn sample_signed_proposals(signer: Address, rng: &mut StdRng) -> (SignedProposals, Vec<Address>) {
    let mut signed_proposals = SignedProposals::new();
    let mut authors = Vec::new();
    for _ in 0..MAX_CERTIFICATES {
        let address: Address = rng.gen();
        let round: u64 = rng.gen();
        let batch_id: u128 = rng.gen();
        signed_proposals.insert(address, round, batch_id, Signature { signer, message: batch_id });
        authors.push(address);
    }
    (signed_proposals, authors)
}

#[test]
fn test_bytes() {
    let mut rng = StdRng::seed_from_u64(7);
    let signer: Address = rng.gen();
    for _ in 0..ITERATIONS {
        let (expected, authors) = sample_signed_proposals(signer, &mut rng);
        let expected_bytes = expected.to_bytes_le().unwrap();
        let candidate = SignedProposals::read_le(&expected_bytes[..]).unwrap();
        assert_eq!(candidate.len(), expected.len());
        for author in authors {
            assert_eq!(candidate.get(author), expected.get(author));
        }
        assert_eq!(candidate.to_bytes_le().unwrap(), expected_bytes);
    }
}

#[test]
fn test_is_valid() {
    let mut rng = StdRng::seed_from_u64(8);
    for _ in 0..ITERATIONS {
        let signer: Address = rng.gen();
        let (signed_proposals, _) = sample_signed_proposals(signer, &mut rng);
        assert!(signed_proposals.is_valid(signer));
    }
}

#[test]
fn test_is_valid_rejects_other_signer() {
    let mut rng = StdRng::seed_from_u64(9);
    let signer: Address = rng.gen();
    let (mut signed_proposals, _) = sample_signed_proposals(signer, &mut rng);
    signed_proposals.insert(1, 2, 3, Signature { signer: signer.wrapping_add(1), message: 3 });
    assert!(!signed_proposals.is_valid(signer));
}

#[test]
fn test_read_le_rejects_truncated_bytes() {
    let mut rng = StdRng::seed_from_u64(10);
    let (signed_proposals, _) = sample_signed_proposals(5, &mut rng);
    let bytes = signed_proposals.to_bytes_le().unwrap();
    assert!(SignedProposals::read_le(&bytes[..bytes.len() - 1]).is_err());
    assert!(SignedProposals::read_le(&[]).is_err());
    // An empty set encodes as a zero count.
    let empty = SignedProposals::new();
    assert_eq!(empty.to_bytes_le().unwrap(), vec![0, 0, 0, 0]);
}
