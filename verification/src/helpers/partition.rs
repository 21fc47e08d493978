//! Assignment of transmissions to workers, by the double SHA-256 hash of their ID.
use vstd::prelude::*;
use vstd::bytes::{spec_u128_from_le_bytes, u128_from_le_bytes};
use sha2::{Digest, Sha256};
use crate::types::{spec_transmission_id_bytes, Transmission, TransmissionID};

verus! {

/// The SHA-256 digest of the bytes, as the `sha2` crate computes it.
pub uninterp spec fn spec_sha256(data: Seq<u8>) -> Seq<u8>;

/// Calls `sha2::Sha256::digest` on the bytes. The contract claims only that the
/// result is the digest of exactly these bytes (a pure function of them); the
/// 32-byte length is fixed by the array type.
#[verifier::external_body]
fn sha256(data: &[u8]) -> (r: [u8; 32])
    ensures
        r@ == spec_sha256(data@),
{
    let digest = Sha256::digest(data);
    let mut out = [0u8; 32];
    out.copy_from_slice(&digest);
    out
}

/// The SHA-256 digest of the SHA-256 digest of the bytes.
pub open spec fn spec_double_sha256(data: Seq<u8>) -> Seq<u8> {
    spec_sha256(spec_sha256(data))
}

/// Hashes the bytes twice with SHA-256.
pub fn double_sha256(data: &[u8]) -> (r: [u8; 32])
    ensures
        r@ == spec_double_sha256(data@),
{
    let first = sha256(data);
    sha256(first.as_slice())
}

/// The integer that the first 16 bytes of a digest encode in little-endian order.
pub open spec fn spec_digest_to_u128(digest: Seq<u8>) -> u128 {
    spec_u128_from_le_bytes(digest.subrange(0, 16))
}

/// Reads the first 16 bytes of a digest as a little-endian integer.
pub fn digest_to_u128(digest: &[u8; 32]) -> (r: u128)
    ensures
        r == spec_digest_to_u128(digest@),
{
    let mut head: Vec<u8> = Vec::new();
    let mut i: usize = 0;
    while i < 16
        invariant
            i <= 16,
            digest@.len() == 32,
            head@ == digest@.subrange(0, i as int),
        decreases 16 - i,
    {
        head.push(digest[i]);
        i = i + 1;
        assert(head@ =~= digest@.subrange(0, i as int));
    }
    u128_from_le_bytes(head.as_slice())
}

/// The double SHA-256 hash of the bytes, read as a little-endian `u128`.
pub open spec fn spec_sha256d_to_u128(data: Seq<u8>) -> u128 {
    spec_digest_to_u128(spec_double_sha256(data))
}

/// Hashes the bytes twice with SHA-256, and reads the first 16 bytes as a little-endian `u128`.
pub fn sha256d_to_u128(data: &[u8]) -> (r: u128)
    ensures
        r == spec_sha256d_to_u128(data@),
{
    let digest = double_sha256(data);
    digest_to_u128(&digest)
}

/// The worker for a hash: the hash modulo the number of workers.
pub open spec fn spec_worker_for_hash(hash: u128, num_workers: u8) -> u8 {
    (hash % (num_workers as u128)) as u8
}

/// The worker for a hash, among `num_workers` workers.
pub fn worker_for_hash(hash: u128, num_workers: u8) -> (r: u8)
    requires
        num_workers > 0,
    ensures
        r == spec_worker_for_hash(hash, num_workers),
        r < num_workers,
{
    (hash % (num_workers as u128)) as u8
}

/// The worker that the transmission ID is assigned to.
pub open spec fn spec_assign_to_worker(id: TransmissionID, num_workers: u8) -> u8 {
    if num_workers == 1 {
        0
    } else {
        spec_worker_for_hash(spec_sha256d_to_u128(spec_transmission_id_bytes(id)), num_workers)
    }
}

/// Returns the worker ID for the given transmission ID.
pub fn assign_to_worker(transmission_id: TransmissionID, num_workers: u8) -> (r: u8)
    requires
        num_workers > 0,
    ensures
        r == spec_assign_to_worker(transmission_id, num_workers),
        r < num_workers,
{
    // If there is only one worker, return it.
    if num_workers == 1 {
        return 0;
    }
    let bytes = transmission_id.to_bytes_le();
    let hash = sha256d_to_u128(bytes.as_slice());
    worker_for_hash(hash, num_workers)
}

/// Assigns each `(transmission ID, transmission)` entry to its worker, in order:
/// the result pairs each entry with the ID of the worker that it belongs to.
pub fn assign_to_workers(
    num_workers: usize,
    transmissions: Vec<(TransmissionID, Transmission)>,
) -> (r: Vec<(u8, TransmissionID, Transmission)>)
    requires
        num_workers <= 255,
        num_workers > 0 || transmissions@.len() == 0,
    ensures
        r@.len() == transmissions@.len(),
        forall|i: int|
            0 <= i < r@.len() ==> {
                &&& (#[trigger] r@[i]).1 == transmissions@[i].0
                &&& r@[i].2 == transmissions@[i].1
                &&& r@[i].0 == spec_assign_to_worker(transmissions@[i].0, num_workers as u8)
                &&& (r@[i].0 as int) < num_workers
            },
{
    let n = num_workers as u8;
    let mut out: Vec<(u8, TransmissionID, Transmission)> = Vec::new();
    let mut rest = transmissions;
    let ghost input = rest@;
    // Process the entries from the last to the first, then reverse.
    let mut reversed: Vec<(u8, TransmissionID, Transmission)> = Vec::new();
    while rest.len() > 0
        invariant
            n == num_workers as u8,
            num_workers <= 255,
            num_workers > 0 || input.len() == 0,
            rest@ == input.subrange(0, rest@.len() as int),
            rest@.len() + reversed@.len() == input.len(),
            forall|j: int|
                0 <= j < reversed@.len() ==> {
                    let k = input.len() - 1 - j;
                    &&& (#[trigger] reversed@[j]).1 == input[k].0
                    &&& reversed@[j].2 == input[k].1
                    &&& reversed@[j].0 == spec_assign_to_worker(input[k].0, n)
                    &&& (reversed@[j].0 as int) < num_workers
                },
        decreases rest@.len(),
    {
        let ghost before = rest@;
        let (id, transmission) = rest.pop().unwrap();
        proof {
            assert(rest@ =~= input.subrange(0, rest@.len() as int));
            assert(before[before.len() - 1] == input[rest@.len() as int]);
        }
        let worker_id = assign_to_worker(id, n);
        reversed.push((worker_id, id, transmission));
    }
    while reversed.len() > 0
        invariant
            n == num_workers as u8,
            reversed@.len() + out@.len() == input.len(),
            forall|j: int|
                0 <= j < reversed@.len() ==> {
                    let k = input.len() - 1 - j;
                    &&& (#[trigger] reversed@[j]).1 == input[k].0
                    &&& reversed@[j].2 == input[k].1
                    &&& reversed@[j].0 == spec_assign_to_worker(input[k].0, n)
                    &&& (reversed@[j].0 as int) < num_workers
                },
            forall|i: int|
                0 <= i < out@.len() ==> {
                    &&& (#[trigger] out@[i]).1 == input[i].0
                    &&& out@[i].2 == input[i].1
                    &&& out@[i].0 == spec_assign_to_worker(input[i].0, n)
                    &&& (out@[i].0 as int) < num_workers
                },
        decreases reversed@.len(),
    {
        let ghost before = reversed@;
        let entry = reversed.pop().unwrap();
        proof {
            assert(entry == before[before.len() - 1]);
            assert forall|j: int| 0 <= j < reversed@.len() implies reversed@[j] == before[j] by {}
        }
        out.push(entry);
    }
    out
}

} // verus!
