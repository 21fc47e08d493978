//! Little-endian encoding of the values that a batch proposal holds, and their reading at a
//! position of a byte sequence.
use vstd::prelude::*;
use vstd::bytes::{
    lemma_auto_spec_u128_to_from_le_bytes, lemma_auto_spec_u32_to_from_le_bytes,
    lemma_auto_spec_u64_to_from_le_bytes, spec_u128_from_le_bytes, spec_u128_to_le_bytes, spec_u32_from_le_bytes, spec_u32_to_le_bytes,
    spec_u64_from_le_bytes, spec_u64_to_le_bytes, u128_from_le_bytes, u32_from_le_bytes,
    u32_to_le_bytes, u64_from_le_bytes, u64_to_le_bytes,
};
use vstd::slice::{slice_subrange, slice_to_vec};
use crate::helpers::signed_proposals::spec_read_field;
use crate::types::{
    BatchHeader, BatchHeaderView, field_to_bytes, spec_field_to_bytes, spec_transmission_id_bytes, Field, Signature,
    Transmission, TransmissionData, TransmissionID,
};

verus! {

// ---------------------------------------------------------------------------------------
// Encoding
// ---------------------------------------------------------------------------------------

/// The encoding of a signature: the signer, then the signed message.
pub open spec fn spec_signature_bytes(s: Signature) -> Seq<u8> {
    spec_u64_to_le_bytes(s.signer) + spec_field_to_bytes(s.message)
}

/// The encoding of a transmission: a tag, then for a solution or a transaction the length
/// of its bytes as a `u32` and the bytes.
pub open spec fn spec_transmission_bytes(t: TransmissionData) -> Seq<u8> {
    match t {
        TransmissionData::Ratification => seq![0u8],
        TransmissionData::Solution(d) => seq![1u8] + spec_u32_to_le_bytes(d.len() as u32) + d,
        TransmissionData::Transaction(d) => seq![2u8] + spec_u32_to_le_bytes(d.len() as u32) + d,
    }
}

/// The encodings of the transmission IDs, one after the other.
pub open spec fn spec_ids_bytes(s: Seq<TransmissionID>) -> Seq<u8>
    decreases s.len(),
{
    if s.len() == 0 {
        Seq::empty()
    } else {
        spec_ids_bytes(s.drop_last()) + spec_transmission_id_bytes(s.last())
    }
}

/// The encodings of the field elements, one after the other.
pub open spec fn spec_fields_bytes(s: Seq<Field>) -> Seq<u8>
    decreases s.len(),
{
    if s.len() == 0 {
        Seq::empty()
    } else {
        spec_fields_bytes(s.drop_last()) + spec_field_to_bytes(s.last())
    }
}

/// The encodings of the transmissions, each ID before its transmission.
pub open spec fn spec_transmissions_bytes(s: Seq<(TransmissionID, TransmissionData)>) -> Seq<u8>
    decreases s.len(),
{
    if s.len() == 0 {
        Seq::empty()
    } else {
        spec_transmissions_bytes(s.drop_last()) + spec_transmission_id_bytes(s.last().0)
            + spec_transmission_bytes(s.last().1)
    }
}

/// The encodings of the signatures, one after the other.
pub open spec fn spec_signatures_bytes(s: Seq<Signature>) -> Seq<u8>
    decreases s.len(),
{
    if s.len() == 0 {
        Seq::empty()
    } else {
        spec_signatures_bytes(s.drop_last()) + spec_signature_bytes(s.last())
    }
}

/// Appends the encoding of a signature.
pub fn write_signature(out: &mut Vec<u8>, s: Signature)
    ensures
        final(out)@ == old(out)@ + spec_signature_bytes(s),
{
    let mut a = u64_to_le_bytes(s.signer);
    let mut b = field_to_bytes(s.message);
    out.append(&mut a);
    out.append(&mut b);
}

/// Appends the encoding of a transmission.
pub fn write_transmission(out: &mut Vec<u8>, t: &Transmission)
    requires
        match t@ {
            TransmissionData::Solution(d) => d.len() <= u32::MAX,
            TransmissionData::Transaction(d) => d.len() <= u32::MAX,
            TransmissionData::Ratification => true,
        },
    ensures
        final(out)@ == old(out)@ + spec_transmission_bytes(t@),
{
    let ghost start = out@;
    match t {
        Transmission::Ratification => {
            out.push(0u8);
            assert(out@ =~= start + seq![0u8]);
        },
        Transmission::Solution(d) => {
            out.push(1u8);
            let mut n = u32_to_le_bytes(d.len() as u32);
            let mut c = slice_to_vec(d.as_slice());
            out.append(&mut n);
            out.append(&mut c);
            assert(out@ =~= start + (seq![1u8] + spec_u32_to_le_bytes(d@.len() as u32) + d@));
        },
        Transmission::Transaction(d) => {
            out.push(2u8);
            let mut n = u32_to_le_bytes(d.len() as u32);
            let mut c = slice_to_vec(d.as_slice());
            out.append(&mut n);
            out.append(&mut c);
            assert(out@ =~= start + (seq![2u8] + spec_u32_to_le_bytes(d@.len() as u32) + d@));
        },
    }
}

/// Appends the number of transmission IDs as a `u32`, then their encodings.
pub fn write_ids(out: &mut Vec<u8>, ids: &Vec<TransmissionID>)
    requires
        ids@.len() <= u32::MAX,
    ensures
        final(out)@ == old(out)@ + spec_u32_to_le_bytes(ids@.len() as u32) + spec_ids_bytes(ids@),
{
    let mut n = u32_to_le_bytes(ids.len() as u32);
    out.append(&mut n);
    let ghost head = out@;
    let mut i: usize = 0;
    while i < ids.len()
        invariant
            i <= ids@.len(),
            out@ == head + spec_ids_bytes(ids@.subrange(0, i as int)),
        decreases ids@.len() - i,
    {
        let mut b = ids[i].to_bytes_le();
        let ghost before = out@;
        out.append(&mut b);
        proof {
            let s = ids@.subrange(0, i as int + 1);
            assert(s.drop_last() =~= ids@.subrange(0, i as int));
            assert(out@ =~= before + spec_transmission_id_bytes(s.last()));
        }
        i = i + 1;
    }
    assert(ids@.subrange(0, ids@.len() as int) =~= ids@);
}

/// Appends the number of field elements as a `u32`, then their encodings.
pub fn write_fields(out: &mut Vec<u8>, fields: &Vec<Field>)
    requires
        fields@.len() <= u32::MAX,
    ensures
        final(out)@ == old(out)@ + spec_u32_to_le_bytes(fields@.len() as u32) + spec_fields_bytes(fields@),
{
    let mut n = u32_to_le_bytes(fields.len() as u32);
    out.append(&mut n);
    let ghost head = out@;
    let mut i: usize = 0;
    while i < fields.len()
        invariant
            i <= fields@.len(),
            out@ == head + spec_fields_bytes(fields@.subrange(0, i as int)),
        decreases fields@.len() - i,
    {
        let mut b = field_to_bytes(fields[i]);
        let ghost before = out@;
        out.append(&mut b);
        proof {
            let s = fields@.subrange(0, i as int + 1);
            assert(s.drop_last() =~= fields@.subrange(0, i as int));
            assert(out@ =~= before + spec_field_to_bytes(s.last()));
        }
        i = i + 1;
    }
    assert(fields@.subrange(0, fields@.len() as int) =~= fields@);
}

// ---------------------------------------------------------------------------------------
// Reading at a position
// ---------------------------------------------------------------------------------------

/// The `n` bytes at position `p`, and the position after them; `None` if they run past the
/// end.
pub open spec fn spec_take(b: Seq<u8>, p: int, n: int) -> Option<(Seq<u8>, int)> {
    if 0 <= p && 0 <= n && p + n <= b.len() {
        Some((b.subrange(p, p + n), p + n))
    } else {
        None
    }
}

/// The `u32` at position `p`, and the position after it.
pub open spec fn spec_read_u32_at(b: Seq<u8>, p: int) -> Option<(u32, int)> {
    match spec_take(b, p, 4) {
        Some((s, q)) => Some((spec_u32_from_le_bytes(s), q)),
        None => None,
    }
}

/// The `u64` at position `p`, and the position after it.
pub open spec fn spec_read_u64_at(b: Seq<u8>, p: int) -> Option<(u64, int)> {
    match spec_take(b, p, 8) {
        Some((s, q)) => Some((spec_u64_from_le_bytes(s), q)),
        None => None,
    }
}

/// The `u128` at position `p`, and the position after it.
pub open spec fn spec_read_u128_at(b: Seq<u8>, p: int) -> Option<(u128, int)> {
    match spec_take(b, p, 16) {
        Some((s, q)) => Some((spec_u128_from_le_bytes(s), q)),
        None => None,
    }
}

/// The field element at position `p`, and the position after it.
pub open spec fn spec_read_field_at(b: Seq<u8>, p: int) -> Option<(Field, int)> {
    match spec_take(b, p, 32) {
        Some((s, q)) => match spec_read_field(s) {
            Some(f) => Some((f, q)),
            None => None,
        },
        None => None,
    }
}

/// The signature at position `p`, and the position after it.
pub open spec fn spec_read_signature_at(b: Seq<u8>, p: int) -> Option<(Signature, int)> {
    match spec_read_u64_at(b, p) {
        Some((signer, q)) => match spec_read_field_at(b, q) {
            Some((message, r)) => Some((Signature { signer, message }, r)),
            None => None,
        },
        None => None,
    }
}

/// The transmission ID at position `p`, and the position after it.
pub open spec fn spec_read_id_at(b: Seq<u8>, p: int) -> Option<(TransmissionID, int)> {
    if 0 <= p < b.len() {
        if b[p] == 0u8 {
            Some((TransmissionID::Ratification, p + 1))
        } else if b[p] == 1u8 {
            match spec_read_u64_at(b, p + 1) {
                Some((s, q)) => match spec_read_u128_at(b, q) {
                    Some((c, r)) => Some((TransmissionID::Solution(s, c), r)),
                    None => None,
                },
                None => None,
            }
        } else if b[p] == 2u8 {
            match spec_read_field_at(b, p + 1) {
                Some((t, q)) => match spec_read_u128_at(b, q) {
                    Some((c, r)) => Some((TransmissionID::Transaction(t, c), r)),
                    None => None,
                },
                None => None,
            }
        } else {
            None
        }
    } else {
        None
    }
}

/// The transmission at position `p`, and the position after it.
pub open spec fn spec_read_transmission_at(b: Seq<u8>, p: int) -> Option<(TransmissionData, int)> {
    if 0 <= p < b.len() {
        if b[p] == 0u8 {
            Some((TransmissionData::Ratification, p + 1))
        } else if b[p] == 1u8 || b[p] == 2u8 {
            match spec_read_u32_at(b, p + 1) {
                Some((n, q)) => match spec_take(b, q, n as int) {
                    Some((d, r)) => if b[p] == 1u8 {
                        Some((TransmissionData::Solution(d), r))
                    } else {
                        Some((TransmissionData::Transaction(d), r))
                    },
                    None => None,
                },
                None => None,
            }
        } else {
            None
        }
    } else {
        None
    }
}

/// Reads the `u32` at position `p`.
pub fn read_u32_at(b: &[u8], p: usize) -> (r: Option<(u32, usize)>)
    ensures
        match r {
            Some((v, q)) => spec_read_u32_at(b@, p as int) == Some((v, q as int)),
            None => spec_read_u32_at(b@, p as int) is None,
        },
{
    if p > b.len() || b.len() - p < 4 {
        return None;
    }
    Some((u32_from_le_bytes(slice_subrange(b, p, p + 4)), p + 4))
}

/// Reads the `u64` at position `p`.
pub fn read_u64_at(b: &[u8], p: usize) -> (r: Option<(u64, usize)>)
    ensures
        match r {
            Some((v, q)) => spec_read_u64_at(b@, p as int) == Some((v, q as int)),
            None => spec_read_u64_at(b@, p as int) is None,
        },
{
    if p > b.len() || b.len() - p < 8 {
        return None;
    }
    Some((u64_from_le_bytes(slice_subrange(b, p, p + 8)), p + 8))
}

/// Reads the `u128` at position `p`.
pub fn read_u128_at(b: &[u8], p: usize) -> (r: Option<(u128, usize)>)
    ensures
        match r {
            Some((v, q)) => spec_read_u128_at(b@, p as int) == Some((v, q as int)),
            None => spec_read_u128_at(b@, p as int) is None,
        },
{
    if p > b.len() || b.len() - p < 16 {
        return None;
    }
    Some((u128_from_le_bytes(slice_subrange(b, p, p + 16)), p + 16))
}

/// Reads the field element at position `p`.
pub fn read_field_at(b: &[u8], p: usize) -> (r: Option<(Field, usize)>)
    ensures
        match r {
            Some((v, q)) => spec_read_field_at(b@, p as int) == Some((v, q as int)),
            None => spec_read_field_at(b@, p as int) is None,
        },
{
    if p > b.len() || b.len() - p < 32 {
        return None;
    }
    let s = slice_subrange(b, p, p + 32);
    let mut i: usize = 16;
    while i < 32
        invariant
            s@.len() == 32,
            p + 32 <= b@.len(),
            s@ == b@.subrange(p as int, p + 32),
            16 <= i <= 32,
            forall|j: int| 16 <= j < i ==> s@[j] == 0u8,
        decreases 32 - i,
    {
        if s[i] != 0 {
            assert(s@[i as int] != 0u8);
            assert(spec_read_field(s@) is None);
            assert(spec_take(b@, p as int, 32) == Some((s@, p + 32)));
            return None;
        }
        i = i + 1;
    }
    Some((u128_from_le_bytes(slice_subrange(s, 0, 16)), p + 32))
}

/// Reads the signature at position `p`.
pub fn read_signature_at(b: &[u8], p: usize) -> (r: Option<(Signature, usize)>)
    ensures
        match r {
            Some((v, q)) => spec_read_signature_at(b@, p as int) == Some((v, q as int)),
            None => spec_read_signature_at(b@, p as int) is None,
        },
{
    let (signer, q) = match read_u64_at(b, p) {
        Some(x) => x,
        None => return None,
    };
    let (message, r) = match read_field_at(b, q) {
        Some(x) => x,
        None => return None,
    };
    Some((Signature { signer, message }, r))
}

/// Reads the transmission ID at position `p`.
pub fn read_id_at(b: &[u8], p: usize) -> (r: Option<(TransmissionID, usize)>)
    ensures
        match r {
            Some((v, q)) => spec_read_id_at(b@, p as int) == Some((v, q as int)),
            None => spec_read_id_at(b@, p as int) is None,
        },
{
    if p >= b.len() {
        return None;
    }
    let tag = b[p];
    if tag == 0 {
        Some((TransmissionID::Ratification, p + 1))
    } else if tag == 1 {
        let (s, q) = match read_u64_at(b, p + 1) {
            Some(x) => x,
            None => return None,
        };
        let (c, r) = match read_u128_at(b, q) {
            Some(x) => x,
            None => return None,
        };
        Some((TransmissionID::Solution(s, c), r))
    } else if tag == 2 {
        let (t, q) = match read_field_at(b, p + 1) {
            Some(x) => x,
            None => return None,
        };
        let (c, r) = match read_u128_at(b, q) {
            Some(x) => x,
            None => return None,
        };
        Some((TransmissionID::Transaction(t, c), r))
    } else {
        None
    }
}

/// Reads the transmission at position `p`.
pub fn read_transmission_at(b: &[u8], p: usize) -> (r: Option<(Transmission, usize)>)
    ensures
        match r {
            Some((v, q)) => spec_read_transmission_at(b@, p as int) == Some((v@, q as int)),
            None => spec_read_transmission_at(b@, p as int) is None,
        },
{
    if p >= b.len() {
        return None;
    }
    let tag = b[p];
    if tag == 0 {
        return Some((Transmission::Ratification, p + 1));
    }
    if tag != 1 && tag != 2 {
        return None;
    }
    let (n, q) = match read_u32_at(b, p + 1) {
        Some(x) => x,
        None => return None,
    };
    if q > b.len() || ((b.len() - q) as u64) < (n as u64) {
        return None;
    }
    let end: usize = q + n as usize;
    let d = slice_to_vec(slice_subrange(b, q, end));
    if tag == 1 {
        Some((Transmission::Solution(d), end))
    } else {
        Some((Transmission::Transaction(d), end))
    }
}

/// The `k` transmission IDs from position `p`, and the position after them.
pub open spec fn spec_read_ids_at(b: Seq<u8>, p: int, k: nat) -> Option<(Seq<TransmissionID>, int)>
    decreases k,
{
    if k == 0 {
        Some((Seq::empty(), p))
    } else {
        match spec_read_id_at(b, p) {
            Some((x, q)) => match spec_read_ids_at(b, q, (k - 1) as nat) {
                Some((s, r)) => Some((seq![x] + s, r)),
                None => None,
            },
            None => None,
        }
    }
}

/// The `k` field elements from position `p`, and the position after them.
pub open spec fn spec_read_fields_at(b: Seq<u8>, p: int, k: nat) -> Option<(Seq<Field>, int)>
    decreases k,
{
    if k == 0 {
        Some((Seq::empty(), p))
    } else {
        match spec_read_field_at(b, p) {
            Some((x, q)) => match spec_read_fields_at(b, q, (k - 1) as nat) {
                Some((s, r)) => Some((seq![x] + s, r)),
                None => None,
            },
            None => None,
        }
    }
}

/// The `k` transmissions (each ID before its transmission) from position `p`, and the
/// position after them.
pub open spec fn spec_read_transmissions_at(b: Seq<u8>, p: int, k: nat) -> Option<(Seq<(TransmissionID, TransmissionData)>, int)>
    decreases k,
{
    if k == 0 {
        Some((Seq::empty(), p))
    } else {
        match spec_read_id_at(b, p) {
            Some((id, q)) => match spec_read_transmission_at(b, q) {
                Some((t, q2)) => match spec_read_transmissions_at(b, q2, (k - 1) as nat) {
                    Some((s, r)) => Some((seq![(id, t)] + s, r)),
                    None => None,
                },
                None => None,
            },
            None => None,
        }
    }
}

/// The `k` signatures from position `p`, and the position after them.
pub open spec fn spec_read_signatures_at(b: Seq<u8>, p: int, k: nat) -> Option<(Seq<Signature>, int)>
    decreases k,
{
    if k == 0 {
        Some((Seq::empty(), p))
    } else {
        match spec_read_signature_at(b, p) {
            Some((x, q)) => match spec_read_signatures_at(b, q, (k - 1) as nat) {
                Some((s, r)) => Some((seq![x] + s, r)),
                None => None,
            },
            None => None,
        }
    }
}

/// A count as a `u32` at position `p`, then that many transmission IDs.
pub open spec fn spec_read_id_list_at(b: Seq<u8>, p: int) -> Option<(Seq<TransmissionID>, int)> {
    match spec_read_u32_at(b, p) {
        Some((n, q)) => spec_read_ids_at(b, q, n as nat),
        None => None,
    }
}

/// A count as a `u32` at position `p`, then that many field elements.
pub open spec fn spec_read_field_list_at(b: Seq<u8>, p: int) -> Option<(Seq<Field>, int)> {
    match spec_read_u32_at(b, p) {
        Some((n, q)) => spec_read_fields_at(b, q, n as nat),
        None => None,
    }
}

/// Appending an item, then a sequence, is appending the sequence that the item starts.
pub proof fn lemma_push_concat<T>(a: Seq<T>, x: T, s: Seq<T>)
    ensures
        a.push(x) + s == a + (seq![x] + s),
{
    assert(a.push(x) + s =~= a + (seq![x] + s));
}

/// Reads a count as a `u32` at position `p`, then that many transmission IDs.
pub fn read_id_list_at(b: &[u8], p: usize) -> (r: Option<(Vec<TransmissionID>, usize)>)
    ensures
        match r {
            Some((v, q)) => spec_read_id_list_at(b@, p as int) == Some((v@, q as int)),
            None => spec_read_id_list_at(b@, p as int) is None,
        },
{
    let (n, q0) = match read_u32_at(b, p) {
        Some(x) => x,
        None => return None,
    };
    let mut acc: Vec<TransmissionID> = Vec::new();
    let mut cur: usize = q0;
    let mut k: u32 = 0;
    assert(acc@ + Seq::<TransmissionID>::empty() =~= acc@);
    proof {
        match spec_read_ids_at(b@, q0 as int, n as nat) {
            Some((s, r)) => { assert(acc@ + s =~= s); },
            None => {},
        }
    }
    while k < n
        invariant
            k <= n,
            spec_read_id_list_at(b@, p as int) == (match spec_read_ids_at(b@, cur as int, (n - k) as nat) {
                Some((s, r)) => Some((acc@ + s, r)),
                None => None,
            }),
        decreases n - k,
    {
        match read_id_at(b, cur) {
            Some((x, q)) => {
                proof {
                    match spec_read_ids_at(b@, q as int, (n - k - 1) as nat) {
                        Some((s, r)) => lemma_push_concat(acc@, x, s),
                        None => {},
                    }
                }
                acc.push(x);
                cur = q;
            },
            None => return None,
        }
        k = k + 1;
    }
    assert(acc@ + Seq::<TransmissionID>::empty() =~= acc@);
    Some((acc, cur))
}

/// Reads a count as a `u32` at position `p`, then that many field elements.
pub fn read_field_list_at(b: &[u8], p: usize) -> (r: Option<(Vec<Field>, usize)>)
    ensures
        match r {
            Some((v, q)) => spec_read_field_list_at(b@, p as int) == Some((v@, q as int)),
            None => spec_read_field_list_at(b@, p as int) is None,
        },
{
    let (n, q0) = match read_u32_at(b, p) {
        Some(x) => x,
        None => return None,
    };
    let mut acc: Vec<Field> = Vec::new();
    let mut cur: usize = q0;
    let mut k: u32 = 0;
    proof {
        match spec_read_fields_at(b@, q0 as int, n as nat) {
            Some((s, r)) => { assert(acc@ + s =~= s); },
            None => {},
        }
    }
    while k < n
        invariant
            k <= n,
            spec_read_field_list_at(b@, p as int) == (match spec_read_fields_at(b@, cur as int, (n - k) as nat) {
                Some((s, r)) => Some((acc@ + s, r)),
                None => None,
            }),
        decreases n - k,
    {
        match read_field_at(b, cur) {
            Some((x, q)) => {
                proof {
                    match spec_read_fields_at(b@, q as int, (n - k - 1) as nat) {
                        Some((s, r)) => lemma_push_concat(acc@, x, s),
                        None => {},
                    }
                }
                acc.push(x);
                cur = q;
            },
            None => return None,
        }
        k = k + 1;
    }
    assert(acc@ + Seq::<Field>::empty() =~= acc@);
    Some((acc, cur))
}

/// `true` if each list of the header has at most as many items as a `u32` counts.
pub open spec fn spec_header_encodable(h: BatchHeaderView) -> bool {
    &&& h.transmission_ids.len() <= u32::MAX
    &&& h.previous_certificate_ids.len() <= u32::MAX
    &&& h.last_election_certificate_ids.len() <= u32::MAX
}

/// The encoding of a batch header: the batch ID, the author, the round, the timestamp (its
/// two's-complement bits), each list as its count and its items, and the signature.
pub open spec fn spec_header_bytes(h: BatchHeaderView) -> Seq<u8> {
    spec_field_to_bytes(h.batch_id) + spec_u64_to_le_bytes(h.author) + spec_u64_to_le_bytes(h.round)
        + spec_u64_to_le_bytes(h.timestamp as u64)
        + spec_u32_to_le_bytes(h.transmission_ids.len() as u32) + spec_ids_bytes(h.transmission_ids)
        + spec_u32_to_le_bytes(h.previous_certificate_ids.len() as u32)
        + spec_fields_bytes(h.previous_certificate_ids)
        + spec_u32_to_le_bytes(h.last_election_certificate_ids.len() as u32)
        + spec_fields_bytes(h.last_election_certificate_ids) + spec_signature_bytes(h.signature)
}

/// The batch header at position `p`, and the position after it; `None` if the bytes do not
/// encode one, or encode one that its author did not sign.
pub open spec fn spec_read_header_at(b: Seq<u8>, p: int) -> Option<(BatchHeaderView, int)> {
    match spec_read_field_at(b, p) {
        None => None,
        Some((batch_id, p1)) => match spec_read_u64_at(b, p1) {
            None => None,
            Some((author, p2)) => match spec_read_u64_at(b, p2) {
                None => None,
                Some((round, p3)) => match spec_read_u64_at(b, p3) {
                    None => None,
                    Some((ts, p4)) => match spec_read_id_list_at(b, p4) {
                        None => None,
                        Some((ids, p5)) => match spec_read_field_list_at(b, p5) {
                            None => None,
                            Some((prev, p6)) => match spec_read_field_list_at(b, p6) {
                                None => None,
                                Some((last, p7)) => match spec_read_signature_at(b, p7) {
                                    None => None,
                                    Some((signature, p8)) => {
                                        let h = BatchHeaderView {
                                            batch_id,
                                            author,
                                            round,
                                            timestamp: ts as i64,
                                            transmission_ids: ids,
                                            previous_certificate_ids: prev,
                                            last_election_certificate_ids: last,
                                            signature,
                                        };
                                        if h.is_signed_by_author() {
                                            Some((h, p8))
                                        } else {
                                            None
                                        }
                                    },
                                },
                            },
                        },
                    },
                },
            },
        },
    }
}

/// Appends the encoding of a batch header.
pub fn write_header(out: &mut Vec<u8>, h: &BatchHeader)
    requires
        spec_header_encodable(h@),
    ensures
        final(out)@ == old(out)@ + spec_header_bytes(h@),
{
    let ghost start = out@;
    let mut a = field_to_bytes(h.batch_id);
    let mut b = u64_to_le_bytes(h.author);
    let mut c = u64_to_le_bytes(h.round);
    let mut d = u64_to_le_bytes(h.timestamp as u64);
    out.append(&mut a);
    out.append(&mut b);
    out.append(&mut c);
    out.append(&mut d);
    write_ids(out, &h.transmission_ids);
    write_fields(out, &h.previous_certificate_ids);
    write_fields(out, &h.last_election_certificate_ids);
    write_signature(out, h.signature);
    assert(out@ =~= start + spec_header_bytes(h@));
}

/// Reads the batch header at position `p`.
pub fn read_header_at(b: &[u8], p: usize) -> (r: Option<(BatchHeader, usize)>)
    ensures
        match r {
            Some((v, q)) => spec_read_header_at(b@, p as int) == Some((v@, q as int)),
            None => spec_read_header_at(b@, p as int) is None,
        },
{
    let (batch_id, p1) = match read_field_at(b, p) {
        Some(x) => x,
        None => return None,
    };
    let (author, p2) = match read_u64_at(b, p1) {
        Some(x) => x,
        None => return None,
    };
    let (round, p3) = match read_u64_at(b, p2) {
        Some(x) => x,
        None => return None,
    };
    let (ts, p4) = match read_u64_at(b, p3) {
        Some(x) => x,
        None => return None,
    };
    let (transmission_ids, p5) = match read_id_list_at(b, p4) {
        Some(x) => x,
        None => return None,
    };
    let (previous_certificate_ids, p6) = match read_field_list_at(b, p5) {
        Some(x) => x,
        None => return None,
    };
    let (last_election_certificate_ids, p7) = match read_field_list_at(b, p6) {
        Some(x) => x,
        None => return None,
    };
    let (signature, p8) = match read_signature_at(b, p7) {
        Some(x) => x,
        None => return None,
    };
    if signature.signer != author || signature.message != batch_id {
        return None;
    }
    let h = BatchHeader {
        batch_id,
        author,
        round,
        timestamp: ts as i64,
        transmission_ids,
        previous_certificate_ids,
        last_election_certificate_ids,
        signature,
    };
    Some((h, p8))
}

/// `true` if no two transmissions have the same ID.
pub open spec fn spec_ids_distinct(s: Seq<(TransmissionID, TransmissionData)>) -> bool {
    forall|i: int, j: int| 0 <= i < j < s.len() ==> s[i].0 != s[j].0
}

/// `true` if the bytes of a solution or a transaction are at most as many as a `u32` counts.
pub open spec fn spec_transmission_encodable(t: TransmissionData) -> bool {
    match t {
        TransmissionData::Solution(d) => d.len() <= u32::MAX,
        TransmissionData::Transaction(d) => d.len() <= u32::MAX,
        TransmissionData::Ratification => true,
    }
}

/// `true` if every count of the proposal fits in a `u32`.
pub open spec fn spec_proposal_encodable(
    h: BatchHeaderView,
    entries: Seq<(TransmissionID, TransmissionData)>,
    sigs: Seq<Signature>,
) -> bool {
    &&& spec_header_encodable(h)
    &&& entries.len() <= u32::MAX
    &&& sigs.len() <= u32::MAX
    &&& forall|i: int| 0 <= i < entries.len() ==> spec_transmission_encodable(#[trigger] entries[i].1)
}

/// The encoding of a proposal: its header, the number of its transmissions as a `u32` and
/// the transmissions, the number of its collected signatures as a `u32` and the signatures.
pub open spec fn spec_proposal_bytes(
    h: BatchHeaderView,
    entries: Seq<(TransmissionID, TransmissionData)>,
    sigs: Seq<Signature>,
) -> Seq<u8> {
    spec_header_bytes(h) + spec_u32_to_le_bytes(entries.len() as u32) + spec_transmissions_bytes(entries)
        + spec_u32_to_le_bytes(sigs.len() as u32) + spec_signatures_bytes(sigs)
}

/// The proposal (header, transmissions, collected signatures) at position `p`, and the
/// position after it; `None` if the bytes do not encode one, or encode two transmissions
/// with one ID or one signature twice.
pub open spec fn spec_read_proposal_at(b: Seq<u8>, p: int) -> Option<(
    (BatchHeaderView, Seq<(TransmissionID, TransmissionData)>, Seq<Signature>),
    int,
)> {
    match spec_read_header_at(b, p) {
        None => None,
        Some((h, p1)) => match spec_read_u32_at(b, p1) {
            None => None,
            Some((n, p2)) => match spec_read_transmissions_at(b, p2, n as nat) {
                None => None,
                Some((entries, p3)) => if !spec_ids_distinct(entries) {
                    None
                } else {
                    match spec_read_u32_at(b, p3) {
                        None => None,
                        Some((m, p4)) => match spec_read_signatures_at(b, p4, m as nat) {
                            None => None,
                            Some((sigs, p5)) => if sigs.no_duplicates() {
                                Some(((h, entries, sigs), p5))
                            } else {
                                None
                            },
                        },
                    }
                },
            },
        },
    }
}

/// Appending a transmission whose ID the others lack keeps the IDs distinct.
pub proof fn lemma_distinct_push(acc: Seq<(TransmissionID, TransmissionData)>, x: (TransmissionID, TransmissionData))
    requires
        spec_ids_distinct(acc),
        !(exists|i: int| 0 <= i < acc.len() && acc[i].0 == x.0),
    ensures
        spec_ids_distinct(acc.push(x)),
{
    let s = acc.push(x);
    assert forall|i: int, j: int| 0 <= i < j < s.len() implies s[i].0 != s[j].0 by {
        if j == acc.len() {
            assert(s[i] == acc[i]);
        } else {
            assert(s[i] == acc[i] && s[j] == acc[j]);
        }
    }
}

/// Transmissions that follow one whose ID an earlier one has are not distinct.
pub proof fn lemma_dup_not_distinct(
    acc: Seq<(TransmissionID, TransmissionData)>,
    x: (TransmissionID, TransmissionData),
    rest: Seq<(TransmissionID, TransmissionData)>,
)
    requires
        exists|i: int| 0 <= i < acc.len() && acc[i].0 == x.0,
    ensures
        !spec_ids_distinct(acc + (seq![x] + rest)),
{
    let i = choose|i: int| 0 <= i < acc.len() && acc[i].0 == x.0;
    let s = acc + (seq![x] + rest);
    assert(s[i] == acc[i]);
    assert(s[acc.len() as int] == x);
}

/// Appending a signature that the others lack keeps the signatures free of duplicates.
pub proof fn lemma_no_dup_push(acc: Seq<Signature>, x: Signature)
    requires
        acc.no_duplicates(),
        !acc.contains(x),
    ensures
        acc.push(x).no_duplicates(),
{
    let s = acc.push(x);
    assert forall|i: int, j: int| 0 <= i < s.len() && 0 <= j < s.len() && i != j implies s[i] != s[j] by {
        if i == acc.len() {
            assert(s[j] == acc[j]);
        } else if j == acc.len() {
            assert(s[i] == acc[i]);
        } else {
            assert(s[i] == acc[i] && s[j] == acc[j]);
        }
    }
}

/// Signatures that follow one that an earlier one equals have a duplicate.
pub proof fn lemma_sig_dup(acc: Seq<Signature>, x: Signature, rest: Seq<Signature>)
    requires
        acc.contains(x),
    ensures
        !(acc + (seq![x] + rest)).no_duplicates(),
{
    let i = choose|i: int| 0 <= i < acc.len() && acc[i] == x;
    let s = acc + (seq![x] + rest);
    assert(s[i] == acc[i]);
    assert(s[acc.len() as int] == x);
}

// ---------------------------------------------------------------------------------------
// Reading back what was written
// ---------------------------------------------------------------------------------------

/// The bytes at `p` that equal the encoding `e`, as `spec_take` would give them.
pub open spec fn holds_at(b: Seq<u8>, p: int, e: Seq<u8>) -> bool {
    0 <= p && p + e.len() <= b.len() && b.subrange(p, p + e.len()) == e
}

/// Bytes that hold a concatenation hold its first part, and its second part after it.
proof fn lemma_split(b: Seq<u8>, p: int, e1: Seq<u8>, e2: Seq<u8>)
    requires
        holds_at(b, p, e1 + e2),
    ensures
        holds_at(b, p, e1),
        holds_at(b, p + e1.len(), e2),
{
    let e = e1 + e2;
    assert forall|i: int| 0 <= i < e1.len() implies b.subrange(p, p + e1.len())[i] == e1[i] by {
        assert(b.subrange(p, p + e.len())[i] == e[i]);
    }
    assert(b.subrange(p, p + e1.len()) =~= e1);
    assert forall|i: int| 0 <= i < e2.len() implies b.subrange(p + e1.len(), p + e1.len() + e2.len())[i] == e2[i] by {
        assert(b.subrange(p, p + e.len())[e1.len() + i] == e[e1.len() + i]);
    }
    assert(b.subrange(p + e1.len(), p + e1.len() + e2.len()) =~= e2);
}

/// The `u32` written at `p` reads back.
proof fn lemma_u32_at(b: Seq<u8>, p: int, v: u32)
    requires
        holds_at(b, p, spec_u32_to_le_bytes(v)),
    ensures
        spec_read_u32_at(b, p) == Some((v, p + 4)),
{
    lemma_auto_spec_u32_to_from_le_bytes();
}

/// The `u64` written at `p` reads back.
proof fn lemma_u64_at(b: Seq<u8>, p: int, v: u64)
    requires
        holds_at(b, p, spec_u64_to_le_bytes(v)),
    ensures
        spec_read_u64_at(b, p) == Some((v, p + 8)),
{
    lemma_auto_spec_u64_to_from_le_bytes();
}

/// The `u128` written at `p` reads back.
proof fn lemma_u128_at(b: Seq<u8>, p: int, v: u128)
    requires
        holds_at(b, p, spec_u128_to_le_bytes(v)),
    ensures
        spec_read_u128_at(b, p) == Some((v, p + 16)),
{
    lemma_auto_spec_u128_to_from_le_bytes();
}

/// The field element written at `p` reads back.
proof fn lemma_field_at(b: Seq<u8>, p: int, f: Field)
    requires
        holds_at(b, p, spec_field_to_bytes(f)),
    ensures
        spec_read_field_at(b, p) == Some((f, p + 32)),
{
    lemma_auto_spec_u128_to_from_le_bytes();
    let e = spec_field_to_bytes(f);
    assert(spec_u128_to_le_bytes(f).len() == 16);
    assert(e.len() == 32);
    assert(e.subrange(0, 16) =~= spec_u128_to_le_bytes(f));
    assert(spec_read_field(e) == Some(f));
}

/// The signature written at `p` reads back.
proof fn lemma_signature_at(b: Seq<u8>, p: int, s: Signature)
    requires
        holds_at(b, p, spec_signature_bytes(s)),
    ensures
        spec_read_signature_at(b, p) == Some((s, p + spec_signature_bytes(s).len())),
{
    lemma_auto_spec_u64_to_from_le_bytes();
    lemma_auto_spec_u128_to_from_le_bytes();
    lemma_split(b, p, spec_u64_to_le_bytes(s.signer), spec_field_to_bytes(s.message));
    lemma_u64_at(b, p, s.signer);
    lemma_field_at(b, p + 8, s.message);
}

/// The transmission ID written at `p` reads back.
proof fn lemma_id_at(b: Seq<u8>, p: int, id: TransmissionID)
    requires
        holds_at(b, p, spec_transmission_id_bytes(id)),
    ensures
        spec_read_id_at(b, p) == Some((id, p + spec_transmission_id_bytes(id).len())),
{
    lemma_auto_spec_u64_to_from_le_bytes();
    lemma_auto_spec_u128_to_from_le_bytes();
    let e = spec_transmission_id_bytes(id);
    assert(b.subrange(p, p + e.len())[0] == e[0]);
    match id {
        TransmissionID::Ratification => {},
        TransmissionID::Solution(s, c) => {
            lemma_split(b, p, seq![1u8] + spec_u64_to_le_bytes(s), spec_u128_to_le_bytes(c));
            lemma_split(b, p, seq![1u8], spec_u64_to_le_bytes(s));
            lemma_u64_at(b, p + 1, s);
            lemma_u128_at(b, p + 9, c);
        },
        TransmissionID::Transaction(t, c) => {
            assert(spec_field_to_bytes(t).len() == 32);
            lemma_split(b, p, seq![2u8] + spec_field_to_bytes(t), spec_u128_to_le_bytes(c));
            lemma_split(b, p, seq![2u8], spec_field_to_bytes(t));
            lemma_field_at(b, p + 1, t);
            lemma_u128_at(b, p + 33, c);
        },
    }
}

/// The transmission written at `p` reads back.
proof fn lemma_transmission_at(b: Seq<u8>, p: int, t: TransmissionData)
    requires
        spec_transmission_encodable(t),
        holds_at(b, p, spec_transmission_bytes(t)),
    ensures
        spec_read_transmission_at(b, p) == Some((t, p + spec_transmission_bytes(t).len())),
{
    lemma_auto_spec_u32_to_from_le_bytes();
    let e = spec_transmission_bytes(t);
    assert(b.subrange(p, p + e.len())[0] == e[0]);
    match t {
        TransmissionData::Ratification => {},
        TransmissionData::Solution(d) => {
            lemma_split(b, p, seq![1u8] + spec_u32_to_le_bytes(d.len() as u32), d);
            lemma_split(b, p, seq![1u8], spec_u32_to_le_bytes(d.len() as u32));
            lemma_u32_at(b, p + 1, d.len() as u32);
        },
        TransmissionData::Transaction(d) => {
            lemma_split(b, p, seq![2u8] + spec_u32_to_le_bytes(d.len() as u32), d);
            lemma_split(b, p, seq![2u8], spec_u32_to_le_bytes(d.len() as u32));
            lemma_u32_at(b, p + 1, d.len() as u32);
        },
    }
}

/// The encodings of transmission IDs that start with `x`: that of `x`, then the rest.
proof fn lemma_ids_bytes_cons(x: TransmissionID, s: Seq<TransmissionID>)
    ensures
        spec_ids_bytes(seq![x] + s) == spec_transmission_id_bytes(x) + spec_ids_bytes(s),
    decreases s.len(),
{
    let t = seq![x] + s;
    if s.len() == 0 {
        assert(t.drop_last() =~= Seq::<TransmissionID>::empty());
        assert(t.last() == x);
        assert(spec_ids_bytes(t.drop_last()) == Seq::<u8>::empty());
        assert(spec_ids_bytes(s) == Seq::<u8>::empty());
        assert(spec_ids_bytes(t) =~= spec_transmission_id_bytes(x) + spec_ids_bytes(s));
    } else {
        assert(t.drop_last() =~= seq![x] + s.drop_last());
        assert(t.last() == s.last());
        lemma_ids_bytes_cons(x, s.drop_last());
        let a = spec_ids_bytes(s.drop_last());
        assert(spec_ids_bytes(t.drop_last()) == spec_transmission_id_bytes(x) + a);
        assert(spec_ids_bytes(t) == (spec_transmission_id_bytes(x) + a) + spec_transmission_id_bytes(s.last()));
        assert(spec_ids_bytes(s) == a + spec_transmission_id_bytes(s.last()));
        assert(spec_ids_bytes(t) =~= spec_transmission_id_bytes(x) + spec_ids_bytes(s));
    }
}

/// Transmission IDs written one after the other at `p` read back.
proof fn lemma_ids_at(b: Seq<u8>, p: int, s: Seq<TransmissionID>)
    requires
        holds_at(b, p, spec_ids_bytes(s)),
    ensures
        spec_read_ids_at(b, p, s.len()) == Some((s, p + spec_ids_bytes(s).len())),
    decreases s.len(),
{
    if s.len() > 0 {
        let x = s[0];
        let rest = s.drop_first();
        assert(s =~= seq![x] + rest);
        lemma_ids_bytes_cons(x, rest);
        lemma_split(b, p, spec_transmission_id_bytes(x), spec_ids_bytes(rest));
        lemma_id_at(b, p, x);
        lemma_ids_at(b, p + spec_transmission_id_bytes(x).len(), rest);
    }
}

/// The encodings of field elements that start with `x`: that of `x`, then the rest.
proof fn lemma_fields_bytes_cons(x: Field, s: Seq<Field>)
    ensures
        spec_fields_bytes(seq![x] + s) == spec_field_to_bytes(x) + spec_fields_bytes(s),
    decreases s.len(),
{
    let t = seq![x] + s;
    if s.len() == 0 {
        assert(t.drop_last() =~= Seq::<Field>::empty());
        assert(t.last() == x);
        assert(spec_fields_bytes(t.drop_last()) == Seq::<u8>::empty());
        assert(spec_fields_bytes(s) == Seq::<u8>::empty());
        assert(spec_fields_bytes(t) =~= spec_field_to_bytes(x) + spec_fields_bytes(s));
    } else {
        assert(t.drop_last() =~= seq![x] + s.drop_last());
        assert(t.last() == s.last());
        lemma_fields_bytes_cons(x, s.drop_last());
        let a = spec_fields_bytes(s.drop_last());
        assert(spec_fields_bytes(t.drop_last()) == spec_field_to_bytes(x) + a);
        assert(spec_fields_bytes(t) == (spec_field_to_bytes(x) + a) + spec_field_to_bytes(s.last()));
        assert(spec_fields_bytes(s) == a + spec_field_to_bytes(s.last()));
        assert(spec_fields_bytes(t) =~= spec_field_to_bytes(x) + spec_fields_bytes(s));
    }
}

/// Field elements written one after the other at `p` read back.
proof fn lemma_fields_at(b: Seq<u8>, p: int, s: Seq<Field>)
    requires
        holds_at(b, p, spec_fields_bytes(s)),
    ensures
        spec_read_fields_at(b, p, s.len()) == Some((s, p + spec_fields_bytes(s).len())),
    decreases s.len(),
{
    if s.len() > 0 {
        let x = s[0];
        let rest = s.drop_first();
        assert(s =~= seq![x] + rest);
        lemma_fields_bytes_cons(x, rest);
        lemma_auto_spec_u128_to_from_le_bytes();
        assert(spec_field_to_bytes(x).len() == 32);
        lemma_split(b, p, spec_field_to_bytes(x), spec_fields_bytes(rest));
        lemma_field_at(b, p, x);
        lemma_fields_at(b, p + 32, rest);
    }
}

/// The encodings of transmissions that start with `x`: that of `x`, then the rest.
proof fn lemma_transmissions_bytes_cons(x: (TransmissionID, TransmissionData), s: Seq<(TransmissionID, TransmissionData)>)
    ensures
        spec_transmissions_bytes(seq![x] + s) == spec_transmission_id_bytes(x.0) + spec_transmission_bytes(x.1)
            + spec_transmissions_bytes(s),
    decreases s.len(),
{
    let t = seq![x] + s;
    if s.len() == 0 {
        assert(t.drop_last() =~= Seq::<(TransmissionID, TransmissionData)>::empty());
        assert(t.last() == x);
        assert(spec_transmissions_bytes(t.drop_last()) == Seq::<u8>::empty());
        assert(spec_transmissions_bytes(s) == Seq::<u8>::empty());
        assert(spec_transmissions_bytes(t) =~= spec_transmission_id_bytes(x.0) + spec_transmission_bytes(x.1)
            + spec_transmissions_bytes(s));
    } else {
        assert(t.drop_last() =~= seq![x] + s.drop_last());
        assert(t.last() == s.last());
        lemma_transmissions_bytes_cons(x, s.drop_last());
        let a = spec_transmissions_bytes(s.drop_last());
        let ex = spec_transmission_id_bytes(x.0) + spec_transmission_bytes(x.1);
        let el = spec_transmission_id_bytes(s.last().0) + spec_transmission_bytes(s.last().1);
        assert(spec_transmissions_bytes(t.drop_last()) == ex + a);
        assert(spec_transmissions_bytes(t) == (ex + a) + spec_transmission_id_bytes(s.last().0)
            + spec_transmission_bytes(s.last().1));
        assert(spec_transmissions_bytes(s) == a + spec_transmission_id_bytes(s.last().0)
            + spec_transmission_bytes(s.last().1));
        assert(spec_transmissions_bytes(t) =~= spec_transmission_id_bytes(x.0) + spec_transmission_bytes(x.1)
            + spec_transmissions_bytes(s));
    }
}

/// Transmissions written one after the other at `p` read back.
proof fn lemma_transmissions_at(b: Seq<u8>, p: int, s: Seq<(TransmissionID, TransmissionData)>)
    requires
        forall|i: int| 0 <= i < s.len() ==> spec_transmission_encodable(#[trigger] s[i].1),
        holds_at(b, p, spec_transmissions_bytes(s)),
    ensures
        spec_read_transmissions_at(b, p, s.len()) == Some((s, p + spec_transmissions_bytes(s).len())),
    decreases s.len(),
{
    if s.len() > 0 {
        let x = s[0];
        let rest = s.drop_first();
        assert(s =~= seq![x] + rest);
        assert(spec_transmission_encodable(s[0].1));
        assert forall|i: int| 0 <= i < rest.len() implies spec_transmission_encodable(#[trigger] rest[i].1) by {
            assert(rest[i] == s[i + 1]);
        }
        lemma_transmissions_bytes_cons(x, rest);
        let e1 = spec_transmission_id_bytes(x.0);
        let e2 = spec_transmission_bytes(x.1);
        lemma_split(b, p, e1 + e2, spec_transmissions_bytes(rest));
        lemma_split(b, p, e1, e2);
        lemma_id_at(b, p, x.0);
        lemma_transmission_at(b, p + e1.len(), x.1);
        lemma_transmissions_at(b, p + e1.len() + e2.len(), rest);
    }
}

/// The encodings of signatures that start with `x`: that of `x`, then the rest.
proof fn lemma_signatures_bytes_cons(x: Signature, s: Seq<Signature>)
    ensures
        spec_signatures_bytes(seq![x] + s) == spec_signature_bytes(x) + spec_signatures_bytes(s),
    decreases s.len(),
{
    let t = seq![x] + s;
    if s.len() == 0 {
        assert(t.drop_last() =~= Seq::<Signature>::empty());
        assert(t.last() == x);
        assert(spec_signatures_bytes(t.drop_last()) == Seq::<u8>::empty());
        assert(spec_signatures_bytes(s) == Seq::<u8>::empty());
        assert(spec_signatures_bytes(t) =~= spec_signature_bytes(x) + spec_signatures_bytes(s));
    } else {
        assert(t.drop_last() =~= seq![x] + s.drop_last());
        assert(t.last() == s.last());
        lemma_signatures_bytes_cons(x, s.drop_last());
        let a = spec_signatures_bytes(s.drop_last());
        assert(spec_signatures_bytes(t.drop_last()) == spec_signature_bytes(x) + a);
        assert(spec_signatures_bytes(t) == (spec_signature_bytes(x) + a) + spec_signature_bytes(s.last()));
        assert(spec_signatures_bytes(s) == a + spec_signature_bytes(s.last()));
        assert(spec_signatures_bytes(t) =~= spec_signature_bytes(x) + spec_signatures_bytes(s));
    }
}

/// Signatures written one after the other at `p` read back.
proof fn lemma_signatures_at(b: Seq<u8>, p: int, s: Seq<Signature>)
    requires
        holds_at(b, p, spec_signatures_bytes(s)),
    ensures
        spec_read_signatures_at(b, p, s.len()) == Some((s, p + spec_signatures_bytes(s).len())),
    decreases s.len(),
{
    if s.len() > 0 {
        let x = s[0];
        let rest = s.drop_first();
        assert(s =~= seq![x] + rest);
        lemma_signatures_bytes_cons(x, rest);
        lemma_split(b, p, spec_signature_bytes(x), spec_signatures_bytes(rest));
        lemma_signature_at(b, p, x);
        lemma_signatures_at(b, p + spec_signature_bytes(x).len(), rest);
    }
}

/// A batch header written at `p`, if its author signed it, reads back.
pub proof fn lemma_header_at(b: Seq<u8>, p: int, h: BatchHeaderView)
    requires
        h.is_signed_by_author(),
        spec_header_encodable(h),
        holds_at(b, p, spec_header_bytes(h)),
    ensures
        spec_read_header_at(b, p) == Some((h, p + spec_header_bytes(h).len())),
{
    lemma_auto_spec_u32_to_from_le_bytes();
    lemma_auto_spec_u64_to_from_le_bytes();
    lemma_auto_spec_u128_to_from_le_bytes();
    let ids = h.transmission_ids;
    let prev = h.previous_certificate_ids;
    let last = h.last_election_certificate_ids;
    let e0 = spec_field_to_bytes(h.batch_id);
    let e1 = e0 + spec_u64_to_le_bytes(h.author);
    let e2 = e1 + spec_u64_to_le_bytes(h.round);
    let e3 = e2 + spec_u64_to_le_bytes(h.timestamp as u64);
    let e4 = e3 + spec_u32_to_le_bytes(ids.len() as u32);
    let e5 = e4 + spec_ids_bytes(ids);
    let e6 = e5 + spec_u32_to_le_bytes(prev.len() as u32);
    let e7 = e6 + spec_fields_bytes(prev);
    let e8 = e7 + spec_u32_to_le_bytes(last.len() as u32);
    let e9 = e8 + spec_fields_bytes(last);
    assert(spec_header_bytes(h) == e9 + spec_signature_bytes(h.signature));
    assert(e0.len() == 32);
    lemma_split(b, p, e9, spec_signature_bytes(h.signature));
    lemma_split(b, p, e8, spec_fields_bytes(last));
    lemma_split(b, p, e7, spec_u32_to_le_bytes(last.len() as u32));
    lemma_split(b, p, e6, spec_fields_bytes(prev));
    lemma_split(b, p, e5, spec_u32_to_le_bytes(prev.len() as u32));
    lemma_split(b, p, e4, spec_ids_bytes(ids));
    lemma_split(b, p, e3, spec_u32_to_le_bytes(ids.len() as u32));
    lemma_split(b, p, e2, spec_u64_to_le_bytes(h.timestamp as u64));
    lemma_split(b, p, e1, spec_u64_to_le_bytes(h.round));
    lemma_split(b, p, e0, spec_u64_to_le_bytes(h.author));
    lemma_field_at(b, p, h.batch_id);
    lemma_u64_at(b, p + 32, h.author);
    lemma_u64_at(b, p + 40, h.round);
    lemma_u64_at(b, p + 48, h.timestamp as u64);
    lemma_u32_at(b, p + 56, ids.len() as u32);
    lemma_ids_at(b, p + e4.len(), ids);
    lemma_u32_at(b, p + e5.len(), prev.len() as u32);
    lemma_fields_at(b, p + e6.len(), prev);
    lemma_u32_at(b, p + e7.len(), last.len() as u32);
    lemma_fields_at(b, p + e8.len(), last);
    lemma_signature_at(b, p + e9.len(), h.signature);
    let t = h.timestamp;
    assert((t as u64) as i64 == t) by (bit_vector);
}

/// A proposal written at `p`, if its author signed its header and it holds no transmission
/// ID and no signature twice, reads back.
pub proof fn lemma_proposal_at(
    b: Seq<u8>,
    p: int,
    h: BatchHeaderView,
    entries: Seq<(TransmissionID, TransmissionData)>,
    sigs: Seq<Signature>,
)
    requires
        h.is_signed_by_author(),
        spec_ids_distinct(entries),
        sigs.no_duplicates(),
        spec_proposal_encodable(h, entries, sigs),
        holds_at(b, p, spec_proposal_bytes(h, entries, sigs)),
    ensures
        spec_read_proposal_at(b, p) == Some(((h, entries, sigs), p + spec_proposal_bytes(h, entries, sigs).len())),
{
    lemma_auto_spec_u32_to_from_le_bytes();
    let e0 = spec_header_bytes(h);
    let e1 = e0 + spec_u32_to_le_bytes(entries.len() as u32);
    let e2 = e1 + spec_transmissions_bytes(entries);
    let e3 = e2 + spec_u32_to_le_bytes(sigs.len() as u32);
    assert(spec_proposal_bytes(h, entries, sigs) == e3 + spec_signatures_bytes(sigs));
    lemma_split(b, p, e3, spec_signatures_bytes(sigs));
    lemma_split(b, p, e2, spec_u32_to_le_bytes(sigs.len() as u32));
    lemma_split(b, p, e1, spec_transmissions_bytes(entries));
    lemma_split(b, p, e0, spec_u32_to_le_bytes(entries.len() as u32));
    lemma_header_at(b, p, h);
    lemma_u32_at(b, p + e0.len(), entries.len() as u32);
    lemma_transmissions_at(b, p + e1.len(), entries);
    lemma_u32_at(b, p + e2.len(), sigs.len() as u32);
    lemma_signatures_at(b, p + e3.len(), sigs);
}

} // verus!
