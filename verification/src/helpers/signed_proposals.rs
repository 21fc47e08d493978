//! The recently signed batch proposals: for each author, the round, batch ID and signature
//! of the last proposal of theirs that this node signed, with their byte encoding.
use vstd::prelude::*;
use vstd::bytes::{
    lemma_auto_spec_u128_to_from_le_bytes, lemma_auto_spec_u32_to_from_le_bytes,
    lemma_auto_spec_u64_to_from_le_bytes, spec_u128_from_le_bytes, spec_u128_to_le_bytes,
    spec_u32_from_le_bytes, spec_u32_to_le_bytes, spec_u64_from_le_bytes, spec_u64_to_le_bytes,
    u128_from_le_bytes, u32_from_le_bytes, u32_to_le_bytes, u64_from_le_bytes, u64_to_le_bytes,
};
use vstd::slice::slice_subrange;
use crate::assoc::{AssocMap, keys_distinct, seq_to_map, has_key, lemma_index_lookup};
use crate::types::{Address, Field, Signature, field_to_bytes, spec_field_to_bytes};

use vstd::string::StringExecFns;

verus! {

/// A signed proposal: the author, and the round, batch ID and signature of their proposal.
pub type SignedEntry = (Address, (u64, Field, Signature));

/// The number of bytes of one encoded signed proposal.
pub const ENTRY_SIZE: usize = 88;

/// The encoding of a signed proposal: the author, the round, the batch ID, and the
/// signature (its signer and message).
pub open spec fn spec_entry_bytes(e: SignedEntry) -> Seq<u8> {
    spec_u64_to_le_bytes(e.0) + spec_u64_to_le_bytes(e.1.0) + spec_field_to_bytes(e.1.1)
        + spec_u64_to_le_bytes(e.1.2.signer) + spec_field_to_bytes(e.1.2.message)
}

/// The encodings of the signed proposals, one after the other.
pub open spec fn spec_entries_bytes(s: Seq<SignedEntry>) -> Seq<u8>
    decreases s.len(),
{
    if s.len() == 0 {
        Seq::empty()
    } else {
        spec_entries_bytes(s.drop_last()) + spec_entry_bytes(s.last())
    }
}

/// The encoding of the signed proposals: their number as a little-endian `u32`, then each
/// of them.
pub open spec fn spec_signed_proposals_bytes(s: Seq<SignedEntry>) -> Seq<u8> {
    spec_u32_to_le_bytes(s.len() as u32) + spec_entries_bytes(s)
}

/// The field element that 32 bytes encode: the first 16 in little-endian order, the last 16
/// zero; `None` if they are not.
pub open spec fn spec_read_field(b: Seq<u8>) -> Option<Field> {
    if forall|i: int| 16 <= i < 32 ==> b[i] == 0u8 {
        Some(spec_u128_from_le_bytes(b.subrange(0, 16)))
    } else {
        None
    }
}

/// The signed proposal that 88 bytes encode, if they encode one.
pub open spec fn spec_read_entry(b: Seq<u8>) -> Option<SignedEntry> {
    let address = spec_u64_from_le_bytes(b.subrange(0, 8));
    let round = spec_u64_from_le_bytes(b.subrange(8, 16));
    let signer = spec_u64_from_le_bytes(b.subrange(48, 56));
    match (spec_read_field(b.subrange(16, 48)), spec_read_field(b.subrange(56, 88))) {
        (Some(batch_id), Some(message)) => Some((address, (round, batch_id, Signature { signer, message }))),
        _ => None,
    }
}

/// The map that the first `k` encoded signed proposals (after the 4-byte count) give,
/// each inserted in turn; `None` if the bytes run out or do not encode one.
pub open spec fn spec_read_entries(bytes: Seq<u8>, k: nat) -> Option<Map<Address, (u64, Field, Signature)>>
    decreases k,
{
    if k == 0 {
        Some(Map::empty())
    } else {
        match spec_read_entries(bytes, (k - 1) as nat) {
            None => None,
            Some(m) => {
                if bytes.len() < 4 + 88 * k {
                    None
                } else {
                    match spec_read_entry(bytes.subrange(4 + 88 * (k - 1), (4 + 88 * k) as int)) {
                        None => None,
                        Some(e) => Some(m.insert(e.0, e.1)),
                    }
                }
            },
        }
    }
}

/// The signed proposals that the bytes encode; `None` if they are malformed.
pub open spec fn spec_read_signed_proposals(bytes: Seq<u8>) -> Option<Map<Address, (u64, Field, Signature)>> {
    if bytes.len() < 4 {
        None
    } else {
        spec_read_entries(bytes, spec_u32_from_le_bytes(bytes.subrange(0, 4)) as nat)
    }
}

/// The failures of encoding and decoding signed proposals.
#[derive(Clone, Copy, Debug, PartialEq, Eq, Structural)]
pub enum BytesError {
    /// There are more signed proposals than a `u32` counts.
    TooMany,
    /// The bytes do not encode signed proposals.
    Malformed,
}

/// The recently signed batch proposals: a map of author to (round, batch ID, signature).
pub struct SignedProposals {
    map: AssocMap<Address, (u64, Field, Signature)>,
}

impl View for SignedProposals {
    type V = Map<Address, (u64, Field, Signature)>;

    closed spec fn view(&self) -> Map<Address, (u64, Field, Signature)> {
        self.map@
    }
}

impl SignedProposals {
    /// The map is well formed.
    pub closed spec fn wf(&self) -> bool {
        self.map.wf()
    }

    /// The signed proposals, in the order in which they are held.
    pub closed spec fn entries(&self) -> Seq<SignedEntry> {
        self.map.seq()
    }

    /// Relates the entries to the map.
    pub proof fn lemma_entries(&self)
        requires
            self.wf(),
        ensures
            keys_distinct(self.entries()),
            self@ == seq_to_map(self.entries()),
            self@.len() == self.entries().len(),
    {
        self.map.lemma_view();
    }

    /// Initializes an empty set of signed proposals.
    pub fn new() -> (r: SignedProposals)
        ensures
            r.wf(),
            r@ == Map::<Address, (u64, Field, Signature)>::empty(),
    {
        SignedProposals { map: AssocMap::new() }
    }

    /// The number of signed proposals.
    pub fn len(&self) -> (r: usize)
        requires
            self.wf(),
        ensures
            r == self@.len(),
    {
        self.map.len()
    }

    /// The signed proposal of the author, if any.
    pub fn get(&self, author: Address) -> (r: Option<(u64, Field, Signature)>)
        requires
            self.wf(),
        ensures
            r == self@.get(author),
    {
        match self.map.get(&author) {
            Some(e) => Some(*e),
            None => None,
        }
    }

    /// Records the signed proposal of the author, replacing the previous one.
    pub fn insert(&mut self, author: Address, round: u64, batch_id: Field, signature: Signature)
        requires
            old(self).wf(),
        ensures
            final(self).wf(),
            final(self)@ == old(self)@.insert(author, (round, batch_id, signature)),
    {
        self.map.insert(author, (round, batch_id, signature));
    }

    /// Ensures that every signed proposal is associated with the `expected_signer`.
    pub fn is_valid(&self, expected_signer: Address) -> (r: bool)
        requires
            self.wf(),
        ensures
            r == forall|a: Address| #[trigger] self@.contains_key(a) ==> self@[a].2.signer == expected_signer,
    {
        proof {
            self.map.lemma_view();
        }
        let n = self.map.len();
        let mut i: usize = 0;
        while i < n
            invariant
                self.wf(),
                n == self.map.seq().len(),
                i <= n,
                forall|j: int| 0 <= j < i ==> self.map.seq()[j].1.2.signer == expected_signer,
            decreases n - i,
        {
            let entry = self.map.get_index(i);
            if (entry.1).2.to_address() != expected_signer {
                proof {
                    self.map.lemma_view();
                    assert(self@.contains_key(self.map.seq()[i as int].0));
                }
                return false;
            }
            i = i + 1;
        }
        proof {
            self.map.lemma_view();
            assert forall|a: Address| #[trigger] self@.contains_key(a) implies self@[a].2.signer == expected_signer by {
                let j = choose|j: int| 0 <= j < self.map.seq().len() && self.map.seq()[j].0 == a;
                assert(self@[self.map.seq()[j].0] == self.map.seq()[j].1);
            }
        }
        true
    }

    /// Encodes the signed proposals: their number as a little-endian `u32`, then each of
    /// them. Fails if there are more than a `u32` counts.
    pub fn to_bytes_le(&self) -> (r: Result<Vec<u8>, BytesError>)
        requires
            self.wf(),
        ensures
            self@.len() > u32::MAX ==> r == Err::<Vec<u8>, BytesError>(BytesError::TooMany),
            self@.len() <= u32::MAX ==> (r matches Ok(b) && b@ == spec_signed_proposals_bytes(self.entries())),
    {
        proof {
            self.map.lemma_view();
        }
        let n = self.map.len();
        if n > u32::MAX as usize {
            return Err(BytesError::TooMany);
        }
        let mut out = u32_to_le_bytes(n as u32);
        let ghost head = out@;
        let mut i: usize = 0;
        while i < n
            invariant
                self.wf(),
                n == self.map.seq().len(),
                i <= n,
                out@ == head + spec_entries_bytes(self.map.seq().subrange(0, i as int)),
            decreases n - i,
        {
            let entry = self.map.get_index(i);
            let (address, (round, batch_id, signature)) = *entry;
            let ghost before = out@;
            let mut a = u64_to_le_bytes(address);
            let mut b = u64_to_le_bytes(round);
            let mut c = field_to_bytes(batch_id);
            let mut d = u64_to_le_bytes(signature.signer);
            let mut e = field_to_bytes(signature.message);
            out.append(&mut a);
            out.append(&mut b);
            out.append(&mut c);
            out.append(&mut d);
            out.append(&mut e);
            proof {
                let s = self.map.seq();
                assert(s.subrange(0, i as int + 1).drop_last() =~= s.subrange(0, i as int));
                assert(s.subrange(0, i as int + 1).last() == s[i as int]);
                assert(out@ =~= before + spec_entry_bytes(s[i as int]));
            }
            i = i + 1;
        }
        proof {
            assert(self.map.seq().subrange(0, n as int) =~= self.map.seq());
        }
        Ok(out)
    }

    /// Decodes signed proposals; fails if the bytes run out or a field element is malformed.
    /// Bytes after the last signed proposal are not read.
    pub fn read_le(bytes: &[u8]) -> (r: Result<SignedProposals, BytesError>)
        ensures
            match r {
                Ok(sp) => sp.wf() && spec_read_signed_proposals(bytes@) == Some(sp@),
                Err(e) => e == BytesError::Malformed && spec_read_signed_proposals(bytes@) is None,
            },
    {
        if bytes.len() < 4 {
            return Err(BytesError::Malformed);
        }
        let count = u32_from_le_bytes(slice_subrange(bytes, 0, 4));
        let mut map: AssocMap<Address, (u64, Field, Signature)> = AssocMap::new();
        let mut k: u32 = 0;
        proof {
            assert(map@ =~= Map::<Address, (u64, Field, Signature)>::empty());
        }
        while k < count
            invariant
                bytes@.len() >= 4,
                count == spec_u32_from_le_bytes(bytes@.subrange(0, 4)),
                k <= count,
                map.wf(),
                spec_read_entries(bytes@, k as nat) == Some(map@),
            decreases count - k,
        {
            let start: u64 = 4 + 88 * (k as u64);
            let end: u64 = start + 88;
            if (bytes.len() as u64) < end {
                proof {
                    assert(spec_read_entries(bytes@, (k + 1) as nat) is None);
                    lemma_read_entries_none_sticks(bytes@, (k + 1) as nat, count as nat);
                }
                return Err(BytesError::Malformed);
            }
            let entry_bytes = slice_subrange(bytes, start as usize, end as usize);
            match read_entry(entry_bytes) {
                Some(e) => {
                    map.insert(e.0, e.1);
                },
                None => {
                    proof {
                        assert(spec_read_entries(bytes@, (k + 1) as nat) is None);
                        lemma_read_entries_none_sticks(bytes@, (k + 1) as nat, count as nat);
                    }
                    return Err(BytesError::Malformed);
                },
            }
            k = k + 1;
        }
        Ok(SignedProposals { map })
    }
}

/// Once reading the first `k` signed proposals fails, reading more fails too.
proof fn lemma_read_entries_none_sticks(bytes: Seq<u8>, k: nat, n: nat)
    requires
        k <= n,
        spec_read_entries(bytes, k) is None,
    ensures
        spec_read_entries(bytes, n) is None,
    decreases n - k,
{
    if k < n {
        lemma_read_entries_none_sticks(bytes, k + 1, n);
    }
}

/// Reads the field element that 32 bytes encode.
fn read_field(b: &[u8]) -> (r: Option<Field>)
    requires
        b@.len() == 32,
    ensures
        r == spec_read_field(b@),
{
    let mut i: usize = 16;
    while i < 32
        invariant
            b@.len() == 32,
            16 <= i <= 32,
            forall|j: int| 16 <= j < i ==> b@[j] == 0u8,
        decreases 32 - i,
    {
        if b[i] != 0 {
            return None;
        }
        i = i + 1;
    }
    Some(u128_from_le_bytes(slice_subrange(b, 0, 16)))
}

/// Reads the signed proposal that 88 bytes encode.
fn read_entry(b: &[u8]) -> (r: Option<SignedEntry>)
    requires
        b@.len() == 88,
    ensures
        r == spec_read_entry(b@),
{
    let address = u64_from_le_bytes(slice_subrange(b, 0, 8));
    let round = u64_from_le_bytes(slice_subrange(b, 8, 16));
    let batch_id = read_field(slice_subrange(b, 16, 48));
    let signer = u64_from_le_bytes(slice_subrange(b, 48, 56));
    let message = read_field(slice_subrange(b, 56, 88));
    match (batch_id, message) {
        (Some(batch_id), Some(message)) => Some((address, (round, batch_id, Signature { signer, message }))),
        _ => None,
    }
}

/// The encoding of a signed proposal is 88 bytes long and decodes to it.
proof fn lemma_entry_roundtrip(e: SignedEntry)
    ensures
        spec_entry_bytes(e).len() == 88,
        spec_read_entry(spec_entry_bytes(e)) == Some(e),
{
    lemma_auto_spec_u64_to_from_le_bytes();
    lemma_auto_spec_u128_to_from_le_bytes();
    let b = spec_entry_bytes(e);
    let fa = spec_field_to_bytes(e.1.1);
    let fb = spec_field_to_bytes(e.1.2.message);
    assert(spec_u128_to_le_bytes(e.1.1).len() == 16);
    assert(spec_u128_to_le_bytes(e.1.2.message).len() == 16);
    assert(b.len() == 88);
    assert(b.subrange(0, 8) =~= spec_u64_to_le_bytes(e.0));
    assert(b.subrange(8, 16) =~= spec_u64_to_le_bytes(e.1.0));
    assert(b.subrange(16, 48) =~= fa);
    assert(b.subrange(48, 56) =~= spec_u64_to_le_bytes(e.1.2.signer));
    assert(b.subrange(56, 88) =~= fb);
    assert(fa.subrange(0, 16) =~= spec_u128_to_le_bytes(e.1.1));
    assert(fb.subrange(0, 16) =~= spec_u128_to_le_bytes(e.1.2.message));
    assert(spec_read_field(fa) == Some(e.1.1));
    assert(spec_read_field(fb) == Some(e.1.2.message));
}

/// The encodings of the signed proposals have 88 bytes each, and the `i`-th one sits at
/// `88 * i`.
proof fn lemma_entries_layout(s: Seq<SignedEntry>, i: int)
    requires
        0 <= i < s.len(),
    ensures
        spec_entries_bytes(s).len() == 88 * s.len(),
        spec_entries_bytes(s).subrange(88 * i, 88 * i + 88) == spec_entry_bytes(s[i]),
    decreases s.len(),
{
    lemma_entries_len(s);
    lemma_entry_roundtrip(s.last());
    let t = s.drop_last();
    lemma_entries_len(t);
    if i < s.len() - 1 {
        lemma_entries_layout(t, i);
        assert(spec_entries_bytes(s).subrange(88 * i, 88 * i + 88) =~= spec_entries_bytes(t).subrange(88 * i, 88 * i + 88));
    } else {
        assert(spec_entries_bytes(s).subrange(88 * i, 88 * i + 88) =~= spec_entry_bytes(s.last()));
    }
}

/// The encodings of the signed proposals have 88 bytes each.
proof fn lemma_entries_len(s: Seq<SignedEntry>)
    ensures
        spec_entries_bytes(s).len() == 88 * s.len(),
    decreases s.len(),
{
    if s.len() > 0 {
        lemma_entries_len(s.drop_last());
        lemma_entry_roundtrip(s.last());
    }
}

/// The map of a longer prefix inserts the next entry into that of the shorter one.
proof fn lemma_seq_to_map_push(s: Seq<SignedEntry>, k: int)
    requires
        keys_distinct(s),
        0 <= k < s.len(),
    ensures
        seq_to_map(s.subrange(0, k + 1)) == seq_to_map(s.subrange(0, k)).insert(s[k].0, s[k].1),
{
    let a = s.subrange(0, k);
    let b = s.subrange(0, k + 1);
    assert(keys_distinct(a));
    assert(keys_distinct(b));
    assert forall|x: Address| #[trigger] seq_to_map(b).contains_key(x) <==> seq_to_map(a).insert(s[k].0, s[k].1).contains_key(x) by {
        if has_key(b, x) {
            let j = choose|j: int| 0 <= j < b.len() && b[j].0 == x;
            if j < k {
                assert(a[j].0 == x);
            }
        }
        if has_key(a, x) {
            let j = choose|j: int| 0 <= j < a.len() && a[j].0 == x;
            assert(b[j].0 == x);
        }
        if x == s[k].0 {
            assert(b[k].0 == x);
        }
    }
    assert forall|x: Address| #[trigger] seq_to_map(b).contains_key(x) implies seq_to_map(b)[x] == seq_to_map(a).insert(s[k].0, s[k].1)[x] by {
        let j = choose|j: int| 0 <= j < b.len() && b[j].0 == x;
        lemma_index_lookup(b, j);
        if j < k {
            assert(a[j] == b[j]);
            lemma_index_lookup(a, j);
        }
    }
    assert(seq_to_map(b) =~= seq_to_map(a).insert(s[k].0, s[k].1));
}

/// Reading the first `k` encoded signed proposals gives the map of the first `k` of them.
proof fn lemma_read_prefix(s: Seq<SignedEntry>, k: int)
    requires
        keys_distinct(s),
        0 <= k <= s.len(),
        s.len() <= u32::MAX,
    ensures
        spec_read_entries(spec_signed_proposals_bytes(s), k as nat) == Some(seq_to_map(s.subrange(0, k))),
    decreases k,
{
    let bytes = spec_signed_proposals_bytes(s);
    lemma_auto_spec_u32_to_from_le_bytes();
    lemma_entries_len(s);
    if k == 0 {
        assert(seq_to_map(s.subrange(0, 0)) =~= Map::<Address, (u64, Field, Signature)>::empty());
    } else {
        lemma_read_prefix(s, k - 1);
        lemma_entries_layout(s, k - 1);
        lemma_entry_roundtrip(s[k - 1]);
        let head = spec_u32_to_le_bytes(s.len() as u32);
        assert(head.len() == 4);
        assert(bytes.subrange(4 + 88 * (k - 1), 4 + 88 * k) =~= spec_entries_bytes(s).subrange(88 * (k - 1), 88 * (k - 1) + 88));
        lemma_seq_to_map_push(s, k - 1);
    }
}

/// Decoding the encoding of signed proposals gives back their map.
pub proof fn lemma_bytes_roundtrip(sp: &SignedProposals)
    requires
        sp.wf(),
        sp@.len() <= u32::MAX,
    ensures
        spec_read_signed_proposals(spec_signed_proposals_bytes(sp.entries())) == Some(sp@),
{
    sp.lemma_entries();
    let s = sp.entries();
    lemma_auto_spec_u32_to_from_le_bytes();
    let bytes = spec_signed_proposals_bytes(s);
    assert(bytes.subrange(0, 4) =~= spec_u32_to_le_bytes(s.len() as u32));
    lemma_read_prefix(s, s.len() as int);
    assert(s.subrange(0, s.len() as int) =~= s);
}

/// The text of the error.
pub open spec fn spec_bytes_message(e: BytesError) -> Seq<char> {
    match e {
        BytesError::TooMany => "Too many signed proposals to encode"@,
        BytesError::Malformed => "The bytes do not encode signed proposals"@,
    }
}

impl BytesError {
    /// The error's message.
    pub fn message(&self) -> (r: String)
        ensures
            r@ == spec_bytes_message(*self),
    {
        let mut s = String::new();
        match self {
            BytesError::TooMany => {
                s.append("Too many signed proposals to encode");
            },
            BytesError::Malformed => {
                s.append("The bytes do not encode signed proposals");
            },
        }
        s
    }
}

} // verus!
