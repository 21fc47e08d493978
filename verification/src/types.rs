//! Plain-value models of the ledger types that the BFT logic reads.
//!
//! Addresses are integers, field elements are integers below 2^128, a signature names
//! its signer and the message it signs, and batch headers and certificates carry the
//! identifiers that the ledger computes for them.
use vstd::prelude::*;
use vstd::bytes::{spec_u64_to_le_bytes, spec_u128_to_le_bytes, u64_to_le_bytes, u128_to_le_bytes};
use crate::assoc::KeyEq;

verus! {

/// An account address, identified by an integer.
pub type Address = u64;

/// A field element (certificate IDs, batch IDs, transaction IDs), below 2^128.
pub type Field = u128;

/// The number of bytes in the encoding of a field element.
pub const FIELD_SIZE_IN_BYTES: usize = 32;

/// The little-endian encoding of a field element: its 16 low bytes, then 16 zero bytes.
pub open spec fn spec_field_to_bytes(f: Field) -> Seq<u8> {
    spec_u128_to_le_bytes(f) + Seq::new(16, |i: int| 0u8)
}

/// Encodes a field element in little-endian order.
pub fn field_to_bytes(f: Field) -> (r: Vec<u8>)
    ensures
        r@ == spec_field_to_bytes(f),
        r@.len() == 32,
{
    let mut r = u128_to_le_bytes(f);
    let mut i: usize = 0;
    while i < 16
        invariant
            i <= 16,
            r@ == spec_u128_to_le_bytes(f) + Seq::new(i as nat, |j: int| 0u8),
        decreases 16 - i,
    {
        r.push(0u8);
        i = i + 1;
        assert(r@ =~= spec_u128_to_le_bytes(f) + Seq::new(i as nat, |j: int| 0u8));
    }
    r
}

/// An IPv4 socket address: the four octets of the address packed big-endian, and a port.
#[derive(Clone, Copy, Debug, PartialEq, Eq, Hash, Structural)]
pub struct PeerIp {
    pub ip: u32,
    pub port: u16,
}

/// The packed form of four octets.
pub open spec fn spec_pack_ip(a: u8, b: u8, c: u8, d: u8) -> u32 {
    (a as int * 16777216 + b as int * 65536 + c as int * 256 + d as int) as u32
}

impl PeerIp {
    /// The socket address `a.b.c.d:port`.
    pub fn new(a: u8, b: u8, c: u8, d: u8, port: u16) -> (r: PeerIp)
        ensures
            r.ip == spec_pack_ip(a, b, c, d),
            r.ip as int == a as int * 16777216 + b as int * 65536 + c as int * 256 + d as int,
            r.port == port,
    {
        let ip: u32 = (a as u32) * 16777216 + (b as u32) * 65536 + (c as u32) * 256 + (d as u32);
        PeerIp { ip, port }
    }

    /// The first octet of the address.
    pub open spec fn first_octet(self) -> int {
        self.ip as int / 16777216
    }

    /// `true` for an address in `127.0.0.0/8`.
    pub fn is_loopback(&self) -> (r: bool)
        ensures
            r == (self.first_octet() == 127),
    {
        self.ip / 16777216 == 127
    }

    /// `true` for the address `0.0.0.0`.
    pub fn is_unspecified(&self) -> (r: bool)
        ensures
            r == (self.ip == 0),
    {
        self.ip == 0
    }

    /// `true` for the address `255.255.255.255`.
    pub fn is_broadcast(&self) -> (r: bool)
        ensures
            r == (self.ip == 0xffff_ffff),
    {
        self.ip == 0xffff_ffff
    }
}

impl KeyEq for PeerIp {
    fn key_eq(&self, other: &Self) -> (r: bool) {
        *self == *other
    }
}

/// The identifier of a transmission: a ratification, a solution (its ID and checksum),
/// or a transaction (its ID and checksum).
#[derive(Clone, Copy, Debug, PartialEq, Eq, Hash, Structural)]
pub enum TransmissionID {
    Ratification,
    Solution(u64, u128),
    Transaction(Field, u128),
}

impl KeyEq for TransmissionID {
    fn key_eq(&self, other: &Self) -> (r: bool) {
        *self == *other
    }
}

/// The little-endian byte encoding of a transmission ID: a variant tag, the ID, the checksum.
pub open spec fn spec_transmission_id_bytes(id: TransmissionID) -> Seq<u8> {
    match id {
        TransmissionID::Ratification => seq![0u8],
        TransmissionID::Solution(s, c) => seq![1u8] + spec_u64_to_le_bytes(s)
            + spec_u128_to_le_bytes(c),
        TransmissionID::Transaction(t, c) => seq![2u8] + spec_field_to_bytes(t)
            + spec_u128_to_le_bytes(c),
    }
}

impl TransmissionID {
    /// `true` for a solution ID.
    pub fn is_solution(&self) -> (r: bool)
        ensures
            r == (*self is Solution),
    {
        match self {
            TransmissionID::Solution(..) => true,
            _ => false,
        }
    }

    /// `true` for a transaction ID.
    pub fn is_transaction(&self) -> (r: bool)
        ensures
            r == (*self is Transaction),
    {
        match self {
            TransmissionID::Transaction(..) => true,
            _ => false,
        }
    }

    /// `true` for a ratification ID.
    pub fn is_ratification(&self) -> (r: bool)
        ensures
            r == (*self is Ratification),
    {
        match self {
            TransmissionID::Ratification => true,
            _ => false,
        }
    }

    /// The checksum, if the ID has one.
    pub fn checksum(&self) -> (r: Option<u128>)
        ensures
            r == match *self {
                TransmissionID::Ratification => None,
                TransmissionID::Solution(_, c) => Some(c),
                TransmissionID::Transaction(_, c) => Some(c),
            },
    {
        match self {
            TransmissionID::Ratification => None,
            TransmissionID::Solution(_, c) => Some(*c),
            TransmissionID::Transaction(_, c) => Some(*c),
        }
    }

    /// Encodes the transmission ID in little-endian order.
    pub fn to_bytes_le(&self) -> (r: Vec<u8>)
        ensures
            r@ == spec_transmission_id_bytes(*self),
    {
        let mut r: Vec<u8> = Vec::new();
        match self {
            TransmissionID::Ratification => {
                r.push(0u8);
                assert(r@ =~= seq![0u8]);
            },
            TransmissionID::Solution(s, c) => {
                r.push(1u8);
                let mut a = u64_to_le_bytes(*s);
                let mut b = u128_to_le_bytes(*c);
                let ghost r0 = r@;
                r.append(&mut a);
                r.append(&mut b);
                assert(r0 =~= seq![1u8]);
            },
            TransmissionID::Transaction(t, c) => {
                r.push(2u8);
                let mut a = field_to_bytes(*t);
                let mut b = u128_to_le_bytes(*c);
                let ghost r0 = r@;
                r.append(&mut a);
                r.append(&mut b);
                assert(r0 =~= seq![2u8]);
            },
        }
        r
    }
}

/// What a transmission holds, as the logic sees it.
pub enum TransmissionData {
    Ratification,
    Solution(Seq<u8>),
    Transaction(Seq<u8>),
}

/// A transmission: a ratification, or the bytes of a solution or of a transaction.
#[derive(Clone, Debug, PartialEq, Eq)]
pub enum Transmission {
    Ratification,
    Solution(Vec<u8>),
    Transaction(Vec<u8>),
}

impl View for Transmission {
    type V = TransmissionData;

    open spec fn view(&self) -> TransmissionData {
        match self {
            Transmission::Ratification => TransmissionData::Ratification,
            Transmission::Solution(b) => TransmissionData::Solution(b@),
            Transmission::Transaction(b) => TransmissionData::Transaction(b@),
        }
    }
}

/// Copies a byte vector.
pub fn copy_bytes(v: &Vec<u8>) -> (r: Vec<u8>)
    ensures
        r@ == v@,
{
    let mut r: Vec<u8> = Vec::new();
    let mut i: usize = 0;
    while i < v.len()
        invariant
            i <= v@.len(),
            r@ == v@.subrange(0, i as int),
        decreases v@.len() - i,
    {
        r.push(v[i]);
        i = i + 1;
        assert(r@ =~= v@.subrange(0, i as int));
    }
    assert(v@.subrange(0, v@.len() as int) =~= v@);
    r
}

impl Transmission {
    /// A copy of the transmission.
    pub fn duplicate(&self) -> (r: Transmission)
        ensures
            r@ == self@,
    {
        match self {
            Transmission::Ratification => Transmission::Ratification,
            Transmission::Solution(b) => Transmission::Solution(copy_bytes(b)),
            Transmission::Transaction(b) => Transmission::Transaction(copy_bytes(b)),
        }
    }
}

/// `true` if the ID and the transmission are of the same kind.
pub open spec fn spec_kinds_match(id: TransmissionID, t: TransmissionData) -> bool {
    match (id, t) {
        (TransmissionID::Ratification, TransmissionData::Ratification) => true,
        (TransmissionID::Solution(..), TransmissionData::Solution(_)) => true,
        (TransmissionID::Transaction(..), TransmissionData::Transaction(_)) => true,
        _ => false,
    }
}

/// A signature: the address that signed and the message (a field element) it signed.
#[derive(Clone, Copy, Debug, PartialEq, Eq, Hash, Structural)]
pub struct Signature {
    pub signer: Address,
    pub message: Field,
}

impl KeyEq for Signature {
    fn key_eq(&self, other: &Self) -> (r: bool) {
        *self == *other
    }
}

impl Signature {
    /// The address of the signer.
    pub fn to_address(&self) -> (r: Address)
        ensures
            r == self.signer,
    {
        self.signer
    }

    /// `true` if this is the signature of `address` on `message`.
    pub fn verify(&self, address: Address, message: Field) -> (r: bool)
        ensures
            r == (self.signer == address && self.message == message),
    {
        self.signer == address && self.message == message
    }
}

/// What a batch header holds, as the logic sees it.
pub struct BatchHeaderView {
    pub batch_id: Field,
    pub author: Address,
    pub round: u64,
    pub timestamp: i64,
    pub transmission_ids: Seq<TransmissionID>,
    pub previous_certificate_ids: Seq<Field>,
    pub last_election_certificate_ids: Seq<Field>,
    pub signature: Signature,
}

impl BatchHeaderView {
    /// `true` if the header carries its author's signature on its batch ID, as every header
    /// does that its author built (and every header that decodes).
    pub open spec fn is_signed_by_author(self) -> bool {
        self.signature.signer == self.author && self.signature.message == self.batch_id
    }
}

/// A batch header: the batch ID, its author, round and timestamp, the IDs of its
/// transmissions and of the certificates it builds on, and the author's signature.
#[derive(Clone, Debug, PartialEq, Eq)]
pub struct BatchHeader {
    pub batch_id: Field,
    pub author: Address,
    pub round: u64,
    pub timestamp: i64,
    pub transmission_ids: Vec<TransmissionID>,
    pub previous_certificate_ids: Vec<Field>,
    pub last_election_certificate_ids: Vec<Field>,
    pub signature: Signature,
}

impl View for BatchHeader {
    type V = BatchHeaderView;

    open spec fn view(&self) -> BatchHeaderView {
        BatchHeaderView {
            batch_id: self.batch_id,
            author: self.author,
            round: self.round,
            timestamp: self.timestamp,
            transmission_ids: self.transmission_ids@,
            previous_certificate_ids: self.previous_certificate_ids@,
            last_election_certificate_ids: self.last_election_certificate_ids@,
            signature: self.signature,
        }
    }
}

/// Copies a vector of copyable items.
pub fn copy_vec<T: Copy>(v: &Vec<T>) -> (r: Vec<T>)
    ensures
        r@ == v@,
{
    let mut r: Vec<T> = Vec::new();
    let mut i: usize = 0;
    while i < v.len()
        invariant
            i <= v@.len(),
            r@ == v@.subrange(0, i as int),
        decreases v@.len() - i,
    {
        r.push(v[i]);
        i = i + 1;
        assert(r@ =~= v@.subrange(0, i as int));
    }
    assert(v@.subrange(0, v@.len() as int) =~= v@);
    r
}

impl BatchHeader {
    /// A copy of the header.
    pub fn duplicate(&self) -> (r: BatchHeader)
        ensures
            r@ == self@,
    {
        BatchHeader {
            batch_id: self.batch_id,
            author: self.author,
            round: self.round,
            timestamp: self.timestamp,
            transmission_ids: copy_vec(&self.transmission_ids),
            previous_certificate_ids: copy_vec(&self.previous_certificate_ids),
            last_election_certificate_ids: copy_vec(&self.last_election_certificate_ids),
            signature: self.signature,
        }
    }
}

/// What a batch certificate holds, as the logic sees it.
pub struct BatchCertificateView {
    pub id: Field,
    pub header: BatchHeaderView,
    pub signatures: Seq<Signature>,
}

/// A batch certificate: its ID, the certified header, and the signatures of the signers
/// other than the author.
#[derive(Clone, Debug, PartialEq, Eq)]
pub struct BatchCertificate {
    pub certificate_id: Field,
    pub batch_header: BatchHeader,
    pub signatures: Vec<Signature>,
}

impl View for BatchCertificate {
    type V = BatchCertificateView;

    open spec fn view(&self) -> BatchCertificateView {
        BatchCertificateView {
            id: self.certificate_id,
            header: self.batch_header@,
            signatures: self.signatures@,
        }
    }
}

impl BatchCertificate {
    /// The certificate ID.
    pub fn id(&self) -> (r: Field)
        ensures
            r == self@.id,
    {
        self.certificate_id
    }

    /// The round of the certified batch.
    pub fn round(&self) -> (r: u64)
        ensures
            r == self@.header.round,
    {
        self.batch_header.round
    }

    /// The author of the certified batch.
    pub fn author(&self) -> (r: Address)
        ensures
            r == self@.header.author,
    {
        self.batch_header.author
    }

    /// The IDs of the certificates of the previous round that the batch builds on.
    pub fn previous_certificate_ids(&self) -> (r: &Vec<Field>)
        ensures
            r@ == self@.header.previous_certificate_ids,
    {
        &self.batch_header.previous_certificate_ids
    }

    /// The IDs of the certified transmissions.
    pub fn transmission_ids(&self) -> (r: &Vec<TransmissionID>)
        ensures
            r@ == self@.header.transmission_ids,
    {
        &self.batch_header.transmission_ids
    }

    /// A copy of the certificate.
    pub fn duplicate(&self) -> (r: BatchCertificate)
        ensures
            r@ == self@,
    {
        BatchCertificate {
            certificate_id: self.certificate_id,
            batch_header: self.batch_header.duplicate(),
            signatures: copy_vec(&self.signatures),
        }
    }
}

/// `true` if the two vectors hold the same items in the same order.
pub fn vec_eq<T: KeyEq>(a: &Vec<T>, b: &Vec<T>) -> (r: bool)
    ensures
        r == (a@ == b@),
{
    if a.len() != b.len() {
        return false;
    }
    let mut i: usize = 0;
    while i < a.len()
        invariant
            a@.len() == b@.len(),
            i <= a@.len(),
            forall|j: int| 0 <= j < i ==> a@[j] == b@[j],
        decreases a@.len() - i,
    {
        if !a[i].key_eq(&b[i]) {
            return false;
        }
        i = i + 1;
    }
    assert(a@ =~= b@);
    true
}

impl BatchCertificate {
    /// `true` if the two certificates hold the same values.
    pub fn same_as(&self, other: &BatchCertificate) -> (r: bool)
        ensures
            r == (self@ == other@),
    {
        let h = &self.batch_header;
        let g = &other.batch_header;
        let r = self.certificate_id == other.certificate_id && h.batch_id == g.batch_id
            && h.author == g.author && h.round == g.round && h.timestamp == g.timestamp
            && h.signature == g.signature && vec_eq(&h.transmission_ids, &g.transmission_ids)
            && vec_eq(&h.previous_certificate_ids, &g.previous_certificate_ids) && vec_eq(
            &h.last_election_certificate_ids,
            &g.last_election_certificate_ids,
        ) && vec_eq(&self.signatures, &other.signatures);
        proof {
            if r {
                assert(self@.header == other@.header);
            }
        }
        r
    }
}

/// `true` if the field element occurs in the vector.
pub fn contains_field(v: &Vec<Field>, f: Field) -> (r: bool)
    ensures
        r == v@.contains(f),
{
    let mut i: usize = 0;
    while i < v.len()
        invariant
            i <= v@.len(),
            forall|j: int| 0 <= j < i ==> v@[j] != f,
        decreases v@.len() - i,
    {
        if v[i] == f {
            assert(v@[i as int] == f);
            return true;
        }
        i = i + 1;
    }
    false
}

/// `true` if the transmission ID occurs in the vector.
pub fn contains_transmission_id(v: &Vec<TransmissionID>, id: TransmissionID) -> (r: bool)
    ensures
        r == v@.contains(id),
{
    let mut i: usize = 0;
    while i < v.len()
        invariant
            i <= v@.len(),
            forall|j: int| 0 <= j < i ==> v@[j] != id,
        decreases v@.len() - i,
    {
        if v[i] == id {
            assert(v@[i as int] == id);
            return true;
        }
        i = i + 1;
    }
    false
}

/// `true` if the address occurs in the vector.
pub fn contains_address(v: &Vec<Address>, a: Address) -> (r: bool)
    ensures
        r == v@.contains(a),
{
    let mut i: usize = 0;
    while i < v.len()
        invariant
            i <= v@.len(),
            forall|j: int| 0 <= j < i ==> v@[j] != a,
        decreases v@.len() - i,
    {
        if v[i] == a {
            assert(v@[i as int] == a);
            return true;
        }
        i = i + 1;
    }
    false
}

} // verus!
