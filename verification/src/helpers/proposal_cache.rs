//! The cache of the pending proposal and the signed proposals, kept across restarts.
use vstd::prelude::*;
use vstd::slice::slice_subrange;
use crate::helpers::codec::{
    holds_at, lemma_proposal_at, spec_ids_distinct, spec_proposal_bytes, spec_proposal_encodable,
    spec_read_proposal_at,
};
use crate::helpers::proposal::Proposal;
use crate::helpers::signed_proposals::{
    lemma_bytes_roundtrip, spec_read_signed_proposals, spec_signed_proposals_bytes, SignedEntry, SignedProposals,
};
use crate::text::{decimal, push_decimal};
use crate::types::{Address, BatchHeaderView, Field, Signature, TransmissionData, TransmissionID};

use vstd::string::StringExecFns;

verus! {

/// A proposal as the cache encodes it: its header, its transmissions and its collected
/// signatures.
pub type ProposalParts = (BatchHeaderView, Seq<(TransmissionID, TransmissionData)>, Seq<Signature>);

/// The encoding of a cache: one byte that says whether it holds a proposal (1) or not (0),
/// the proposal if it holds one, then the signed proposals.
pub open spec fn spec_cache_bytes(proposal: Option<ProposalParts>, signed: Seq<SignedEntry>) -> Seq<u8> {
    match proposal {
        Some(t) => seq![1u8] + spec_proposal_bytes(t.0, t.1, t.2) + spec_signed_proposals_bytes(signed),
        None => seq![0u8] + spec_signed_proposals_bytes(signed),
    }
}

/// The cache (its proposal, and its signed proposals as a map of author to round, batch ID
/// and signature) that the bytes encode; `None` if they are malformed.
pub open spec fn spec_read_cache(b: Seq<u8>) -> Option<(Option<ProposalParts>, Map<Address, (u64, Field, Signature)>)> {
    if b.len() < 1 {
        None
    } else if b[0] == 0u8 {
        match spec_read_signed_proposals(b.subrange(1, b.len() as int)) {
            Some(m) => Some((None, m)),
            None => None,
        }
    } else if b[0] == 1u8 {
        match spec_read_proposal_at(b, 1) {
            Some((t, q)) => if q <= b.len() {
                match spec_read_signed_proposals(b.subrange(q, b.len() as int)) {
                    Some(m) => Some((Some(t), m)),
                    None => None,
                }
            } else {
                None
            },
            None => None,
        }
    } else {
        None
    }
}

/// `true` if the proposal, if any, is by the expected signer and every signed proposal
/// carries the expected signer's signature.
pub open spec fn spec_cache_valid(
    proposal: Option<ProposalParts>,
    map: Map<Address, (u64, Field, Signature)>,
    expected_signer: Address,
) -> bool {
    &&& (match proposal {
        Some(t) => t.0.author == expected_signer,
        None => true,
    })
    &&& forall|a: Address| #[trigger] map.contains_key(a) ==> map[a].2.signer == expected_signer
}

/// The failures of storing and loading the proposal cache.
#[derive(Clone, Copy, Debug, PartialEq, Eq, Structural)]
pub enum CacheError {
    /// The cache's file could not be read.
    CannotRead,
    /// The bytes do not encode a cache.
    Malformed,
    /// The cache holds a proposal or a signed proposal of another signer than the address.
    Invalid(Address),
    /// A count of the cache does not fit in a `u32`.
    TooMany,
}

/// The text of the error, for the cache stored at `path`.
pub open spec fn spec_cache_message(e: CacheError, path: Seq<char>) -> Seq<char> {
    match e {
        CacheError::CannotRead => "Couldn't read the proposal stored at "@ + path,
        CacheError::Malformed => "Couldn't deserialize the proposal stored at "@ + path,
        CacheError::Invalid(a) => "The proposal cache is invalid for the given address "@ + decimal(a as nat),
        CacheError::TooMany => "Couldn't serialize the proposal cache for "@ + path,
    }
}

impl CacheError {
    /// The error's message, for the cache stored at `path`.
    pub fn message(&self, path: &str) -> (r: String)
        ensures
            r@ == spec_cache_message(*self, path@),
    {
        let mut s = String::new();
        match self {
            CacheError::CannotRead => {
                s.append("Couldn't read the proposal stored at ");
                s.append(path);
            },
            CacheError::Malformed => {
                s.append("Couldn't deserialize the proposal stored at ");
                s.append(path);
            },
            CacheError::Invalid(a) => {
                s.append("The proposal cache is invalid for the given address ");
                push_decimal(&mut s, *a as u128);
            },
            CacheError::TooMany => {
                s.append("Couldn't serialize the proposal cache for ");
                s.append(path);
            },
        }
        s
    }
}

/// The cache of the pending proposal and the signed proposals.
pub struct ProposalCache {
    proposal: Option<Proposal>,
    signed_proposals: SignedProposals,
}

impl ProposalCache {
    /// The header of the cached proposal, if any.
    pub closed spec fn spec_proposal_header(&self) -> Option<BatchHeaderView> {
        match self.proposal {
            Some(p) => Some(p.header()),
            None => None,
        }
    }

    /// The cached signed proposals.
    pub closed spec fn spec_signed_proposals(&self) -> SignedProposals {
        self.signed_proposals
    }

    /// The cached proposal: its header, its transmissions and its collected signatures.
    pub closed spec fn spec_proposal(&self) -> Option<ProposalParts> {
        match self.proposal {
            Some(p) => Some((p.header(), p.entries(), p.sigs())),
            None => None,
        }
    }

    /// `true` if the proposal and the signed proposals can be encoded: every count fits in
    /// a `u32`.
    pub open spec fn spec_encodable(&self) -> bool {
        &&& (match self.spec_proposal() {
            Some(t) => spec_proposal_encodable(t.0, t.1, t.2),
            None => true,
        })
        &&& self.spec_signed_proposals()@.len() <= u32::MAX
    }

    /// The empty cache: no proposal and no signed proposals.
    pub fn default() -> (r: ProposalCache)
        ensures
            r.spec_proposal() is None,
            r.spec_signed_proposals().wf(),
            r.spec_signed_proposals()@ == Map::<Address, (u64, Field, Signature)>::empty(),
    {
        ProposalCache { proposal: None, signed_proposals: SignedProposals::new() }
    }

    /// Encodes the cache: whether it holds a proposal (one byte, 1 or 0), the proposal if
    /// it holds one, then the signed proposals. Fails if a count does not fit in a `u32`.
    pub fn to_bytes_le(&self) -> (r: Result<Vec<u8>, CacheError>)
        requires
            self.spec_signed_proposals().wf(),
        ensures
            match r {
                Ok(b) => self.spec_encodable()
                    && b@ == spec_cache_bytes(self.spec_proposal(), self.spec_signed_proposals().entries()),
                Err(e) => e == CacheError::TooMany && !self.spec_encodable(),
            },
    {
        let mut out: Vec<u8> = Vec::new();
        match &self.proposal {
            Some(p) => {
                if !p.is_encodable() {
                    return Err(CacheError::TooMany);
                }
                out.push(1u8);
                p.write_le(&mut out);
            },
            None => {
                out.push(0u8);
            },
        }
        let ghost head = out@;
        match self.signed_proposals.to_bytes_le() {
            Ok(mut b) => {
                out.append(&mut b);
            },
            Err(_) => {
                return Err(CacheError::TooMany);
            },
        }
        proof {
            match self.spec_proposal() {
                Some(t) => {
                    assert(out@ =~= seq![1u8] + spec_proposal_bytes(t.0, t.1, t.2)
                        + spec_signed_proposals_bytes(self.spec_signed_proposals().entries()));
                },
                None => {
                    assert(out@ =~= seq![0u8] + spec_signed_proposals_bytes(self.spec_signed_proposals().entries()));
                },
            }
        }
        Ok(out)
    }

    /// Decodes a cache: fails if the first byte is neither 0 nor 1, or the proposal or the
    /// signed proposals after it are malformed. Bytes after the signed proposals are not read.
    pub fn from_bytes_le(bytes: &[u8]) -> (r: Result<ProposalCache, CacheError>)
        ensures
            match r {
                Ok(c) => c.spec_signed_proposals().wf()
                    && spec_read_cache(bytes@) == Some((c.spec_proposal(), c.spec_signed_proposals()@)),
                Err(e) => e == CacheError::Malformed && spec_read_cache(bytes@) is None,
            },
    {
        if bytes.len() < 1 {
            return Err(CacheError::Malformed);
        }
        let tag = bytes[0];
        let (proposal, pos) = if tag == 0 {
            (None, 1usize)
        } else if tag == 1 {
            match Proposal::read_le_at(bytes, 1) {
                Some((p, q)) => (Some(p), q),
                None => return Err(CacheError::Malformed),
            }
        } else {
            return Err(CacheError::Malformed);
        };
        if pos > bytes.len() {
            return Err(CacheError::Malformed);
        }
        match SignedProposals::read_le(slice_subrange(bytes, pos, bytes.len())) {
            Ok(signed_proposals) => Ok(ProposalCache { proposal, signed_proposals }),
            Err(_) => Err(CacheError::Malformed),
        }
    }

    /// Loads a cache from the bytes read from its file (`None` if the file could not be
    /// read), and ensures that it is valid for the expected signer.
    pub fn load(bytes: Option<&[u8]>, expected_signer: Address) -> (r: Result<ProposalCache, CacheError>)
        ensures
            match bytes {
                None => r == Err::<ProposalCache, CacheError>(CacheError::CannotRead),
                Some(b) => match spec_read_cache(b@) {
                    None => r == Err::<ProposalCache, CacheError>(CacheError::Malformed),
                    Some((proposal, map)) => if spec_cache_valid(proposal, map, expected_signer) {
                        r matches Ok(c) && c.spec_signed_proposals().wf() && c.spec_proposal() == proposal
                            && c.spec_signed_proposals()@ == map
                    } else {
                        r == Err::<ProposalCache, CacheError>(CacheError::Invalid(expected_signer))
                    },
                },
            },
    {
        let b = match bytes {
            Some(b) => b,
            None => return Err(CacheError::CannotRead),
        };
        let cache = match ProposalCache::from_bytes_le(b) {
            Ok(c) => c,
            Err(e) => return Err(e),
        };
        if !cache.is_valid(expected_signer) {
            return Err(CacheError::Invalid(expected_signer));
        }
        Ok(cache)
    }

    /// Initializes a new instance of the proposal cache.
    pub fn new(proposal: Option<Proposal>, signed_proposals: SignedProposals) -> (r: ProposalCache)
        ensures
            r.spec_proposal_header() == (match proposal {
                Some(p) => Some(p.header()),
                None => None,
            }),
            r.spec_signed_proposals() == signed_proposals,
    {
        ProposalCache { proposal, signed_proposals }
    }

    /// Ensures that the proposal and every signed proposal is associated with the
    /// `expected_signer`.
    pub fn is_valid(&self, expected_signer: Address) -> (r: bool)
        requires
            self.spec_signed_proposals().wf(),
        ensures
            r == ((match self.spec_proposal_header() {
                Some(h) => h.author == expected_signer,
                None => true,
            }) && forall|a: Address|
                #[trigger] self.spec_signed_proposals()@.contains_key(a) ==> self.spec_signed_proposals()@[a].2.signer
                    == expected_signer),
    {
        let proposal_ok = match &self.proposal {
            Some(proposal) => proposal.batch_header().author == expected_signer,
            None => true,
        };
        proposal_ok && self.signed_proposals.is_valid(expected_signer)
    }

    /// Returns the proposal and signed proposals.
    pub fn into(self) -> (r: (Option<Proposal>, SignedProposals))
        ensures
            (match r.0 {
                Some(p) => Some(p.header()),
                None => None,
            }) == self.spec_proposal_header(),
            r.1 == self.spec_signed_proposals(),
    {
        (self.proposal, self.signed_proposals)
    }
}

/// Loading the bytes that storing a cache wrote gives the cache back: the same proposal
/// (header, transmissions, collected signatures) and the same signed proposals. This holds
/// when every count fits in a `u32`, and the proposal, if any, carries its author's
/// signature and holds no transmission ID and no signature twice.
pub proof fn law_cache_bytes_roundtrip(c: ProposalCache)
    requires
        c.spec_signed_proposals().wf(),
        c.spec_encodable(),
        match c.spec_proposal() {
            Some(t) => t.0.is_signed_by_author() && spec_ids_distinct(t.1) && t.2.no_duplicates(),
            None => true,
        },
    ensures
        spec_read_cache(spec_cache_bytes(c.spec_proposal(), c.spec_signed_proposals().entries()))
            == Some((c.spec_proposal(), c.spec_signed_proposals()@)),
{
    let sp = c.spec_signed_proposals();
    let sb = spec_signed_proposals_bytes(sp.entries());
    lemma_bytes_roundtrip(&sp);
    match c.spec_proposal() {
        None => {
            let b = seq![0u8] + sb;
            assert(b.subrange(1, b.len() as int) =~= sb);
        },
        Some(t) => {
            let pb = spec_proposal_bytes(t.0, t.1, t.2);
            let b = seq![1u8] + pb + sb;
            assert(b.subrange(1, 1 + pb.len() as int) =~= pb);
            assert(holds_at(b, 1, pb));
            lemma_proposal_at(b, 1, t.0, t.1, t.2);
            assert(b.subrange(1 + pb.len() as int, b.len() as int) =~= sb);
        },
    }
}

} // verus!
