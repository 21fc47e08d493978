//! A batch proposal of this node: the proposed header, its transmissions, and the
//! signatures collected so far.
use vstd::prelude::*;
use indexmap::{IndexMap, IndexSet};
use crate::collections::{
    has_transmission, signature_set_get_index, signature_set_insert, signature_set_len,
    signature_set_new, signatures_in, transmission_map_contains_key, transmission_map_get,
    transmission_map_get_index, transmission_map_insert, transmission_map_len, transmission_map_new,
    transmissions_in,
};
use crate::committee::{spec_is_member, Committee};
use crate::helpers::codec::{
    lemma_distinct_push, lemma_dup_not_distinct, lemma_no_dup_push, lemma_push_concat,
    lemma_sig_dup, read_header_at, read_id_at, read_signature_at, read_transmission_at,
    read_u32_at, spec_ids_distinct, spec_proposal_bytes, spec_proposal_encodable,
    spec_read_proposal_at, spec_read_signatures_at, spec_read_transmissions_at,
    spec_signature_bytes, spec_signatures_bytes, spec_transmission_bytes,
    spec_transmission_encodable, spec_transmissions_bytes, write_header, write_signature,
    write_transmission,
};
use vstd::bytes::u32_to_le_bytes;
use crate::types::{
    spec_transmission_id_bytes, contains_address, Address, BatchCertificate, BatchHeader, BatchHeaderView, Field, Signature,
    Transmission, TransmissionData, TransmissionID,
};

use vstd::string::StringExecFns;

verus! {

/// The reasons a proposal is refused or cannot advance.
#[derive(Clone, Copy, Debug, PartialEq, Eq, Structural)]
pub enum ProposalError {
    /// The batch round is below the starting round of the committee.
    RoundBelowCommittee,
    /// The batch author is not a committee member.
    AuthorNotInCommittee,
    /// The transmissions are empty.
    EmptyTransmissions,
    /// The transmission IDs do not match in the batch header and transmissions.
    TransmissionMismatch,
    /// The signature is from a non-committee member.
    NonCommitteeSigner,
    /// The signer has already signed.
    DuplicateSigner,
    /// The signature is not the signer's signature on the batch ID.
    InvalidSignature,
    /// The quorum threshold has not been reached.
    QuorumNotReached,
}

/// The addresses of the signatures.
pub open spec fn spec_signers_of(sigs: Seq<Signature>) -> Set<Address> {
    Set::new(|a: Address| exists|i: int| 0 <= i < sigs.len() && sigs[i].signer == a)
}

/// `true` if the transmission IDs of the header are the keys of the entries, in order.
pub open spec fn spec_ids_match(ids: Seq<TransmissionID>, s: Seq<(TransmissionID, TransmissionData)>) -> bool {
    ids.len() == s.len() && forall|i: int| 0 <= i < ids.len() ==> ids[i] == s[i].0
}

/// The error, if any, that forming a proposal gives.
pub open spec fn spec_new_error(
    c: Committee,
    h: BatchHeaderView,
    s: Seq<(TransmissionID, TransmissionData)>,
) -> Option<ProposalError> {
    if h.round < c.spec_starting_round() {
        Some(ProposalError::RoundBelowCommittee)
    } else if !spec_is_member(c.spec_members(), h.author) {
        Some(ProposalError::AuthorNotInCommittee)
    } else if s.len() == 0 {
        Some(ProposalError::EmptyTransmissions)
    } else if !spec_ids_match(h.transmission_ids, s) {
        Some(ProposalError::TransmissionMismatch)
    } else {
        None
    }
}

/// A batch proposal.
pub struct Proposal {
    /// The proposed batch header.
    batch_header: BatchHeader,
    /// The proposed transmissions.
    transmissions: IndexMap<TransmissionID, Transmission>,
    /// The set of signatures.
    signatures: IndexSet<Signature>,
}

impl Proposal {
    /// The proposed header.
    pub closed spec fn header(&self) -> BatchHeaderView {
        self.batch_header@
    }

    /// The proposed transmissions, in order.
    pub closed spec fn entries(&self) -> Seq<(TransmissionID, TransmissionData)> {
        transmissions_in(self.transmissions)
    }

    /// The collected signatures, in order.
    pub closed spec fn sigs(&self) -> Seq<Signature> {
        signatures_in(self.signatures)
    }

    /// The signers: the signers of the collected signatures and the signer of the header.
    pub open spec fn spec_signers(&self) -> Set<Address> {
        spec_signers_of(self.sigs()).insert(self.header().signature.signer)
    }

    /// Initializes a new instance of the proposal, with no signatures collected: its only
    /// signer is the batch author, who signed the header.
    pub fn new(
        committee: &Committee,
        batch_header: BatchHeader,
        transmissions: IndexMap<TransmissionID, Transmission>,
    ) -> (r: Result<Proposal, ProposalError>)
        requires
            batch_header@.is_signed_by_author(),
        ensures
            match r {
                Ok(p) => spec_new_error(*committee, batch_header@, transmissions_in(transmissions)) is None
                    && p.header() == batch_header@ && p.entries() == transmissions_in(transmissions)
                    && p.sigs() == Seq::<Signature>::empty()
                    && p.spec_signers() == set![batch_header@.author],
                Err(e) => spec_new_error(*committee, batch_header@, transmissions_in(transmissions)) == Some(e),
            },
    {
        // Ensure the committee is for the batch round.
        if batch_header.round < committee.starting_round() {
            return Err(ProposalError::RoundBelowCommittee);
        }
        // Ensure the batch author is a member of the committee.
        if !committee.is_committee_member(batch_header.author) {
            return Err(ProposalError::AuthorNotInCommittee);
        }
        // Ensure the transmissions are not empty.
        let n = transmission_map_len(&transmissions);
        if n == 0 {
            return Err(ProposalError::EmptyTransmissions);
        }
        // Ensure the transmission IDs match in the batch header and transmissions.
        if batch_header.transmission_ids.len() != n {
            return Err(ProposalError::TransmissionMismatch);
        }
        let mut i: usize = 0;
        while i < n
            invariant
                batch_header.round >= committee.spec_starting_round(),
                spec_is_member(committee.spec_members(), batch_header.author),
                n > 0,
                n == transmissions_in(transmissions).len(),
                n == batch_header.transmission_ids@.len(),
                i <= n,
                forall|j: int| 0 <= j < i ==> batch_header.transmission_ids@[j] == transmissions_in(transmissions)[j].0,
            decreases n - i,
        {
            let (id, _) = transmission_map_get_index(&transmissions, i);
            if batch_header.transmission_ids[i] != *id {
                assert(!spec_ids_match(batch_header@.transmission_ids, transmissions_in(transmissions)));
                return Err(ProposalError::TransmissionMismatch);
            }
            i = i + 1;
        }
        let p = Proposal { batch_header, transmissions, signatures: signature_set_new() };
        assert(spec_signers_of(p.sigs()) =~= Set::<Address>::empty());
        assert(p.spec_signers() =~= set![p.header().signature.signer]);
        Ok(p)
    }

    /// Returns the proposed batch header.
    pub fn batch_header(&self) -> (r: &BatchHeader)
        ensures
            r@ == self.header(),
    {
        &self.batch_header
    }

    /// Returns the proposed batch ID.
    pub fn batch_id(&self) -> (r: Field)
        ensures
            r == self.header().batch_id,
    {
        self.batch_header.batch_id
    }

    /// Returns the round.
    pub fn round(&self) -> (r: u64)
        ensures
            r == self.header().round,
    {
        self.batch_header.round
    }

    /// Returns the timestamp.
    pub fn timestamp(&self) -> (r: i64)
        ensures
            r == self.header().timestamp,
    {
        self.batch_header.timestamp
    }

    /// Returns the transmissions.
    pub fn transmissions(&self) -> (r: &IndexMap<TransmissionID, Transmission>)
        ensures
            transmissions_in(*r) == self.entries(),
    {
        &self.transmissions
    }

    /// Returns the transmissions, in order.
    pub fn into_transmissions(self) -> (r: Vec<(TransmissionID, Transmission)>)
        ensures
            r@.len() == self.entries().len(),
            forall|i: int| 0 <= i < r@.len() ==> (#[trigger] r@[i]).0 == self.entries()[i].0 && r@[i].1@ == self.entries()[i].1,
    {
        let n = transmission_map_len(&self.transmissions);
        let mut out: Vec<(TransmissionID, Transmission)> = Vec::new();
        let mut i: usize = 0;
        while i < n
            invariant
                n == self.entries().len(),
                i <= n,
                out@.len() == i,
                forall|j: int| 0 <= j < i ==> (#[trigger] out@[j]).0 == self.entries()[j].0 && out@[j].1@ == self.entries()[j].1,
            decreases n - i,
        {
            let (id, t) = transmission_map_get_index(&self.transmissions, i);
            out.push((*id, t.duplicate()));
            i = i + 1;
        }
        out
    }

    /// Returns the signers: the signer of the header and the signers of the collected signatures.
    pub fn signers(&self) -> (r: Vec<Address>)
        ensures
            r@.to_set() == self.spec_signers(),
    {
        let n = signature_set_len(&self.signatures);
        let mut out: Vec<Address> = Vec::new();
        let mut i: usize = 0;
        while i < n
            invariant
                n == self.sigs().len(),
                i <= n,
                out@.to_set() == spec_signers_of(self.sigs().take(i as int)),
            decreases n - i,
        {
            let sig = signature_set_get_index(&self.signatures, i);
            let ghost before = out@;
            out.push(sig.to_address());
            proof {
                let t0 = self.sigs().take(i as int);
                let t1 = self.sigs().take(i + 1);
                assert forall|a: Address| out@.to_set().contains(a) <==> spec_signers_of(t1).contains(a) by {
                    if out@.to_set().contains(a) {
                        let x = choose|x: int| 0 <= x < out@.len() && out@[x] == a;
                        if x == before.len() {
                            assert(t1[i as int].signer == a);
                        } else {
                            assert(before[x] == a);
                            assert(before.to_set().contains(a));
                            let y = choose|y: int| 0 <= y < t0.len() && t0[y].signer == a;
                            assert(t1[y] == t0[y]);
                        }
                    }
                    if spec_signers_of(t1).contains(a) {
                        let y = choose|y: int| 0 <= y < t1.len() && t1[y].signer == a;
                        if y == i {
                            assert(out@[before.len() as int] == a);
                        } else {
                            assert(t0[y] == t1[y]);
                            assert(spec_signers_of(t0).contains(a));
                            assert(before.to_set().contains(a));
                            let x = choose|x: int| 0 <= x < before.len() && before[x] == a;
                            assert(out@[x] == a);
                        }
                    }
                }
                assert(out@.to_set() =~= spec_signers_of(t1));
            }
            i = i + 1;
        }
        let ghost before = out@;
        out.push(self.batch_header.signature.to_address());
        proof {
            assert(self.sigs().take(n as int) =~= self.sigs());
            let a0 = self.header().signature.signer;
            assert forall|a: Address| out@.to_set().contains(a) <==> self.spec_signers().contains(a) by {
                if out@.to_set().contains(a) {
                    let x = choose|x: int| 0 <= x < out@.len() && out@[x] == a;
                    if x < before.len() {
                        assert(before[x] == a);
                        assert(before.to_set().contains(a));
                    }
                }
                if self.spec_signers().contains(a) {
                    if a == a0 {
                        assert(out@[before.len() as int] == a);
                    } else {
                        assert(before.to_set().contains(a));
                        let x = choose|x: int| 0 <= x < before.len() && before[x] == a;
                        assert(out@[x] == a);
                    }
                }
            }
            assert(out@.to_set() =~= self.spec_signers());
        }
        out
    }

    /// Returns the committee members that have not signed, in committee order.
    pub fn nonsigners(&self, committee: &Committee) -> (r: Vec<Address>)
        ensures
            r@.to_set() == Set::new(|a: Address| spec_is_member(committee.spec_members(), a) && !self.spec_signers().contains(a)),
    {
        let signers = self.signers();
        let members = committee.members();
        let mut out: Vec<Address> = Vec::new();
        let mut i: usize = 0;
        while i < members.len()
            invariant
                members@ == committee.spec_members(),
                signers@.to_set() == self.spec_signers(),
                i <= members@.len(),
                forall|x: int| 0 <= x < out@.len() ==> spec_is_member(committee.spec_members(), #[trigger] out@[x]) && !self.spec_signers().contains(out@[x]),
                forall|j: int| 0 <= j < i && !self.spec_signers().contains(members@[j].0) ==> out@.contains(#[trigger] members@[j].0),
            decreases members@.len() - i,
        {
            let a = members[i].0;
            if !contains_address(&signers, a) {
                let ghost before = out@;
                proof {
                    assert(!signers@.to_set().contains(a));
                }
                out.push(a);
                proof {
                    assert forall|j: int| 0 <= j < i + 1 && !self.spec_signers().contains(members@[j].0) implies out@.contains(#[trigger] members@[j].0) by {
                        if j == i {
                            assert(out@[before.len() as int] == a);
                        } else {
                            let x = choose|x: int| 0 <= x < before.len() && before[x] == members@[j].0;
                            assert(out@[x] == before[x]);
                        }
                    }
                }
            } else {
                proof {
                    assert(signers@.contains(a));
                    assert(signers@.to_set().contains(a));
                }
            }
            i = i + 1;
        }
        proof {
            let target = Set::new(|a: Address| spec_is_member(committee.spec_members(), a) && !self.spec_signers().contains(a));
            assert forall|a: Address| out@.to_set().contains(a) <==> target.contains(a) by {
                if out@.to_set().contains(a) {
                    let x = choose|x: int| 0 <= x < out@.len() && out@[x] == a;
                }
                if target.contains(a) {
                    let j = choose|j: int| 0 <= j < members@.len() && members@[j].0 == a;
                    assert(out@.contains(members@[j].0));
                }
            }
            assert(out@.to_set() =~= target);
        }
        out
    }

    /// Returns `true` if the quorum threshold has been reached for the proposed batch.
    pub fn is_quorum_threshold_reached(&self, committee: &Committee) -> (r: bool)
        requires
            committee.wf(),
        ensures
            r == committee.spec_is_quorum(self.spec_signers()),
    {
        let signers = self.signers();
        committee.is_quorum_threshold_reached(&signers)
    }

    /// Returns `true` if the proposal contains the given transmission ID.
    pub fn contains_transmission(&self, transmission_id: TransmissionID) -> (r: bool)
        ensures
            r == has_transmission(self.entries(), transmission_id),
    {
        transmission_map_contains_key(&self.transmissions, &transmission_id)
    }

    /// Returns the transmission for the given transmission ID.
    pub fn get_transmission(&self, transmission_id: TransmissionID) -> (r: Option<&Transmission>)
        ensures
            match r {
                Some(t) => exists|i: int| 0 <= i < self.entries().len() && self.entries()[i].0 == transmission_id && self.entries()[i].1 == t@,
                None => !has_transmission(self.entries(), transmission_id),
            },
    {
        let r = transmission_map_get(&self.transmissions, &transmission_id);
        proof {
            if let Some(t) = r {
                let i = choose|i: int| 0 <= i < transmissions_in(self.transmissions).len()
                    && transmissions_in(self.transmissions)[i].0 == transmission_id
                    && transmissions_in(self.transmissions)[i].1 == t@;
                assert(self.entries()[i].1 == t@);
            }
        }
        r
    }

    /// Adds a signature to the proposal, if the signer is a committee member that has not
    /// signed yet, and the signature is the signer's signature on the batch ID.
    pub fn add_signature(&mut self, signer: Address, signature: Signature, committee: &Committee) -> (r: Result<(), ProposalError>)
        ensures
            final(self).header() == old(self).header(),
            final(self).entries() == old(self).entries(),
            r == (if !spec_is_member(committee.spec_members(), signer) {
                Err(ProposalError::NonCommitteeSigner)
            } else if old(self).spec_signers().contains(signer) {
                Err(ProposalError::DuplicateSigner)
            } else if !(signature.signer == signer && signature.message == old(self).header().batch_id) {
                Err(ProposalError::InvalidSignature)
            } else {
                Ok(())
            }),
            r is Ok ==> final(self).sigs() == old(self).sigs().push(signature),
            r is Err ==> final(self).sigs() == old(self).sigs(),
    {
        // Ensure the signer is in the committee.
        if !committee.is_committee_member(signer) {
            return Err(ProposalError::NonCommitteeSigner);
        }
        // Ensure the signer is new.
        let signers = self.signers();
        if contains_address(&signers, signer) {
            proof {
                assert(signers@.to_set().contains(signer));
            }
            return Err(ProposalError::DuplicateSigner);
        }
        proof {
            if signers@.to_set().contains(signer) {
                assert(signers@.contains(signer));
            }
        }
        // Verify the signature.
        if !signature.verify(signer, self.batch_id()) {
            return Err(ProposalError::InvalidSignature);
        }
        // Insert the signature; it is new, as its signer has not signed.
        proof {
            if self.sigs().contains(signature) {
                let i = choose|i: int| 0 <= i < self.sigs().len() && self.sigs()[i] == signature;
                assert(spec_signers_of(self.sigs()).contains(signer));
            }
        }
        signature_set_insert(&mut self.signatures, signature);
        Ok(())
    }

    /// Returns the batch certificate, with the given certificate ID, and the transmissions,
    /// once the quorum threshold has been reached.
    pub fn to_certificate(&self, committee: &Committee, certificate_id: Field) -> (r: Result<(BatchCertificate, Vec<(TransmissionID, Transmission)>), ProposalError>)
        requires
            committee.wf(),
        ensures
            match r {
                Ok((c, ts)) => committee.spec_is_quorum(self.spec_signers()) && c@.id == certificate_id
                    && c@.header == self.header() && c@.signatures == self.sigs()
                    && ts@.len() == self.entries().len()
                    && forall|i: int| 0 <= i < ts@.len() ==> (#[trigger] ts@[i]).0 == self.entries()[i].0 && ts@[i].1@ == self.entries()[i].1,
                Err(e) => !committee.spec_is_quorum(self.spec_signers()) && e == ProposalError::QuorumNotReached,
            },
    {
        // Ensure the quorum threshold has been reached.
        if !self.is_quorum_threshold_reached(committee) {
            return Err(ProposalError::QuorumNotReached);
        }
        // Collect the signatures.
        let n = signature_set_len(&self.signatures);
        let mut signatures: Vec<Signature> = Vec::new();
        let mut i: usize = 0;
        while i < n
            invariant
                n == self.sigs().len(),
                i <= n,
                signatures@ == self.sigs().take(i as int),
            decreases n - i,
        {
            signatures.push(signature_set_get_index(&self.signatures, i));
            i = i + 1;
            assert(signatures@ =~= self.sigs().take(i as int));
        }
        assert(self.sigs().take(n as int) =~= self.sigs());
        let certificate = BatchCertificate {
            certificate_id,
            batch_header: self.batch_header.duplicate(),
            signatures,
        };
        // Collect the transmissions.
        let tn = transmission_map_len(&self.transmissions);
        let mut ts: Vec<(TransmissionID, Transmission)> = Vec::new();
        let mut j: usize = 0;
        while j < tn
            invariant
                tn == self.entries().len(),
                j <= tn,
                ts@.len() == j,
                forall|k: int| 0 <= k < j ==> (#[trigger] ts@[k]).0 == self.entries()[k].0 && ts@[k].1@ == self.entries()[k].1,
            decreases tn - j,
        {
            let (id, t) = transmission_map_get_index(&self.transmissions, j);
            ts.push((*id, t.duplicate()));
            j = j + 1;
        }
        Ok((certificate, ts))
    }
}

/// The text of the error.
pub open spec fn spec_proposal_message(e: ProposalError) -> Seq<char> {
    match e {
        ProposalError::RoundBelowCommittee => "Batch round must be >= the committee round"@,
        ProposalError::AuthorNotInCommittee => "The batch author is not a committee member"@,
        ProposalError::EmptyTransmissions => "The transmissions are empty"@,
        ProposalError::TransmissionMismatch => "The transmission IDs do not match in the batch header and transmissions"@,
        ProposalError::NonCommitteeSigner => "Signature from a non-committee member"@,
        ProposalError::DuplicateSigner => "Duplicate signature"@,
        ProposalError::InvalidSignature => "Signature verification failed"@,
        ProposalError::QuorumNotReached => "The quorum threshold has not been reached"@,
    }
}

impl ProposalError {
    /// The error's message.
    pub fn message(&self) -> (r: String)
        ensures
            r@ == spec_proposal_message(*self),
    {
        let mut s = String::new();
        match self {
            ProposalError::RoundBelowCommittee => {
                s.append("Batch round must be >= the committee round");
            },
            ProposalError::AuthorNotInCommittee => {
                s.append("The batch author is not a committee member");
            },
            ProposalError::EmptyTransmissions => {
                s.append("The transmissions are empty");
            },
            ProposalError::TransmissionMismatch => {
                s.append("The transmission IDs do not match in the batch header and transmissions");
            },
            ProposalError::NonCommitteeSigner => {
                s.append("Signature from a non-committee member");
            },
            ProposalError::DuplicateSigner => {
                s.append("Duplicate signature");
            },
            ProposalError::InvalidSignature => {
                s.append("Signature verification failed");
            },
            ProposalError::QuorumNotReached => {
                s.append("The quorum threshold has not been reached");
            },
        }
        s
    }
}

/// Reads `n` transmissions (each ID before its transmission) from position `p`; fails if the
/// bytes do not encode them or two have one ID.
fn read_transmissions_at(b: &[u8], p: usize, n: u32) -> (r: Option<(IndexMap<TransmissionID, Transmission>, usize)>)
    ensures
        match r {
            Some((m, q)) => spec_read_transmissions_at(b@, p as int, n as nat) == Some((transmissions_in(m), q as int))
                && spec_ids_distinct(transmissions_in(m)),
            None => match spec_read_transmissions_at(b@, p as int, n as nat) {
                Some((s, _)) => !spec_ids_distinct(s),
                None => true,
            },
        },
{
    let mut map = transmission_map_new();
    let mut cur: usize = p;
    let mut k: u32 = 0;
    proof {
        match spec_read_transmissions_at(b@, p as int, n as nat) {
            Some((s, r)) => { assert(transmissions_in(map) + s =~= s); },
            None => {},
        }
    }
    while k < n
        invariant
            k <= n,
            spec_ids_distinct(transmissions_in(map)),
            spec_read_transmissions_at(b@, p as int, n as nat) == (match spec_read_transmissions_at(b@, cur as int, (n - k) as nat) {
                Some((s, r)) => Some((transmissions_in(map) + s, r)),
                None => None,
            }),
        decreases n - k,
    {
        let (id, q) = match read_id_at(b, cur) {
            Some(x) => x,
            None => return None,
        };
        let (t, q2) = match read_transmission_at(b, q) {
            Some(x) => x,
            None => return None,
        };
        let ghost acc = transmissions_in(map);
        let ghost x = (id, t@);
        let ghost rest = spec_read_transmissions_at(b@, q2 as int, (n - k - 1) as nat);
        if transmission_map_contains_key(&map, &id) {
            proof {
                match rest {
                    Some((s, r)) => lemma_dup_not_distinct(acc, x, s),
                    None => {},
                }
            }
            return None;
        }
        transmission_map_insert(&mut map, id, t);
        proof {
            lemma_distinct_push(acc, x);
            match rest {
                Some((s, r)) => lemma_push_concat(acc, x, s),
                None => {},
            }
        }
        cur = q2;
        k = k + 1;
    }
    assert(transmissions_in(map) + Seq::<(TransmissionID, TransmissionData)>::empty() =~= transmissions_in(map));
    Some((map, cur))
}

/// Reads `n` signatures from position `p`; fails if the bytes do not encode them or one
/// occurs twice.
fn read_signatures_at(b: &[u8], p: usize, n: u32) -> (r: Option<(IndexSet<Signature>, usize)>)
    ensures
        match r {
            Some((m, q)) => spec_read_signatures_at(b@, p as int, n as nat) == Some((signatures_in(m), q as int))
                && signatures_in(m).no_duplicates(),
            None => match spec_read_signatures_at(b@, p as int, n as nat) {
                Some((s, _)) => !s.no_duplicates(),
                None => true,
            },
        },
{
    let mut set = signature_set_new();
    let mut cur: usize = p;
    let mut k: u32 = 0;
    proof {
        match spec_read_signatures_at(b@, p as int, n as nat) {
            Some((s, r)) => { assert(signatures_in(set) + s =~= s); },
            None => {},
        }
    }
    while k < n
        invariant
            k <= n,
            signatures_in(set).no_duplicates(),
            spec_read_signatures_at(b@, p as int, n as nat) == (match spec_read_signatures_at(b@, cur as int, (n - k) as nat) {
                Some((s, r)) => Some((signatures_in(set) + s, r)),
                None => None,
            }),
        decreases n - k,
    {
        let (x, q) = match read_signature_at(b, cur) {
            Some(v) => v,
            None => return None,
        };
        let ghost acc = signatures_in(set);
        let ghost rest = spec_read_signatures_at(b@, q as int, (n - k - 1) as nat);
        if !signature_set_insert(&mut set, x) {
            proof {
                match rest {
                    Some((s, r)) => lemma_sig_dup(acc, x, s),
                    None => {},
                }
            }
            return None;
        }
        proof {
            lemma_no_dup_push(acc, x);
            match rest {
                Some((s, r)) => lemma_push_concat(acc, x, s),
                None => {},
            }
        }
        cur = q;
        k = k + 1;
    }
    assert(signatures_in(set) + Seq::<Signature>::empty() =~= signatures_in(set));
    Some((set, cur))
}

impl Proposal {
    /// `true` if every count of the proposal fits in a `u32`, so that it can be encoded.
    pub open spec fn spec_encodable(&self) -> bool {
        spec_proposal_encodable(self.header(), self.entries(), self.sigs())
    }

    /// Returns `true` if every count of the proposal fits in a `u32`.
    pub fn is_encodable(&self) -> (r: bool)
        ensures
            r == self.spec_encodable(),
    {
        let h = &self.batch_header;
        if h.transmission_ids.len() > u32::MAX as usize || h.previous_certificate_ids.len() > u32::MAX as usize
            || h.last_election_certificate_ids.len() > u32::MAX as usize {
            return false;
        }
        let n = transmission_map_len(&self.transmissions);
        if n > u32::MAX as usize || signature_set_len(&self.signatures) > u32::MAX as usize {
            return false;
        }
        let mut i: usize = 0;
        while i < n
            invariant
                n == self.entries().len(),
                i <= n,
                forall|j: int| 0 <= j < i ==> spec_transmission_encodable(#[trigger] self.entries()[j].1),
            decreases n - i,
        {
            let (_, t) = transmission_map_get_index(&self.transmissions, i);
            let fits = match t {
                Transmission::Ratification => true,
                Transmission::Solution(d) => d.len() <= u32::MAX as usize,
                Transmission::Transaction(d) => d.len() <= u32::MAX as usize,
            };
            if !fits {
                assert(!spec_transmission_encodable(self.entries()[i as int].1));
                return false;
            }
            i = i + 1;
        }
        true
    }

    /// Appends the encoding of the proposal: its header, its transmissions and its collected
    /// signatures, each list after its count.
    pub fn write_le(&self, out: &mut Vec<u8>)
        requires
            self.spec_encodable(),
        ensures
            final(out)@ == old(out)@ + spec_proposal_bytes(self.header(), self.entries(), self.sigs()),
    {
        let ghost start = out@;
        write_header(out, &self.batch_header);
        let n = transmission_map_len(&self.transmissions);
        let mut c = u32_to_le_bytes(n as u32);
        out.append(&mut c);
        let ghost head = out@;
        let mut i: usize = 0;
        while i < n
            invariant
                self.spec_encodable(),
                n == self.entries().len(),
                i <= n,
                out@ == head + spec_transmissions_bytes(self.entries().subrange(0, i as int)),
            decreases n - i,
        {
            let (id, t) = transmission_map_get_index(&self.transmissions, i);
            let ghost before = out@;
            assert(spec_transmission_encodable(self.entries()[i as int].1));
            let mut a = id.to_bytes_le();
            out.append(&mut a);
            write_transmission(out, t);
            proof {
                let s = self.entries().subrange(0, i as int + 1);
                assert(s.drop_last() =~= self.entries().subrange(0, i as int));
                assert(out@ =~= before + spec_transmission_id_bytes(s.last().0) + spec_transmission_bytes(s.last().1));
            }
            i = i + 1;
        }
        assert(self.entries().subrange(0, n as int) =~= self.entries());
        let ghost mid = out@;
        let m = signature_set_len(&self.signatures);
        let mut d = u32_to_le_bytes(m as u32);
        out.append(&mut d);
        let ghost head2 = out@;
        let mut j: usize = 0;
        while j < m
            invariant
                m == self.sigs().len(),
                j <= m,
                out@ == head2 + spec_signatures_bytes(self.sigs().subrange(0, j as int)),
            decreases m - j,
        {
            let sig = signature_set_get_index(&self.signatures, j);
            let ghost before = out@;
            write_signature(out, sig);
            proof {
                let s = self.sigs().subrange(0, j as int + 1);
                assert(s.drop_last() =~= self.sigs().subrange(0, j as int));
                assert(out@ =~= before + spec_signature_bytes(s.last()));
            }
            j = j + 1;
        }
        assert(self.sigs().subrange(0, m as int) =~= self.sigs());
        assert(out@ =~= start + spec_proposal_bytes(self.header(), self.entries(), self.sigs()));
    }

    /// Reads the proposal encoded at position `p`: its header (which its author must have
    /// signed), its transmissions (with distinct IDs) and its collected signatures (none
    /// twice).
    pub fn read_le_at(b: &[u8], p: usize) -> (r: Option<(Proposal, usize)>)
        ensures
            match r {
                Some((v, q)) => spec_read_proposal_at(b@, p as int) == Some(((v.header(), v.entries(), v.sigs()), q as int)),
                None => spec_read_proposal_at(b@, p as int) is None,
            },
    {
        let (batch_header, p1) = match read_header_at(b, p) {
            Some(x) => x,
            None => return None,
        };
        let (n, p2) = match read_u32_at(b, p1) {
            Some(x) => x,
            None => return None,
        };
        let (transmissions, p3) = match read_transmissions_at(b, p2, n) {
            Some(x) => x,
            None => return None,
        };
        let (m, p4) = match read_u32_at(b, p3) {
            Some(x) => x,
            None => return None,
        };
        let (signatures, p5) = match read_signatures_at(b, p4, m) {
            Some(x) => x,
            None => return None,
        };
        Some((Proposal { batch_header, transmissions, signatures }, p5))
    }
}

} // verus!
