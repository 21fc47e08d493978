//! The decisions of the primary: whether to propose a batch, which transmissions it
//! carries, whether to sign a peer's batch proposal, whether a batch signature is accepted,
//! and how the round advances.
use vstd::prelude::*;
use indexmap::IndexMap;
use crate::bft::{authors_of, certificate_authors, views};
use crate::collections::{transmission_map_insert, transmission_map_new, transmissions_in};
use crate::committee::{spec_stake_in, Committee};
use crate::helpers::ready::spec_insert_entry;
use crate::helpers::proposal::{Proposal, ProposalError};
use crate::types::{
    Address, BatchCertificate, BatchHeader, Field, Signature, Transmission, TransmissionData,
    TransmissionID, spec_kinds_match,
};

use crate::text::{decimal, push_decimal};
use vstd::string::StringExecFns;

verus! {

/// The maximum number of transmissions in a batch.
pub const MAX_TRANSMISSIONS_PER_BATCH: usize = 250;

/// The outcome of the checks before a batch is proposed.
#[derive(Clone, Copy, Debug, PartialEq, Eq, Structural)]
pub enum ProposeDecision {
    /// The primary already has a certificate in the round; it tries to advance instead.
    AlreadyCertified,
    /// The committee lookback of the round is not known.
    MissingCommittee,
    /// The primary and its connected validators do not reach the quorum threshold.
    NotEnoughConnectedValidators,
    /// The committee lookback of the previous round is not known yet.
    MissingPreviousCommittee,
    /// The certificates of the previous round have not reached the quorum threshold.
    PreviousRoundWithoutQuorum,
    /// The primary may propose a batch for the round.
    Ready,
}

/// The outcome of the checks before a batch is proposed.
pub open spec fn spec_decide_batch_proposal(
    round: u64,
    already_certified: bool,
    committee_lookback: Option<Committee>,
    connected_validators: Seq<Address>,
    self_address: Address,
    previous_certificates: Seq<crate::types::BatchCertificateView>,
    previous_committee_lookback: Option<Committee>,
) -> ProposeDecision {
    if already_certified {
        ProposeDecision::AlreadyCertified
    } else {
        match committee_lookback {
            None => ProposeDecision::MissingCommittee,
            Some(c) => {
                if !c.spec_is_quorum(connected_validators.to_set().insert(self_address)) {
                    ProposeDecision::NotEnoughConnectedValidators
                } else if round <= 1 {
                    ProposeDecision::Ready
                } else {
                    match previous_committee_lookback {
                        None => ProposeDecision::MissingPreviousCommittee,
                        Some(p) => if p.spec_is_quorum(authors_of(previous_certificates)) {
                            ProposeDecision::Ready
                        } else {
                            ProposeDecision::PreviousRoundWithoutQuorum
                        },
                    }
                }
            },
        }
    }
}

/// Once the primary and its connected validators hold the quorum threshold, the primary may
/// propose in round 1 outright, and in a later round exactly when the authors of the previous
/// round's certificates hold the quorum threshold of the previous committee lookback's stake.
pub proof fn law_propose_needs_previous_quorum(
    round: u64,
    committee: Committee,
    connected_validators: Seq<Address>,
    self_address: Address,
    previous_certificates: Seq<crate::types::BatchCertificateView>,
    previous_committee: Committee,
)
    requires
        spec_stake_in(
            committee.spec_members(),
            Set::new(|a: Address| connected_validators.contains(a) || a == self_address),
        ) >= committee.spec_quorum_threshold(),
    ensures
        round <= 1 ==> spec_decide_batch_proposal(round, false, Some(committee), connected_validators, self_address,
            previous_certificates, Some(previous_committee)) == ProposeDecision::Ready,
        round > 1 ==> ((spec_decide_batch_proposal(round, false, Some(committee), connected_validators, self_address,
            previous_certificates, Some(previous_committee)) == ProposeDecision::Ready)
            <==> spec_stake_in(previous_committee.spec_members(), authors_of(previous_certificates))
                >= previous_committee.spec_quorum_threshold()),
{
    assert(connected_validators.to_set().insert(self_address)
        =~= Set::new(|a: Address| connected_validators.contains(a) || a == self_address));
}

/// The connectivity check counts the primary's own stake: when the primary has no
/// certificate in the round and the committee lookback is known, the decision is
/// `NotEnoughConnectedValidators` exactly when the connected validators together with the
/// primary itself hold less than the quorum threshold of stake.
pub proof fn law_connectivity_counts_own_stake(
    round: u64,
    committee: Committee,
    connected_validators: Seq<Address>,
    self_address: Address,
    previous_certificates: Seq<crate::types::BatchCertificateView>,
    previous_committee_lookback: Option<Committee>,
)
    ensures
        (spec_decide_batch_proposal(round, false, Some(committee), connected_validators, self_address,
            previous_certificates, previous_committee_lookback) == ProposeDecision::NotEnoughConnectedValidators)
            <==> spec_stake_in(
                committee.spec_members(),
                Set::new(|a: Address| connected_validators.contains(a) || a == self_address),
            ) < committee.spec_quorum_threshold(),
{
    assert(connected_validators.to_set().insert(self_address)
        =~= Set::new(|a: Address| connected_validators.contains(a) || a == self_address));
}

/// Decides whether the primary may propose a batch for `round`: it has no certificate in
/// the round yet, it is connected to validators that (with itself) reach the quorum
/// threshold, and the certificates of the previous round reached the quorum threshold (the
/// previous round of round 1 is round 0, which holds none by definition).
pub fn decide_batch_proposal(
    round: u64,
    already_certified: bool,
    committee_lookback: Option<&Committee>,
    connected_validators: &Vec<Address>,
    self_address: Address,
    previous_certificates: &Vec<BatchCertificate>,
    previous_committee_lookback: Option<&Committee>,
) -> (r: ProposeDecision)
    requires
        committee_lookback matches Some(c) ==> c.wf(),
        previous_committee_lookback matches Some(c) ==> c.wf(),
    ensures
        r == spec_decide_batch_proposal(
            round,
            already_certified,
            match committee_lookback {
                Some(c) => Some(*c),
                None => None,
            },
            connected_validators@,
            self_address,
            views(previous_certificates@),
            match previous_committee_lookback {
                Some(c) => Some(*c),
                None => None,
            },
        ),
{
    if already_certified {
        return ProposeDecision::AlreadyCertified;
    }
    let committee = match committee_lookback {
        Some(c) => c,
        None => return ProposeDecision::MissingCommittee,
    };
    // Append the primary to the connected validators.
    let mut connected = crate::types::copy_vec(connected_validators);
    let ghost c0 = connected@;
    connected.push(self_address);
    proof {
        c0.lemma_push_to_set_commute(self_address);
    }
    if !committee.is_quorum_threshold_reached(&connected) {
        return ProposeDecision::NotEnoughConnectedValidators;
    }
    // The primary starts at round 1, and round 0 contains no certificates, by definition.
    if round <= 1 {
        return ProposeDecision::Ready;
    }
    let previous_committee = match previous_committee_lookback {
        Some(c) => c,
        None => return ProposeDecision::MissingPreviousCommittee,
    };
    let authors = certificate_authors(previous_certificates);
    if previous_committee.is_quorum_threshold_reached(&authors) {
        ProposeDecision::Ready
    } else {
        ProposeDecision::PreviousRoundWithoutQuorum
    }
}

/// The number of transmissions that each worker contributes to a batch.
pub open spec fn spec_transmissions_per_worker(num_workers: u8) -> int {
    MAX_TRANSMISSIONS_PER_BATCH as int / num_workers as int
}

/// Returns the number of transmissions that each of `num_workers` workers contributes to a
/// batch.
pub fn transmissions_per_worker(num_workers: u8) -> (r: usize)
    requires
        num_workers > 0,
    ensures
        r == spec_transmissions_per_worker(num_workers),
{
    MAX_TRANSMISSIONS_PER_BATCH / (num_workers as usize)
}

/// The transmissions that a batch carries from the drained ones, with the number of
/// transactions among them: those the ledger holds, ratifications, transmissions whose kind
/// does not match their ID, and those that failed the ledger's basic check are passed over.
pub open spec fn spec_select_transmissions(
    drained: Seq<(TransmissionID, TransmissionData)>,
    in_ledger: Seq<bool>,
    passes_check: Seq<bool>,
) -> (Seq<(TransmissionID, TransmissionData)>, int)
    decreases drained.len(),
{
    if drained.len() == 0 {
        (Seq::empty(), 0)
    } else {
        let n = drained.len() - 1;
        let (entries, count) = spec_select_transmissions(drained.drop_last(), in_ledger.subrange(0, n), passes_check.subrange(0, n));
        let (id, t) = drained.last();
        if in_ledger[n] || id is Ratification || !spec_kinds_match(id, t) || !passes_check[n] {
            (entries, count)
        } else {
            (spec_insert_entry(entries, id, t), if id is Transaction { count + 1 } else { count })
        }
    }
}

/// What a batch carries is what was drained and kept: every selected transmission is one of
/// the drained ones that the ledger does not hold, that passed the ledger's basic check, and
/// that is no ratification.
pub proof fn law_selected_transmissions(
    drained: Seq<(TransmissionID, TransmissionData)>,
    in_ledger: Seq<bool>,
    passes_check: Seq<bool>,
)
    requires
        drained.len() == in_ledger.len(),
        drained.len() == passes_check.len(),
    ensures
        ({
            let e = spec_select_transmissions(drained, in_ledger, passes_check).0;
            forall|j: int| 0 <= j < e.len() ==> {
                &&& !((#[trigger] e[j]).0 is Ratification)
                &&& exists|i: int| 0 <= i < drained.len() && drained[i] == e[j] && !in_ledger[i] && passes_check[i]
            }
        }),
    decreases drained.len(),
{
    if drained.len() > 0 {
        let n = drained.len() - 1;
        let d0 = drained.drop_last();
        let l0 = in_ledger.subrange(0, n);
        let p0 = passes_check.subrange(0, n);
        law_selected_transmissions(d0, l0, p0);
        let e0 = spec_select_transmissions(d0, l0, p0).0;
        let e = spec_select_transmissions(drained, in_ledger, passes_check).0;
        let (id, t) = drained.last();
        assert forall|j: int| 0 <= j < e.len() implies {
            &&& !((#[trigger] e[j]).0 is Ratification)
            &&& exists|i: int| 0 <= i < drained.len() && drained[i] == e[j] && !in_ledger[i] && passes_check[i]
        } by {
            if e == e0 {
                let i = choose|i: int| 0 <= i < d0.len() && d0[i] == e0[j] && !l0[i] && p0[i];
                assert(drained[i] == d0[i]);
            } else {
                let k = if crate::collections::has_transmission(e0, id) { crate::assoc::index_of(e0, id) } else { e0.len() as int };
                if j == k {
                    assert(e[j] == (id, t));
                    assert(drained[n] == (id, t));
                } else {
                    assert(e[j] == e0[j]);
                    let i = choose|i: int| 0 <= i < d0.len() && d0[i] == e0[j] && !l0[i] && p0[i];
                    assert(drained[i] == d0[i]);
                }
            }
        }
    }
}

/// The views of drained transmissions.
pub open spec fn drained_view(v: Seq<(TransmissionID, Transmission)>) -> Seq<(TransmissionID, TransmissionData)> {
    v.map_values(|e: (TransmissionID, Transmission)| (e.0, e.1@))
}

/// Selects the transmissions of a batch from those drained from the workers, returning them
/// with the number of transactions among them. `in_ledger[i]` tells whether the ledger holds
/// the `i`-th one, and `passes_check[i]` whether it passed the ledger's basic check.
pub fn select_transmissions(
    drained: Vec<(TransmissionID, Transmission)>,
    in_ledger: &Vec<bool>,
    passes_check: &Vec<bool>,
) -> (r: (IndexMap<TransmissionID, Transmission>, usize))
    requires
        drained@.len() == in_ledger@.len(),
        drained@.len() == passes_check@.len(),
    ensures
        transmissions_in(r.0) == spec_select_transmissions(drained_view(drained@), in_ledger@, passes_check@).0,
        r.1 == spec_select_transmissions(drained_view(drained@), in_ledger@, passes_check@).1,
{
    let ghost dv = drained_view(drained@);
    let ghost s = drained@;
    let _n: usize = drained.len();
    let mut rest = drained;
    let mut transmissions = transmission_map_new();
    let mut num_transactions: usize = 0;
    let mut i: usize = 0;
    while rest.len() > 0
        invariant
            dv == drained_view(s),
            s.len() == in_ledger@.len(),
            s.len() == passes_check@.len(),
            s.len() <= usize::MAX,
            i <= s.len(),
            rest@ == s.subrange(i as int, s.len() as int),
            num_transactions <= i,
            crate::assoc::keys_distinct(transmissions_in(transmissions)),
            (transmissions_in(transmissions), num_transactions as int) == spec_select_transmissions(
                dv.subrange(0, i as int),
                in_ledger@.subrange(0, i as int),
                passes_check@.subrange(0, i as int),
            ),
        decreases rest.len(),
    {
        let (id, transmission) = rest.remove(0);
        proof {
            assert(s[i as int] == (id, transmission));
            let pre = dv.subrange(0, i as int + 1);
            assert(pre.drop_last() =~= dv.subrange(0, i as int));
            assert(pre.last() == (id, transmission@));
            assert(in_ledger@.subrange(0, i as int + 1).subrange(0, i as int) =~= in_ledger@.subrange(0, i as int));
            assert(passes_check@.subrange(0, i as int + 1).subrange(0, i as int) =~= passes_check@.subrange(0, i as int));
        }
        let kinds_match = match (&id, &transmission) {
            (TransmissionID::Solution(..), Transmission::Solution(_)) => true,
            (TransmissionID::Transaction(..), Transmission::Transaction(_)) => true,
            _ => false,
        };
        if !in_ledger[i] && kinds_match && passes_check[i] {
            let is_transaction = id.is_transaction();
            let ghost before = transmissions_in(transmissions);
            let _ = transmission_map_insert(&mut transmissions, id, transmission);
            proof {
                if crate::collections::has_transmission(before, id) {
                    let j = choose|j: int| 0 <= j < before.len() && before[j].0 == id && transmissions_in(transmissions) == before.update(j, (id, transmission@));
                    let k = crate::assoc::index_of(before, id);
                    assert(before[k].0 == id);
                    lemma_unique_index(before, j, k);
                    let after = transmissions_in(transmissions);
                    assert forall|a: int, b: int| 0 <= a < after.len() && 0 <= b < after.len() && a != b implies after[a].0 != after[b].0 by {
                        if a != j && b != j {
                            assert(after[a] == before[a] && after[b] == before[b]);
                        } else if a == j {
                            assert(after[b] == before[b]);
                        } else {
                            assert(after[a] == before[a]);
                        }
                    }
                } else {
                    let after = transmissions_in(transmissions);
                    assert forall|a: int, b: int| 0 <= a < after.len() && 0 <= b < after.len() && a != b implies after[a].0 != after[b].0 by {
                        if a == before.len() {
                            assert(after[b] == before[b]);
                        } else if b == before.len() {
                            assert(after[a] == before[a]);
                        } else {
                            assert(after[a] == before[a] && after[b] == before[b]);
                        }
                    }
                }
            }
            if is_transaction {
                num_transactions = num_transactions + 1;
            }
        }
        i = i + 1;
    }
    proof {
        assert(dv.subrange(0, s.len() as int) =~= dv);
        assert(in_ledger@.subrange(0, s.len() as int) =~= in_ledger@);
        assert(passes_check@.subrange(0, s.len() as int) =~= passes_check@);
    }
    (transmissions, num_transactions)
}

/// In a map's entries, a key sits at one position.
proof fn lemma_unique_index(s: Seq<(TransmissionID, TransmissionData)>, j: int, k: int)
    requires
        crate::assoc::keys_distinct(s),
        0 <= j < s.len(),
        0 <= k < s.len(),
        s[j].0 == s[k].0,
    ensures
        j == k,
{
}

/// The outcome of the checks on the selected transmissions of a batch.
#[derive(Clone, Copy, Debug, PartialEq, Eq, Structural)]
pub enum BatchContentDecision {
    /// There are no unconfirmed transmissions to propose.
    NoTransmissions,
    /// There are no unconfirmed transactions to propose.
    NoTransactions,
    /// Round 0 cannot have transaction batches.
    RoundZero,
    /// A batch was already proposed for the round.
    AlreadyProposed,
    /// The batch is signed and proposed.
    Propose,
}

/// The decision on the selected transmissions of a batch (see `decide_batch_content`).
pub open spec fn spec_decide_batch_content(round: u64, num_transmissions: int, num_transactions: int, last_proposed_round: u64) -> BatchContentDecision {
    if num_transmissions == 0 {
        BatchContentDecision::NoTransmissions
    } else if num_transactions == 0 {
        BatchContentDecision::NoTransactions
    } else if round == 0 {
        BatchContentDecision::RoundZero
    } else if last_proposed_round == round {
        BatchContentDecision::AlreadyProposed
    } else {
        BatchContentDecision::Propose
    }
}

/// Decides whether the selected transmissions are proposed in `round`, given the round of
/// the last proposal.
pub fn decide_batch_content(
    round: u64,
    num_transmissions: usize,
    num_transactions: usize,
    last_proposed_round: u64,
) -> (r: BatchContentDecision)
    ensures
        r == spec_decide_batch_content(round, num_transmissions as int, num_transactions as int, last_proposed_round),
{
    if num_transmissions == 0 {
        BatchContentDecision::NoTransmissions
    } else if num_transactions == 0 {
        BatchContentDecision::NoTransactions
    } else if round == 0 {
        BatchContentDecision::RoundZero
    } else if last_proposed_round == round {
        BatchContentDecision::AlreadyProposed
    } else {
        BatchContentDecision::Propose
    }
}

/// The outcome of the checks on a batch proposal from a peer, before it is synced.
#[derive(Clone, Copy, Debug, PartialEq, Eq, Structural)]
pub enum BatchProposeCheck {
    /// The proposed round (first) differs from the round of the batch header (second); the
    /// peer is disconnected.
    RoundMismatch(u64, u64),
    /// The peer is not a connected validator.
    DisconnectedValidator,
    /// The batch is from another validator (its author) than the peer; the peer is
    /// disconnected.
    DifferentAuthor(Address),
    /// The batch author is not a committee member; the peer is disconnected.
    NotCommitteeMember(Address),
    /// The batch is from this node (its author).
    FromSelf(Address),
    /// The author already had a proposal signed for a later round than the batch's round;
    /// the peer is disconnected.
    PreviousRound(u64),
    /// The author already had another batch signed for this round; the peer is
    /// disconnected.
    Equivocation(u64),
    /// The batch was already signed: the cached signature is sent again.
    ResendSignature(Signature),
    /// The batch proceeds to be synced, checked and signed.
    Proceed,
}

/// `true` if the check asks for the peer to be disconnected.
pub open spec fn spec_disconnects(c: BatchProposeCheck) -> bool {
    c is RoundMismatch || c is DifferentAuthor || c is NotCommitteeMember || c is PreviousRound || c is Equivocation
}

impl BatchProposeCheck {
    /// `true` if the check asks for the peer to be disconnected.
    pub fn disconnects(&self) -> (r: bool)
        ensures
            r == spec_disconnects(*self),
    {
        match self {
            BatchProposeCheck::RoundMismatch(..) => true,
            BatchProposeCheck::DifferentAuthor(..) => true,
            BatchProposeCheck::NotCommitteeMember(..) => true,
            BatchProposeCheck::PreviousRound(..) => true,
            BatchProposeCheck::Equivocation(..) => true,
            _ => false,
        }
    }
}

/// The outcome of the checks on a batch proposal from a peer.
pub open spec fn spec_check_batch_propose(
    batch_round: u64,
    header_round: u64,
    header_author: Address,
    header_batch_id: Field,
    peer_address: Option<Address>,
    author_is_authorized: bool,
    self_address: Address,
    signed: Option<(u64, Field, Signature)>,
) -> BatchProposeCheck {
    if batch_round != header_round {
        BatchProposeCheck::RoundMismatch(batch_round, header_round)
    } else {
        match peer_address {
            None => BatchProposeCheck::DisconnectedValidator,
            Some(a) => {
                if a != header_author {
                    BatchProposeCheck::DifferentAuthor(header_author)
                } else if !author_is_authorized {
                    BatchProposeCheck::NotCommitteeMember(header_author)
                } else if self_address == header_author {
                    BatchProposeCheck::FromSelf(header_author)
                } else {
                    match signed {
                        None => BatchProposeCheck::Proceed,
                        Some((signed_round, signed_batch_id, signature)) => {
                            if signed_round > header_round {
                                BatchProposeCheck::PreviousRound(header_round)
                            } else if signed_round == header_round && signed_batch_id != header_batch_id {
                                BatchProposeCheck::Equivocation(signed_round)
                            } else if signed_round == header_round {
                                BatchProposeCheck::ResendSignature(signature)
                            } else {
                                BatchProposeCheck::Proceed
                            }
                        },
                    }
                }
            },
        }
    }
}

/// Checks a batch proposal from a peer for `batch_round`: the round matches the header, the
/// peer is the connected validator that authored it, the author is an authorized committee
/// member and not this node, and its batch does not contradict the proposal of it this
/// node last signed (`signed`). `peer_address` is the address the resolver has for the
/// peer, and `author_is_authorized` whether the gateway authorizes the author.
pub fn check_batch_propose(
    batch_round: u64,
    batch_header: &BatchHeader,
    peer_address: Option<Address>,
    author_is_authorized: bool,
    self_address: Address,
    signed: Option<(u64, Field, Signature)>,
) -> (r: BatchProposeCheck)
    ensures
        r == spec_check_batch_propose(
            batch_round,
            batch_header.round,
            batch_header.author,
            batch_header.batch_id,
            peer_address,
            author_is_authorized,
            self_address,
            signed,
        ),
{
    if batch_round != batch_header.round {
        return BatchProposeCheck::RoundMismatch(batch_round, batch_header.round);
    }
    let author = batch_header.author;
    let address = match peer_address {
        Some(a) => a,
        None => return BatchProposeCheck::DisconnectedValidator,
    };
    if address != author {
        return BatchProposeCheck::DifferentAuthor(author);
    }
    if !author_is_authorized {
        return BatchProposeCheck::NotCommitteeMember(author);
    }
    if self_address == author {
        return BatchProposeCheck::FromSelf(author);
    }
    match signed {
        None => BatchProposeCheck::Proceed,
        Some((signed_round, signed_batch_id, signature)) => {
            if signed_round > batch_header.round {
                BatchProposeCheck::PreviousRound(batch_header.round)
            } else if signed_round == batch_header.round && signed_batch_id != batch_header.batch_id {
                BatchProposeCheck::Equivocation(signed_round)
            } else if signed_round == batch_header.round {
                BatchProposeCheck::ResendSignature(signature)
            } else {
                BatchProposeCheck::Proceed
            }
        },
    }
}

/// Why the primary does not sign for a batch round.
#[derive(Clone, Copy, Debug, PartialEq, Eq, Structural)]
pub enum SigningRoundError {
    /// The batch round is too far in the future.
    TooFarInFuture(u64),
    /// The primary has moved past the batch round (current round, batch round).
    NoLongerSigning(u64, u64),
    /// The primary's own proposal is for a later round (its round, the batch round).
    ProposalAhead(u64, u64),
}

/// Ensures the primary is signing for the batch round: within the GC range of the current
/// round, at or one before the current round, and not below the round of its own proposal.
pub fn ensure_is_signing_round(
    current_round: u64,
    max_gc_rounds: u64,
    proposal_round: Option<u64>,
    batch_round: u64,
) -> (r: Result<(), SigningRoundError>)
    ensures
        r == (if current_round + max_gc_rounds <= batch_round {
            Err::<(), SigningRoundError>(SigningRoundError::TooFarInFuture(batch_round))
        } else if current_round > batch_round + 1 {
            Err(SigningRoundError::NoLongerSigning(current_round, batch_round))
        } else if proposal_round matches Some(p) && p > batch_round {
            Err(SigningRoundError::ProposalAhead(proposal_round.unwrap(), batch_round))
        } else {
            Ok(())
        }),
{
    if (current_round as u128) + (max_gc_rounds as u128) <= batch_round as u128 {
        return Err(SigningRoundError::TooFarInFuture(batch_round));
    }
    if current_round as u128 > (batch_round as u128) + 1 {
        return Err(SigningRoundError::NoLongerSigning(current_round, batch_round));
    }
    if let Some(signing_round) = proposal_round {
        if signing_round > batch_round {
            return Err(SigningRoundError::ProposalAhead(signing_round, batch_round));
        }
    }
    Ok(())
}

/// Records that this node signed the batch of `author` for `batch_round`, returning `true` if
/// the signature is to be sent: `false` if a proposal of the author for that round was
/// already recorded (only one signing of a round happens).
pub fn record_signed_proposal(
    signed_proposals: &mut crate::helpers::signed_proposals::SignedProposals,
    author: Address,
    batch_round: u64,
    batch_id: Field,
    signature: Signature,
) -> (r: bool)
    requires
        old(signed_proposals).wf(),
    ensures
        final(signed_proposals).wf(),
        r == !(old(signed_proposals)@.contains_key(author) && old(signed_proposals)@[author].0 == batch_round),
        r ==> final(signed_proposals)@ == old(signed_proposals)@.insert(author, (batch_round, batch_id, signature)),
        !r ==> final(signed_proposals)@ == old(signed_proposals)@,
{
    match signed_proposals.get(author) {
        Some((round, _, _)) => {
            if round == batch_round {
                return false;
            }
        },
        None => {},
    }
    signed_proposals.insert(author, batch_round, batch_id, signature);
    true
}

/// The outcome of the checks on a batch signature from a peer.
#[derive(Clone, Copy, Debug, PartialEq, Eq, Structural)]
pub enum BatchSignatureCheck {
    /// The signature (of the signer given) is not from the validator connected at the
    /// peer; the peer is disconnected.
    DifferentSigner(Address),
    /// The signature is from this node (the signer given).
    FromSelf(Address),
    /// There is no proposed batch.
    NoProposal,
    /// The batch was already certified.
    AlreadyCertified,
    /// The batch ID (first) is not that of the proposed batch (second, with its round).
    UnknownBatch(Field, Field, u64),
    /// The signature is for the proposed batch.
    Proceed,
}

/// The outcome of the checks on a batch signature (see `check_batch_signature`).
pub open spec fn spec_check_batch_signature(
    signer: Address,
    peer_address: Option<Address>,
    self_address: Address,
    proposed_batch: Option<(Field, u64)>,
    batch_id: Field,
    contains_batch: bool,
) -> BatchSignatureCheck {
    if peer_address != Some(signer) {
        BatchSignatureCheck::DifferentSigner(signer)
    } else if self_address == signer {
        BatchSignatureCheck::FromSelf(signer)
    } else {
        match proposed_batch {
            None => BatchSignatureCheck::NoProposal,
            Some((id, round)) => if id != batch_id {
                if contains_batch {
                    BatchSignatureCheck::AlreadyCertified
                } else {
                    BatchSignatureCheck::UnknownBatch(batch_id, id, round)
                }
            } else {
                BatchSignatureCheck::Proceed
            },
        }
    }
}

/// Checks a batch signature from a peer: its signer is the validator connected at the peer
/// and not this node, and it is for the proposed batch. `contains_batch` tells whether
/// storage holds a certificate for the batch ID.
pub fn check_batch_signature(
    signer: Address,
    peer_address: Option<Address>,
    self_address: Address,
    proposed_batch: Option<(Field, u64)>,
    batch_id: Field,
    contains_batch: bool,
) -> (r: BatchSignatureCheck)
    ensures
        r == spec_check_batch_signature(signer, peer_address, self_address, proposed_batch, batch_id, contains_batch),
{
    match peer_address {
        Some(a) => {
            if a != signer {
                return BatchSignatureCheck::DifferentSigner(signer);
            }
        },
        None => return BatchSignatureCheck::DifferentSigner(signer),
    }
    if self_address == signer {
        return BatchSignatureCheck::FromSelf(signer);
    }
    match proposed_batch {
        None => BatchSignatureCheck::NoProposal,
        Some((id, round)) => {
            if id != batch_id {
                if contains_batch {
                    BatchSignatureCheck::AlreadyCertified
                } else {
                    BatchSignatureCheck::UnknownBatch(batch_id, id, round)
                }
            } else {
                BatchSignatureCheck::Proceed
            }
        },
    }
}

/// `true` if the proposed batch has expired: its round is behind the current round.
pub fn is_proposal_expired(proposal_round: Option<u64>, current_round: u64) -> (r: bool)
    ensures
        r == (proposal_round matches Some(p) && p < current_round),
{
    match proposal_round {
        Some(p) => p < current_round,
        None => false,
    }
}

/// The round that storage fast-forwards to before advancing to `next_round`: the round
/// before it, if it is within the GC range of the current round and ahead of it.
pub fn fast_forward_round(current_round: u64, next_round: u64, max_gc_rounds: u64) -> (r: Option<u64>)
    ensures
        r == (if current_round + max_gc_rounds >= next_round && next_round >= 1 && current_round < next_round - 1 {
            Some((next_round - 1) as u64)
        } else {
            None::<u64>
        }),
{
    if (current_round as u128) + (max_gc_rounds as u128) >= next_round as u128 && next_round >= 1
        && current_round < next_round - 1 {
        Some(next_round - 1)
    } else {
        None
    }
}

/// Decides whether the primary advances after a certificate of `certificate_round` is
/// stored: the certificates of that round reach the quorum threshold, its own proposal (if
/// any) is for an earlier round, and the round is not behind the current round.
pub fn should_advance_after_certificate(
    certificate_round: u64,
    current_round: u64,
    proposal_round: Option<u64>,
    round_certificates: &Vec<BatchCertificate>,
    committee_lookback: &Committee,
) -> (r: bool)
    requires
        committee_lookback.wf(),
    ensures
        r == (committee_lookback.spec_is_quorum(authors_of(views(round_certificates@)))
            && (match proposal_round {
                Some(p) => p < certificate_round,
                None => true,
            }) && certificate_round >= current_round),
{
    let authors = certificate_authors(round_certificates);
    let is_quorum = committee_lookback.is_quorum_threshold_reached(&authors);
    let should_advance = match proposal_round {
        Some(p) => p < certificate_round,
        None => true,
    };
    is_quorum && should_advance && certificate_round >= current_round
}

/// What the primary does with a batch header from a peer, as it syncs with it.
#[derive(Clone, Copy, Debug, PartialEq, Eq, Structural)]
pub enum HeaderSyncDecision {
    /// The round is at or below the GC round.
    TooOld,
    /// The primary first advances to the batch round, then fetches what it misses.
    AdvanceThenFetch,
    /// The primary fetches what it misses.
    Fetch,
}

/// Decides how the primary syncs with a batch header of `batch_round` from a peer: a round
/// at or below the GC round is refused; the primary advances to the batch round if the
/// round reached the quorum threshold and is ahead of it, or is beyond its GC range.
pub fn decide_header_sync(
    batch_round: u64,
    gc_round: u64,
    current_round: u64,
    max_gc_rounds: u64,
    round_certificates: &Vec<BatchCertificate>,
    committee_lookback: &Committee,
) -> (r: HeaderSyncDecision)
    requires
        committee_lookback.wf(),
    ensures
        r == (if batch_round <= gc_round {
            HeaderSyncDecision::TooOld
        } else if (committee_lookback.spec_is_quorum(authors_of(views(round_certificates@))) && batch_round > current_round)
            || batch_round > current_round + max_gc_rounds {
            HeaderSyncDecision::AdvanceThenFetch
        } else {
            HeaderSyncDecision::Fetch
        }),
{
    if batch_round <= gc_round {
        return HeaderSyncDecision::TooOld;
    }
    let authors = certificate_authors(round_certificates);
    let is_quorum = committee_lookback.is_quorum_threshold_reached(&authors);
    let is_behind_schedule = is_quorum && batch_round > current_round;
    let is_peer_far_in_future = (batch_round as u128) > (current_round as u128) + (max_gc_rounds as u128);
    if is_behind_schedule || is_peer_far_in_future {
        HeaderSyncDecision::AdvanceThenFetch
    } else {
        HeaderSyncDecision::Fetch
    }
}

/// The certificates that a primary ping carries: those of the current round, or, if there
/// are none, those of the previous round.
pub fn ping_batch_certificates(current: Vec<BatchCertificate>, previous: Vec<BatchCertificate>) -> (r: Vec<BatchCertificate>)
    ensures
        r@ == (if current@.len() == 0 { previous@ } else { current@ }),
{
    if current.len() == 0 {
        previous
    } else {
        current
    }
}

/// The certificate of `author` among the certificates of a round, if any (the first one).
pub fn certificate_of_author(certificates: &Vec<BatchCertificate>, author: Address) -> (r: Option<BatchCertificate>)
    ensures
        match r {
            Some(c) => crate::bft::first_by_author(views(certificates@), author) == Some(c@),
            None => crate::bft::first_by_author(views(certificates@), author) is None,
        },
{
    let ghost vs = views(certificates@);
    match crate::bft::find_by_author(certificates, author) {
        Some(i) => {
            proof {
                assert(vs[i as int].header.author == author);
                let k = choose|k: int|
                    0 <= k < vs.len() && vs[k].header.author == author && forall|j: int|
                        0 <= j < k ==> vs[j].header.author != author;
                assert(k == i as int) by {
                    if k < i {
                        assert(vs[k].header.author != author);
                    }
                    if k > i {
                        assert(vs[i as int].header.author != author);
                    }
                }
            }
            Some(certificates[i].duplicate())
        },
        None => {
            proof {
                assert(!(exists|j: int| 0 <= j < vs.len() && vs[j].header.author == author));
            }
            None
        },
    }
}

/// `true` if the certificate is by `author` in a round from 1 to `current_round`.
pub open spec fn own_in_range(c: crate::types::BatchCertificateView, author: Address, current_round: u64) -> bool {
    c.header.author == author && 1 <= c.header.round <= current_round
}

/// The primary's latest certificate for its ping: among the stored certificates by
/// `author` from round `current_round` down to round 1, one of the latest round (the
/// first stored of that round); `None` where there is none.
pub fn latest_certificate_of(certificates: &Vec<BatchCertificate>, author: Address, current_round: u64) -> (r: Option<
    BatchCertificate,
>)
    ensures
        r is None <==> !exists|i: int| 0 <= i < certificates@.len() && own_in_range(#[trigger] certificates@[i]@, author, current_round),
        r matches Some(c) ==> exists|i: int| {
            &&& 0 <= i < certificates@.len()
            &&& #[trigger] certificates@[i]@ == c@
            &&& own_in_range(c@, author, current_round)
            &&& forall|j: int| 0 <= j < certificates@.len() && own_in_range(#[trigger] certificates@[j]@, author, current_round)
                ==> certificates@[j]@.header.round <= c@.header.round
            &&& forall|j: int| 0 <= j < i && own_in_range(#[trigger] certificates@[j]@, author, current_round)
                ==> certificates@[j]@.header.round < c@.header.round
        },
{
    let mut best: Option<usize> = None;
    let mut i: usize = 0;
    while i < certificates.len()
        invariant
            i <= certificates@.len(),
            best is None <==> !exists|k: int| 0 <= k < i && own_in_range(#[trigger] certificates@[k]@, author, current_round),
            best matches Some(b) ==> {
                &&& b < i
                &&& own_in_range(certificates@[b as int]@, author, current_round)
                &&& forall|j: int| 0 <= j < i && own_in_range(#[trigger] certificates@[j]@, author, current_round)
                    ==> certificates@[j]@.header.round <= certificates@[b as int]@.header.round
                &&& forall|j: int| 0 <= j < b && own_in_range(#[trigger] certificates@[j]@, author, current_round)
                    ==> certificates@[j]@.header.round < certificates@[b as int]@.header.round
            },
        decreases certificates@.len() - i,
    {
        let c = &certificates[i];
        let own = c.author() == author && 1 <= c.round() && c.round() <= current_round;
        if own {
            let better = match best {
                None => true,
                Some(b) => certificates[b].round() < c.round(),
            };
            if better {
                best = Some(i);
            }
        }
        i = i + 1;
    }
    match best {
        Some(b) => Some(certificates[b].duplicate()),
        None => None,
    }
}

/// What a batch signature from a peer does to the proposed batch.
pub enum SignatureStep {
    /// The checks refused it (see `check_batch_signature`); nothing changes.
    Rejected(BatchSignatureCheck),
    /// The proposal refused the signature (see `Proposal::add_signature`); nothing changes.
    Invalid(ProposalError),
    /// The signature was added; the batch has not reached the quorum threshold yet.
    Collected,
    /// The signature was added and the batch reached the quorum threshold: the proposal,
    /// taken out of the proposed batch, is to be certified.
    Certify(Proposal),
}

/// The proposed batch ID and round, if there is a proposed batch.
pub open spec fn proposed_id(proposed: Option<Proposal>) -> Option<(Field, u64)> {
    match proposed {
        Some(p) => Some((p.header().batch_id, p.header().round)),
        None => None,
    }
}

/// Handles a batch signature from a peer for the proposed batch: the checks of
/// `check_batch_signature`, then the signature is added to the proposal, and where the
/// signers then reach the quorum threshold of the committee lookback, the proposal is
/// taken out of the proposed batch and returned, for the caller to certify, store and
/// broadcast.
pub fn process_batch_signature(
    proposed: &mut Option<Proposal>,
    signer: Address,
    peer_address: Option<Address>,
    self_address: Address,
    batch_id: Field,
    contains_batch: bool,
    signature: Signature,
    committee_lookback: &Committee,
) -> (r: SignatureStep)
    requires
        committee_lookback.wf(),
    ensures
        ({
            let check = spec_check_batch_signature(signer, peer_address, self_address, proposed_id(*old(proposed)), batch_id, contains_batch);
            &&& check != BatchSignatureCheck::Proceed ==> r == SignatureStep::Rejected(check) && *final(proposed) == *old(proposed)
            &&& check == BatchSignatureCheck::Proceed ==> {
                let p = old(proposed)->Some_0;
                let err = if !crate::committee::spec_is_member(committee_lookback.spec_members(), signer) {
                    Some(ProposalError::NonCommitteeSigner)
                } else if p.spec_signers().contains(signer) {
                    Some(ProposalError::DuplicateSigner)
                } else if !(signature.signer == signer && signature.message == p.header().batch_id) {
                    Some(ProposalError::InvalidSignature)
                } else {
                    None
                };
                &&& err matches Some(e) ==> (r == SignatureStep::Invalid(e) && (*final(proposed) matches Some(q)
                    && q.header() == p.header() && q.entries() == p.entries() && q.sigs() == p.sigs()))
                &&& err is None ==> {
                    let signed = |q: Proposal| q.header() == p.header() && q.entries() == p.entries() && q.sigs() == p.sigs().push(signature);
                    if committee_lookback.spec_is_quorum(p.spec_signers().insert(signature.signer)) {
                        (r matches SignatureStep::Certify(q) && signed(q)) && *final(proposed) is None
                    } else {
                        r is Collected && (*final(proposed) matches Some(q) && signed(q))
                    }
                }
            }
        }),
{
    let proposed_batch = match proposed {
        Some(p) => Some((p.batch_id(), p.round())),
        None => None,
    };
    let check = check_batch_signature(signer, peer_address, self_address, proposed_batch, batch_id, contains_batch);
    if check != BatchSignatureCheck::Proceed {
        return SignatureStep::Rejected(check);
    }
    let mut p = proposed.take().unwrap();
    let ghost p0 = p;
    match p.add_signature(signer, signature, committee_lookback) {
        Err(e) => {
            *proposed = Some(p);
            return SignatureStep::Invalid(e);
        },
        Ok(()) => {},
    }
    proof {
        assert(p.spec_signers() =~= p0.spec_signers().insert(signature.signer)) by {
            assert forall|a: Address| crate::helpers::proposal::spec_signers_of(p.sigs()).contains(a)
                <==> crate::helpers::proposal::spec_signers_of(p0.sigs()).insert(signature.signer).contains(a) by {
                if crate::helpers::proposal::spec_signers_of(p.sigs()).contains(a) {
                    let i = choose|i: int| 0 <= i < p.sigs().len() && p.sigs()[i].signer == a;
                    if i < p0.sigs().len() {
                        assert(p0.sigs()[i] == p.sigs()[i]);
                    }
                }
                if crate::helpers::proposal::spec_signers_of(p0.sigs()).contains(a) {
                    let i = choose|i: int| 0 <= i < p0.sigs().len() && p0.sigs()[i].signer == a;
                    assert(p.sigs()[i] == p0.sigs()[i]);
                }
                if a == signature.signer {
                    assert(p.sigs()[p.sigs().len() - 1] == signature);
                }
            }
        }
    }
    if p.is_quorum_threshold_reached(committee_lookback) {
        SignatureStep::Certify(p)
    } else {
        *proposed = Some(p);
        SignatureStep::Collected
    }
}

/// The text of the outcome, where it is an error.
pub open spec fn spec_batch_propose_message(e: BatchProposeCheck) -> Option<Seq<char>> {
    match e {
        BatchProposeCheck::RoundMismatch(b, h) => Some("Malicious peer - proposed round "@ + decimal(b as nat) + ", but sent batch for round "@ + decimal(h as nat)),
        BatchProposeCheck::DisconnectedValidator => Some("Batch proposal from a disconnected validator"@),
        BatchProposeCheck::DifferentAuthor(a) => Some("Malicious peer - proposed batch from a different validator ("@ + decimal(a as nat) + ")"@),
        BatchProposeCheck::NotCommitteeMember(a) => Some("Malicious peer - proposed batch from a non-committee member ("@ + decimal(a as nat) + ")"@),
        BatchProposeCheck::FromSelf(a) => Some("Invalid peer - proposed batch from myself ("@ + decimal(a as nat) + ")"@),
        BatchProposeCheck::PreviousRound(h) => Some("Malicious peer - proposed a batch for a previous round ("@ + decimal(h as nat) + ")"@),
        BatchProposeCheck::Equivocation(r) => Some("Malicious peer - proposed another batch for the same round ("@ + decimal(r as nat) + ")"@),
        BatchProposeCheck::ResendSignature(_) => None,
        BatchProposeCheck::Proceed => None,
    }
}

impl BatchProposeCheck {
    /// The outcome's error message, where it is an error.
    pub fn message(&self) -> (r: Option<String>)
        ensures
            r is None <==> spec_batch_propose_message(*self) is None,
            r matches Some(t) ==> spec_batch_propose_message(*self) == Some(t@),
    {
        let mut s = String::new();
        let ghost s0 = s@;
        match self {
            BatchProposeCheck::RoundMismatch(b, h) => {
                s.append("Malicious peer - proposed round ");
                push_decimal(&mut s, *b as u128);
                s.append(", but sent batch for round ");
                push_decimal(&mut s, *h as u128);
            },
            BatchProposeCheck::DisconnectedValidator => {
                s.append("Batch proposal from a disconnected validator");
            },
            BatchProposeCheck::DifferentAuthor(a) => {
                s.append("Malicious peer - proposed batch from a different validator (");
                push_decimal(&mut s, *a as u128);
                s.append(")");
            },
            BatchProposeCheck::NotCommitteeMember(a) => {
                s.append("Malicious peer - proposed batch from a non-committee member (");
                push_decimal(&mut s, *a as u128);
                s.append(")");
            },
            BatchProposeCheck::FromSelf(a) => {
                s.append("Invalid peer - proposed batch from myself (");
                push_decimal(&mut s, *a as u128);
                s.append(")");
            },
            BatchProposeCheck::PreviousRound(h) => {
                s.append("Malicious peer - proposed a batch for a previous round (");
                push_decimal(&mut s, *h as u128);
                s.append(")");
            },
            BatchProposeCheck::Equivocation(r) => {
                s.append("Malicious peer - proposed another batch for the same round (");
                push_decimal(&mut s, *r as u128);
                s.append(")");
            },
            BatchProposeCheck::ResendSignature(_) => {
                return None;
            },
            BatchProposeCheck::Proceed => {
                return None;
            },
        }
        Some(s)
    }
}

/// The text of the outcome, where it is an error.
pub open spec fn spec_signing_round_message(e: SigningRoundError) -> Seq<char> {
    match e {
        SigningRoundError::TooFarInFuture(b) => "Round "@ + decimal(b as nat) + " is too far in the future"@,
        SigningRoundError::NoLongerSigning(c, b) => "Primary is on round "@ + decimal(c as nat) + ", and no longer signing for round "@ + decimal(b as nat),
        SigningRoundError::ProposalAhead(p, b) => "Our primary at round "@ + decimal(p as nat) + " is no longer signing for round "@ + decimal(b as nat),
    }
}

impl SigningRoundError {
    /// The outcome's error message.
    pub fn message(&self) -> (r: String)
        ensures
            r@ == spec_signing_round_message(*self),
    {
        let mut s = String::new();
        let ghost s0 = s@;
        match self {
            SigningRoundError::TooFarInFuture(b) => {
                s.append("Round ");
                push_decimal(&mut s, *b as u128);
                s.append(" is too far in the future");
            },
            SigningRoundError::NoLongerSigning(c, b) => {
                s.append("Primary is on round ");
                push_decimal(&mut s, *c as u128);
                s.append(", and no longer signing for round ");
                push_decimal(&mut s, *b as u128);
            },
            SigningRoundError::ProposalAhead(p, b) => {
                s.append("Our primary at round ");
                push_decimal(&mut s, *p as u128);
                s.append(" is no longer signing for round ");
                push_decimal(&mut s, *b as u128);
            },
        }
        s
    }
}

/// The text of the outcome, where it is an error.
pub open spec fn spec_batch_signature_message(e: BatchSignatureCheck) -> Option<Seq<char>> {
    match e {
        BatchSignatureCheck::DifferentSigner(a) => Some("Malicious peer - batch signature is from a different validator ("@ + decimal(a as nat) + ")"@),
        BatchSignatureCheck::FromSelf(a) => Some("Invalid peer - received a batch signature from myself ("@ + decimal(a as nat) + ")"@),
        BatchSignatureCheck::NoProposal => None,
        BatchSignatureCheck::AlreadyCertified => Some("This batch was already certified"@),
        BatchSignatureCheck::UnknownBatch(b, e, r) => Some("Unknown batch ID '"@ + decimal(b as nat) + "', expected '"@ + decimal(e as nat) + "' for round "@ + decimal(r as nat)),
        BatchSignatureCheck::Proceed => None,
    }
}

impl BatchSignatureCheck {
    /// The outcome's error message, where it is an error.
    pub fn message(&self) -> (r: Option<String>)
        ensures
            r is None <==> spec_batch_signature_message(*self) is None,
            r matches Some(t) ==> spec_batch_signature_message(*self) == Some(t@),
    {
        let mut s = String::new();
        let ghost s0 = s@;
        match self {
            BatchSignatureCheck::DifferentSigner(a) => {
                s.append("Malicious peer - batch signature is from a different validator (");
                push_decimal(&mut s, *a as u128);
                s.append(")");
            },
            BatchSignatureCheck::FromSelf(a) => {
                s.append("Invalid peer - received a batch signature from myself (");
                push_decimal(&mut s, *a as u128);
                s.append(")");
            },
            BatchSignatureCheck::NoProposal => {
                return None;
            },
            BatchSignatureCheck::AlreadyCertified => {
                s.append("This batch was already certified");
            },
            BatchSignatureCheck::UnknownBatch(b, e, r) => {
                s.append("Unknown batch ID '");
                push_decimal(&mut s, *b as u128);
                s.append("', expected '");
                push_decimal(&mut s, *e as u128);
                s.append("' for round ");
                push_decimal(&mut s, *r as u128);
            },
            BatchSignatureCheck::Proceed => {
                return None;
            },
        }
        Some(s)
    }
}

/// What the primary does with its proposed batch before it proposes a new one.
pub enum ProposedBatchStep {
    /// There is no proposed batch: a new one may be proposed.
    Empty,
    /// The proposed batch expired (its round is behind the current round): it was taken out,
    /// for its transmissions to go back to the workers.
    Expired(Proposal),
    /// The proposed batch is still valid: its header is sent again to these committee
    /// members, which have not signed it, and no new batch is proposed.
    Resend(Vec<Address>),
}

/// The first steps of proposing a batch: a proposed batch whose round is behind the current
/// round expires and is taken out; one that is still valid is sent again to the committee
/// members that have not signed it.
pub fn step_proposed_batch(proposed: &mut Option<Proposal>, current_round: u64, committee_lookback: &Committee) -> (r: ProposedBatchStep)
    ensures
        match *old(proposed) {
            None => r is Empty && *final(proposed) is None,
            Some(p) => if p.header().round < current_round {
                (r matches ProposedBatchStep::Expired(q) && q.header() == p.header() && q.entries() == p.entries()
                    && q.sigs() == p.sigs()) && *final(proposed) is None
            } else {
                (r matches ProposedBatchStep::Resend(v) && v@.to_set() == Set::new(
                    |a: Address| crate::committee::spec_is_member(committee_lookback.spec_members(), a) && !p.spec_signers().contains(a),
                )) && *final(proposed) == *old(proposed)
            },
        },
{
    let expired = match proposed {
        Some(p) => is_proposal_expired(Some(p.round()), current_round),
        None => return ProposedBatchStep::Empty,
    };
    if expired {
        return ProposedBatchStep::Expired(proposed.take().unwrap());
    }
    match proposed {
        Some(p) => ProposedBatchStep::Resend(p.nonsigners(committee_lookback)),
        None => ProposedBatchStep::Empty,
    }
}

/// Records a new batch proposal for `round` and marks the round as proposed: the batch holds
/// the selected transmissions and the header that this node signed for the round over
/// their IDs. This follows the decision to propose (`decide_batch_content` gave `Propose`:
/// the batch has transmissions and a transaction, the round is not 0, and it was not
/// proposed before). The proposal fails as `Proposal::new` does, leaving no proposed
/// batch; the round stays marked either way.
pub fn record_proposal(
    proposed: &mut Option<Proposal>,
    last_proposed_round: &mut u64,
    round: u64,
    num_transactions: usize,
    self_address: Address,
    committee: &Committee,
    batch_header: BatchHeader,
    transmissions: IndexMap<TransmissionID, Transmission>,
) -> (r: Result<(), ProposalError>)
    requires
        *old(proposed) is None,
        batch_header@.is_signed_by_author(),
        batch_header@.round == round,
        batch_header@.author == self_address,
        spec_decide_batch_content(round, transmissions_in(transmissions).len() as int, num_transactions as int, *old(last_proposed_round))
            == BatchContentDecision::Propose,
    ensures
        *final(last_proposed_round) == round,
        r matches Err(e) ==> *final(proposed) is None
            && crate::helpers::proposal::spec_new_error(*committee, batch_header@, transmissions_in(transmissions)) == Some(e),
        r is Ok ==> crate::helpers::proposal::spec_new_error(*committee, batch_header@, transmissions_in(transmissions)) is None
            && (*final(proposed) matches Some(q) && q.header() == batch_header@ && q.header().round == round && round > 0
            && q.header().author == self_address && q.entries() == transmissions_in(transmissions)
            && q.sigs() == Seq::<Signature>::empty() && q.spec_signers() == set![self_address]),
{
    *last_proposed_round = round;
    match Proposal::new(committee, batch_header, transmissions) {
        Ok(p) => {
            *proposed = Some(p);
            Ok(())
        },
        Err(e) => Err(e),
    }
}

} // verus!
