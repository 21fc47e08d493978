//! A worker of the memory pool: it keeps the ready queue of transmissions for the next
//! batch and the queue of transmissions it is fetching from peers.
//!
//! The worker holds its own queues. What it consults besides them (the batch being proposed,
//! the transmission store, whether the ledger holds a transmission, the verdict of the
//! ledger's basic checks, the committee) is handed to each call as a plain value.
use vstd::prelude::*;
use crate::collections::has_transmission;
use crate::committee::Committee;
use crate::helpers::pending::{
    add_callback, clear_item, max_redundant_requests, new_callback, num_sent_of,
    spec_max_redundant_requests, Pending, PendingCallback,
};
use crate::helpers::proposal::Proposal;
use crate::helpers::ready::{spec_insert_entry, spec_lookup, Ready};
use crate::primary::MAX_TRANSMISSIONS_PER_BATCH;
use crate::storage_service::{spec_contains, BFTMemoryService};
use crate::types::{Field, PeerIp, Transmission, TransmissionData, TransmissionID};
use crate::MAX_WORKERS;
use crate::text::{decimal, push_decimal, push_transmission_id, transmission_id_text};
use vstd::string::StringExecFns;
use rand::seq::IteratorRandom;

verus! {

/// The maximum number of transmissions allowed in a worker: the batch capacity divided
/// among the workers (with a single worker, all of it).
pub const MAX_TRANSMISSIONS_PER_WORKER: usize = MAX_TRANSMISSIONS_PER_BATCH;

/// The maximum number of transmissions allowed in a worker ping.
pub const MAX_TRANSMISSIONS_PER_WORKER_PING: usize = MAX_TRANSMISSIONS_PER_BATCH / 10;

/// The ways a worker call can fail.
#[derive(Debug, PartialEq, Eq, Structural)]
pub enum WorkerError {
    /// The worker ID is not below the number of workers.
    InvalidWorkerId(u8),
    /// The transmission is already held (ready queue, proposed batch, store or ledger).
    AlreadyExists(TransmissionID),
    /// The ledger's basic checks rejected the transmission.
    CheckFailed(TransmissionID),
}

/// The text of a worker error.
pub open spec fn spec_worker_message(e: WorkerError) -> Seq<char> {
    match e {
        WorkerError::InvalidWorkerId(id) => "Invalid worker ID '"@ + decimal(id as nat) + "'"@,
        WorkerError::AlreadyExists(t) => transmission_id_text(t) + " already exists."@,
        WorkerError::CheckFailed(t) => transmission_id_text(t) + " failed the ledger's basic checks."@,
    }
}

impl WorkerError {
    /// The error's message.
    pub fn message(&self) -> (r: String)
        ensures
            r@ == spec_worker_message(*self),
    {
        let mut s = String::new();
        match self {
            WorkerError::InvalidWorkerId(id) => {
                s.append("Invalid worker ID '");
                push_decimal(&mut s, *id as u128);
                s.append("'");
            },
            WorkerError::AlreadyExists(t) => {
                push_transmission_id(&mut s, *t);
                s.append(" already exists.");
            },
            WorkerError::CheckFailed(t) => {
                push_transmission_id(&mut s, *t);
                s.append(" failed the ledger's basic checks.");
            },
        }
        s
    }
}

/// `true` if the batch being proposed (if any) holds the transmission ID.
pub open spec fn in_proposal(proposal: Option<&Proposal>, id: TransmissionID) -> bool {
    match proposal {
        Some(p) => has_transmission(p.entries(), id),
        None => false,
    }
}

/// `true` if the transmission ID is in the ready queue, the proposed batch, the store, or
/// the ledger.
pub open spec fn spec_worker_contains(
    ready: Seq<(TransmissionID, TransmissionData)>,
    proposal: Option<&Proposal>,
    storage: &BFTMemoryService,
    in_ledger: bool,
    id: TransmissionID,
) -> bool {
    has_transmission(ready, id) || in_proposal(proposal, id) || spec_contains(storage@, id)
        || in_ledger
}

/// `true` if the transmission ID and the transmission are of the same kind, and that kind
/// may enter the ready queue (ratifications may not).
pub open spec fn spec_is_well_formed(id: TransmissionID, t: TransmissionData) -> bool {
    match (id, t) {
        (TransmissionID::Solution(..), TransmissionData::Solution(_)) => true,
        (TransmissionID::Transaction(..), TransmissionData::Transaction(_)) => true,
        _ => false,
    }
}

/// Once a transmission is reinserted (or taken from a peer), the worker holds it: inserting
/// the same transmission ID again is refused.
pub proof fn law_inserted_transmission_is_held(
    ready: Seq<(TransmissionID, TransmissionData)>,
    proposal: Option<&Proposal>,
    storage: &BFTMemoryService,
    in_ledger: bool,
    id: TransmissionID,
    t: TransmissionData,
)
    ensures
        spec_worker_contains(ready.push((id, t)), proposal, storage, in_ledger, id),
{
    assert(ready.push((id, t))[ready.len() as int].0 == id);
}

/// Picks up to `amount` of the IDs at random, through `rand`'s
/// `IteratorRandom::choose_multiple` with the thread's generator. Its source fills a
/// reservoir with the first `amount` items and then lets each later item replace a random
/// slot or none: the result has `min(amount, len)` items, each taken from a distinct
/// position of the input. Which items, and in what order, is left to chance.
#[verifier::external_body]
fn choose_multiple_ids(ids: Vec<TransmissionID>, amount: usize) -> (r: Vec<TransmissionID>)
    requires
        ids@.len() + amount < usize::MAX,
    ensures
        r@.len() == if amount < ids@.len() { amount as int } else { ids@.len() as int },
        forall|i: int| 0 <= i < r@.len() ==> ids@.contains(#[trigger] r@[i]),
        ids@.no_duplicates() ==> r@.no_duplicates(),
{
    ids.into_iter().choose_multiple(&mut rand::thread_rng(), amount)
}

/// A worker: its ID, its ready queue, and its queue of pending fetches, each waiting with
/// callbacks of type `C`.
pub struct Worker<C> {
    id: u8,
    ready: Ready,
    pending: Pending<TransmissionID, C>,
}

impl<C> Worker<C> {
    /// The worker's ID.
    pub closed spec fn spec_id(&self) -> u8 {
        self.id
    }

    /// The entries of the ready queue, in order.
    pub closed spec fn ready_contents(&self) -> Seq<(TransmissionID, TransmissionData)> {
        self.ready.contents()
    }

    /// The pending fetches.
    pub closed spec fn pending_view(&self) -> Map<TransmissionID, Seq<PendingCallback<C>>> {
        self.pending@
    }

    /// Both queues are well formed.
    pub closed spec fn wf(&self) -> bool {
        self.ready.wf() && self.pending.wf()
    }

    /// Initializes a new worker with empty queues; fails on an ID that is not below the
    /// number of workers.
    pub fn new(id: u8) -> (r: Result<Self, WorkerError>)
        ensures
            id < MAX_WORKERS <==> r is Ok,
            r matches Ok(w) ==> {
                &&& w.wf()
                &&& w.spec_id() == id
                &&& w.ready_contents() == Seq::<(TransmissionID, TransmissionData)>::empty()
                &&& w.pending_view() == Map::<TransmissionID, Seq<PendingCallback<C>>>::empty()
            },
            r matches Err(e) ==> e == WorkerError::InvalidWorkerId(id),
    {
        if id >= MAX_WORKERS {
            return Err(WorkerError::InvalidWorkerId(id));
        }
        Ok(Worker { id, ready: Ready::new(), pending: Pending::new() })
    }

    /// Returns the worker ID.
    pub fn id(&self) -> (r: u8)
        ensures
            r == self.spec_id(),
    {
        self.id
    }

    /// Returns the queue of pending fetches.
    pub fn pending(&self) -> (r: &Pending<TransmissionID, C>)
        ensures
            r@ == self.pending_view(),
            self.wf() ==> r.wf(),
    {
        &self.pending
    }

    /// Returns the ready queue.
    pub fn ready(&self) -> (r: &Ready)
        ensures
            r.contents() == self.ready_contents(),
            self.wf() ==> r.wf(),
    {
        &self.ready
    }

    /// Returns the number of transmissions in the ready queue.
    pub fn num_transmissions(&self) -> (r: usize)
        ensures
            r == self.ready_contents().len(),
    {
        self.ready.num_transmissions()
    }

    /// Returns the transmission IDs in the ready queue, in order.
    pub fn transmission_ids(&self) -> (r: Vec<TransmissionID>)
        ensures
            r@ == self.ready_contents().map_values(|e: (TransmissionID, TransmissionData)| e.0),
    {
        self.ready.transmission_ids()
    }

    /// Returns the transmission IDs to announce in a worker ping: up to
    /// `MAX_TRANSMISSIONS_PER_WORKER_PING` IDs of the ready queue, picked at random, each
    /// once. The caller broadcasts them if there are any.
    pub fn broadcast_ping(&self) -> (r: Vec<TransmissionID>)
        requires
            self.wf(),
        ensures
            r@.len() == if MAX_TRANSMISSIONS_PER_WORKER_PING < self.ready_contents().len() {
                MAX_TRANSMISSIONS_PER_WORKER_PING as int
            } else {
                self.ready_contents().len() as int
            },
            r@.no_duplicates(),
            forall|i: int| 0 <= i < r@.len() ==> has_transmission(self.ready_contents(), #[trigger] r@[i]),
    {
        let mut ids = self.ready.transmission_ids();
        let ghost s = self.ready_contents();
        let ghost all = ids@;
        proof {
            self.ready.lemma_ids_distinct();
        }
        // A queue this long cannot be held in memory; the bound keeps the sampling in range.
        if ids.len() >= usize::MAX - MAX_TRANSMISSIONS_PER_WORKER_PING {
            ids.truncate(MAX_TRANSMISSIONS_PER_WORKER_PING);
            proof {
                assert forall|a: int, b: int| 0 <= a < ids@.len() && 0 <= b < ids@.len() && a != b implies ids@[a]
                    != ids@[b] by {
                    assert(ids@[a] == all[a] && ids@[b] == all[b]);
                }
                assert forall|i: int| 0 <= i < ids@.len() implies all.contains(#[trigger] ids@[i]) by {
                    assert(ids@[i] == all[i]);
                }
            }
        }
        proof {
            assert forall|i: int| 0 <= i < ids@.len() implies all.contains(#[trigger] ids@[i]) by {
                if ids@.len() < all.len() {
                    assert(ids@[i] == all[i]);
                } else {
                    assert(ids@ == all);
                }
            }
        }
        let picked = choose_multiple_ids(ids, MAX_TRANSMISSIONS_PER_WORKER_PING);
        proof {
            assert forall|i: int| 0 <= i < picked@.len() implies has_transmission(s, #[trigger] picked@[i]) by {
                let j = choose|j: int| 0 <= j < all.len() && all[j] == picked@[i];
                assert(s[j].0 == picked@[i]);
            }
        }
        picked
    }

    /// Clears the solutions from the ready queue.
    pub fn clear_solutions(&mut self)
        requires
            old(self).wf(),
        ensures
            final(self).wf(),
            final(self).spec_id() == old(self).spec_id(),
            final(self).pending_view() == old(self).pending_view(),
            final(self).ready_contents() == old(self).ready_contents().filter(
                |e: (TransmissionID, TransmissionData)| !(e.0 is Solution),
            ),
    {
        self.ready.clear_solutions()
    }

    /// Returns `true` if the transmission ID exists in the ready queue, the proposed batch,
    /// the store, or the ledger (`in_ledger` is the ledger's answer).
    pub fn contains_transmission(
        &self,
        transmission_id: TransmissionID,
        proposal: Option<&Proposal>,
        storage: &BFTMemoryService,
        in_ledger: bool,
    ) -> (r: bool)
        requires
            storage.wf(),
        ensures
            r == spec_worker_contains(self.ready_contents(), proposal, storage, in_ledger, transmission_id),
    {
        if self.ready.contains(transmission_id) {
            return true;
        }
        let in_batch = match proposal {
            Some(p) => p.contains_transmission(transmission_id),
            None => false,
        };
        in_batch || storage.contains_transmission(transmission_id) || in_ledger
    }

    /// Returns the transmission if the ready queue, the store, or the proposed batch holds
    /// it, looked up in that order. The ledger is never consulted: a transmission in the
    /// ledger is not guaranteed to be valid for the current batch.
    pub fn get_transmission(
        &self,
        transmission_id: TransmissionID,
        proposal: Option<&Proposal>,
        storage: &BFTMemoryService,
    ) -> (r: Option<Transmission>)
        requires
            self.wf(),
            storage.wf(),
        ensures
            has_transmission(self.ready_contents(), transmission_id) ==> (r matches Some(t)
                && spec_lookup(self.ready_contents(), transmission_id) == Some(t@)),
            !has_transmission(self.ready_contents(), transmission_id)
                && storage@.transmissions.contains_key(transmission_id) ==> (r matches Some(t)
                && t@ == storage@.transmissions[transmission_id].0),
            !has_transmission(self.ready_contents(), transmission_id)
                && !storage@.transmissions.contains_key(transmission_id) ==> (r is Some
                <==> in_proposal(proposal, transmission_id)),
            !has_transmission(self.ready_contents(), transmission_id)
                && !storage@.transmissions.contains_key(transmission_id) && r is Some ==> (
            proposal matches Some(p) && exists|i: int|
                0 <= i < p.entries().len() && p.entries()[i].0 == transmission_id
                    && p.entries()[i].1 == r->0@),
    {
        if let Some(t) = self.ready.get(transmission_id) {
            return Some(t);
        }
        if let Some(t) = storage.get_transmission(transmission_id) {
            return Some(t);
        }
        match proposal {
            Some(p) => match p.get_transmission(transmission_id) {
                Some(t) => Some(t.duplicate()),
                None => None,
            },
            None => None,
        }
    }

    /// Removes up to `num_transmissions` transmissions from the front of the ready queue,
    /// and returns them, in order.
    pub fn drain(&mut self, num_transmissions: usize) -> (r: Vec<(TransmissionID, Transmission)>)
        requires
            old(self).wf(),
        ensures
            final(self).wf(),
            final(self).spec_id() == old(self).spec_id(),
            final(self).pending_view() == old(self).pending_view(),
            ({
                let s = old(self).ready_contents();
                let n = if num_transmissions < s.len() { num_transmissions as int } else { s.len() as int };
                &&& r@.len() == n
                &&& forall|i: int| 0 <= i < n ==> (#[trigger] r@[i]).0 == s[i].0 && r@[i].1@ == s[i].1
                &&& final(self).ready_contents() == s.skip(n)
            }),
    {
        self.ready.drain(num_transmissions)
    }

    /// Reinserts the transmission into the ready queue, unless the worker already holds it
    /// (ready queue, proposed batch, store or ledger). Returns `true` if it was inserted.
    pub fn reinsert(
        &mut self,
        transmission_id: TransmissionID,
        transmission: Transmission,
        proposal: Option<&Proposal>,
        storage: &BFTMemoryService,
        in_ledger: bool,
    ) -> (r: bool)
        requires
            old(self).wf(),
            storage.wf(),
        ensures
            final(self).wf(),
            final(self).spec_id() == old(self).spec_id(),
            final(self).pending_view() == old(self).pending_view(),
            r == !spec_worker_contains(old(self).ready_contents(), proposal, storage, in_ledger, transmission_id),
            final(self).ready_contents() == if r {
                old(self).ready_contents().push((transmission_id, transmission@))
            } else {
                old(self).ready_contents()
            },
    {
        if !self.contains_transmission(transmission_id, proposal, storage, in_ledger) {
            let ghost v = transmission@;
            let inserted = self.ready.insert(transmission_id, transmission);
            assert(spec_insert_entry(old(self).ready_contents(), transmission_id, v)
                == old(self).ready_contents().push((transmission_id, v)));
            return inserted;
        }
        false
    }

    /// Decides on a transmission ID announced in a worker ping: `true` if it should be
    /// fetched from the peer, that is, if the worker does not hold it and the ready queue
    /// is not over capacity.
    pub fn process_transmission_id_from_ping(
        &self,
        transmission_id: TransmissionID,
        proposal: Option<&Proposal>,
        storage: &BFTMemoryService,
        in_ledger: bool,
    ) -> (r: bool)
        requires
            storage.wf(),
        ensures
            r == (!spec_worker_contains(self.ready_contents(), proposal, storage, in_ledger, transmission_id)
                && self.ready_contents().len() <= MAX_TRANSMISSIONS_PER_WORKER),
    {
        if self.contains_transmission(transmission_id, proposal, storage, in_ledger) {
            return false;
        }
        self.ready.num_transmissions() <= MAX_TRANSMISSIONS_PER_WORKER
    }

    /// Handles a transmission received from a peer: it enters the ready queue if the worker
    /// does not hold it yet and it is well formed (a solution under a solution ID, or a
    /// transaction under a transaction ID). Returns `true` if it was inserted.
    pub fn process_transmission_from_peer(
        &mut self,
        transmission_id: TransmissionID,
        transmission: Transmission,
        proposal: Option<&Proposal>,
        storage: &BFTMemoryService,
        in_ledger: bool,
    ) -> (r: bool)
        requires
            old(self).wf(),
            storage.wf(),
        ensures
            final(self).wf(),
            final(self).spec_id() == old(self).spec_id(),
            final(self).pending_view() == old(self).pending_view(),
            r == (!spec_worker_contains(old(self).ready_contents(), proposal, storage, in_ledger, transmission_id)
                && spec_is_well_formed(transmission_id, transmission@)),
            final(self).ready_contents() == if r {
                old(self).ready_contents().push((transmission_id, transmission@))
            } else {
                old(self).ready_contents()
            },
    {
        if self.contains_transmission(transmission_id, proposal, storage, in_ledger) {
            return false;
        }
        let is_well_formed = match (&transmission_id, &transmission) {
            (TransmissionID::Solution(..), Transmission::Solution(_)) => true,
            (TransmissionID::Transaction(..), Transmission::Transaction(_)) => true,
            _ => false,
        };
        if is_well_formed {
            let ghost v = transmission@;
            let inserted = self.ready.insert(transmission_id, transmission);
            assert(spec_insert_entry(old(self).ready_contents(), transmission_id, v)
                == old(self).ready_contents().push((transmission_id, v)));
            return inserted;
        }
        false
    }

    /// Handles an unconfirmed transmission that arrived directly: its pending fetch (if
    /// any) is removed and its waiting peers and callbacks are returned for the caller to
    /// notify; then it fails if the worker already holds it, or if the ledger's basic checks
    /// (`passes_check`) rejected it; otherwise it enters the ready queue.
    fn process_unconfirmed(
        &mut self,
        transmission_id: TransmissionID,
        transmission: Transmission,
        proposal: Option<&Proposal>,
        storage: &BFTMemoryService,
        in_ledger: bool,
        passes_check: bool,
    ) -> (r: (Option<(Vec<PeerIp>, Vec<C>)>, Result<(), WorkerError>))
        requires
            old(self).wf(),
            storage.wf(),
        ensures
            final(self).wf(),
            final(self).spec_id() == old(self).spec_id(),
            final(self).pending_view() == old(self).pending_view().remove(transmission_id),
            r.0 is Some <==> old(self).pending_view().contains_key(transmission_id),
            r.0 matches Some((_, callbacks)) ==> callbacks@ == crate::helpers::pending::callbacks_of(old(self).pending_view()[transmission_id]),
            spec_worker_contains(old(self).ready_contents(), proposal, storage, in_ledger, transmission_id)
                ==> r.1 == Err::<(), WorkerError>(WorkerError::AlreadyExists(transmission_id)),
            !spec_worker_contains(old(self).ready_contents(), proposal, storage, in_ledger, transmission_id)
                && !passes_check ==> r.1 == Err::<(), WorkerError>(WorkerError::CheckFailed(transmission_id)),
            !spec_worker_contains(old(self).ready_contents(), proposal, storage, in_ledger, transmission_id)
                && passes_check ==> r.1 is Ok && final(self).ready_contents() == old(self).ready_contents().push(
                (transmission_id, transmission@),
            ),
            r.1 is Err ==> final(self).ready_contents() == old(self).ready_contents(),
    {
        let notified = self.pending.remove(transmission_id);
        if self.contains_transmission(transmission_id, proposal, storage, in_ledger) {
            return (notified, Err(WorkerError::AlreadyExists(transmission_id)));
        }
        if !passes_check {
            return (notified, Err(WorkerError::CheckFailed(transmission_id)));
        }
        let ghost v = transmission@;
        self.ready.insert(transmission_id, transmission);
        assert(spec_insert_entry(old(self).ready_contents(), transmission_id, v)
            == old(self).ready_contents().push((transmission_id, v)));
        (notified, Ok(()))
    }

    /// Handles an unconfirmed solution with its ID and checksum: see the transmission rules
    /// of `process_unconfirmed_transaction`, for a solution.
    pub fn process_unconfirmed_solution(
        &mut self,
        solution_id: u64,
        checksum: u128,
        solution: Vec<u8>,
        proposal: Option<&Proposal>,
        storage: &BFTMemoryService,
        in_ledger: bool,
        passes_check: bool,
    ) -> (r: (Option<(Vec<PeerIp>, Vec<C>)>, Result<(), WorkerError>))
        requires
            old(self).wf(),
            storage.wf(),
        ensures
            ({
                let id = TransmissionID::Solution(solution_id, checksum);
                let contained = spec_worker_contains(old(self).ready_contents(), proposal, storage, in_ledger, id);
                &&& final(self).wf()
                &&& final(self).spec_id() == old(self).spec_id()
                &&& final(self).pending_view() == old(self).pending_view().remove(id)
                &&& (r.0 is Some <==> old(self).pending_view().contains_key(id))
                &&& (r.0 matches Some((_, callbacks)) ==> callbacks@ == crate::helpers::pending::callbacks_of(old(self).pending_view()[id]))
                &&& (contained ==> r.1 == Err::<(), WorkerError>(WorkerError::AlreadyExists(id)))
                &&& (!contained && !passes_check ==> r.1 == Err::<(), WorkerError>(WorkerError::CheckFailed(id)))
                &&& (!contained && passes_check ==> r.1 is Ok && final(self).ready_contents()
                    == old(self).ready_contents().push((id, TransmissionData::Solution(solution@))))
                &&& (r.1 is Err ==> final(self).ready_contents() == old(self).ready_contents())
            }),
    {
        let id = TransmissionID::Solution(solution_id, checksum);
        self.process_unconfirmed(id, Transmission::Solution(solution), proposal, storage, in_ledger, passes_check)
    }

    /// Handles an unconfirmed transaction with its ID and checksum. Its pending fetch (if
    /// any) is removed, and its waiting peers and callbacks are returned for the caller to
    /// notify with the transaction. Then the call fails with `AlreadyExists` if the worker
    /// holds it (ready queue, proposed batch, store or ledger), with `CheckFailed` if the
    /// ledger's basic checks rejected it (`passes_check` is their verdict), and otherwise
    /// appends it to the ready queue.
    pub fn process_unconfirmed_transaction(
        &mut self,
        transaction_id: Field,
        checksum: u128,
        transaction: Vec<u8>,
        proposal: Option<&Proposal>,
        storage: &BFTMemoryService,
        in_ledger: bool,
        passes_check: bool,
    ) -> (r: (Option<(Vec<PeerIp>, Vec<C>)>, Result<(), WorkerError>))
        requires
            old(self).wf(),
            storage.wf(),
        ensures
            ({
                let id = TransmissionID::Transaction(transaction_id, checksum);
                let contained = spec_worker_contains(old(self).ready_contents(), proposal, storage, in_ledger, id);
                &&& final(self).wf()
                &&& final(self).spec_id() == old(self).spec_id()
                &&& final(self).pending_view() == old(self).pending_view().remove(id)
                &&& (r.0 is Some <==> old(self).pending_view().contains_key(id))
                &&& (r.0 matches Some((_, callbacks)) ==> callbacks@ == crate::helpers::pending::callbacks_of(old(self).pending_view()[id]))
                &&& (contained ==> r.1 == Err::<(), WorkerError>(WorkerError::AlreadyExists(id)))
                &&& (!contained && !passes_check ==> r.1 == Err::<(), WorkerError>(WorkerError::CheckFailed(id)))
                &&& (!contained && passes_check ==> r.1 is Ok && final(self).ready_contents()
                    == old(self).ready_contents().push((id, TransmissionData::Transaction(transaction@))))
                &&& (r.1 is Err ==> final(self).ready_contents() == old(self).ready_contents())
            }),
    {
        let id = TransmissionID::Transaction(transaction_id, checksum);
        self.process_unconfirmed(id, Transmission::Transaction(transaction), proposal, storage, in_ledger, passes_check)
    }

    /// Registers a fetch of the transmission from the peer at time `now`, with its callback,
    /// and decides whether a request is to be sent: at most as many requests as the
    /// redundancy factor of the committee lookback are in flight, and each peer has at most
    /// one. Returns `true` if the request is to be sent.
    pub fn send_transmission_request(
        &mut self,
        now: i64,
        peer_ip: PeerIp,
        transmission_id: TransmissionID,
        committee_lookback: Option<&Committee>,
        callback: C,
    ) -> (r: bool)
        requires
            old(self).wf(),
            committee_lookback matches Some(c) ==> c.wf(),
        ensures
            final(self).wf(),
            final(self).spec_id() == old(self).spec_id(),
            final(self).ready_contents() == old(self).ready_contents(),
            ({
                let cleared = clear_item(old(self).pending_view(), now, transmission_id);
                let redundancy = spec_max_redundant_requests(
                    match committee_lookback {
                        Some(c) => c.spec_members().len() as int,
                        None => crate::committee::MAX_COMMITTEE_SIZE as int,
                    },
                );
                let peer_asked = crate::helpers::pending::peer_asked(cleared, transmission_id, peer_ip);
                &&& r == (num_sent_of(cleared, transmission_id) < redundancy && !peer_asked)
                &&& final(self).pending_view() == clear_item(
                    add_callback(cleared, transmission_id, new_callback(peer_ip, Some((callback, r)), now)),
                    now,
                    transmission_id,
                )
            }),
    {
        let num_sent_requests = self.pending.num_sent_requests_at(now, transmission_id);
        let contains_peer_with_sent_request = self.pending.contains_peer_with_sent_request(transmission_id, peer_ip);
        let num_redundant_requests = max_redundant_requests(committee_lookback);
        let should_send_request = num_sent_requests < num_redundant_requests && !contains_peer_with_sent_request;
        self.pending.insert_at(now, transmission_id, peer_ip, Some((callback, should_send_request)));
        should_send_request
    }

    /// Removes the callbacks of the pending fetches that have expired at time `now`.
    pub fn clear_expired_callbacks_at(&mut self, now: i64)
        requires
            old(self).wf(),
        ensures
            final(self).wf(),
            final(self).spec_id() == old(self).spec_id(),
            final(self).ready_contents() == old(self).ready_contents(),
            final(self).pending_view() == crate::helpers::pending::clear_all(old(self).pending_view(), now),
    {
        self.pending.clear_expired_callbacks_at(now);
    }

    /// Returns the number of live callbacks for the transmission at time `now`, after
    /// dropping its expired ones.
    pub fn num_callbacks_at(&mut self, now: i64, transmission_id: TransmissionID) -> (r: usize)
        requires
            old(self).wf(),
        ensures
            final(self).wf(),
            final(self).spec_id() == old(self).spec_id(),
            final(self).ready_contents() == old(self).ready_contents(),
            final(self).pending_view() == clear_item(old(self).pending_view(), now, transmission_id),
            r == crate::helpers::pending::num_callbacks_of(final(self).pending_view(), transmission_id),
    {
        self.pending.num_callbacks_at(now, transmission_id)
    }

    /// Returns the number of live requests sent for the transmission at time `now`, after
    /// dropping its expired callbacks.
    pub fn num_sent_requests_at(&mut self, now: i64, transmission_id: TransmissionID) -> (r: usize)
        requires
            old(self).wf(),
        ensures
            final(self).wf(),
            final(self).spec_id() == old(self).spec_id(),
            final(self).ready_contents() == old(self).ready_contents(),
            final(self).pending_view() == clear_item(old(self).pending_view(), now, transmission_id),
            r == num_sent_of(final(self).pending_view(), transmission_id),
    {
        self.pending.num_sent_requests_at(now, transmission_id)
    }

    /// Handles a transmission response from a peer: if the peer is among those the
    /// transmission was asked of, and the ledger found the response well formed
    /// (`is_well_formed`), the pending fetch is finished: it is removed and its waiting
    /// callbacks are returned for the caller to notify. Otherwise nothing changes.
    pub fn finish_transmission_request(
        &mut self,
        peer_ip: PeerIp,
        transmission_id: TransmissionID,
        is_well_formed: bool,
    ) -> (r: Option<Vec<C>>)
        requires
            old(self).wf(),
        ensures
            final(self).wf(),
            final(self).spec_id() == old(self).spec_id(),
            final(self).ready_contents() == old(self).ready_contents(),
            ({
                let m = old(self).pending_view();
                let finishes = m.contains_key(transmission_id) && crate::helpers::pending::peers_of(m[transmission_id]).contains(peer_ip)
                    && is_well_formed;
                &&& (r is Some <==> finishes)
                &&& (finishes ==> final(self).pending_view() == m.remove(transmission_id))
                &&& (!finishes ==> final(self).pending_view() == m)
                &&& (r matches Some(callbacks) ==> callbacks@ == crate::helpers::pending::callbacks_of(m[transmission_id]))
            }),
    {
        let exists = self.pending.contains_peer(transmission_id, peer_ip);
        if exists && is_well_formed {
            match self.pending.remove(transmission_id) {
                Some((_, callbacks)) => Some(callbacks),
                None => None,
            }
        } else {
            None
        }
    }
}

} // verus!
