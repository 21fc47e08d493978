//! The sync module's rules: which heights to sync, which block responses to keep, which of
//! them may enter the ledger (the leader certificate of a block must have the availability
//! threshold of support, and earlier blocks join it only when linked to it), and the
//! certificate requests in flight.
//!
//! The ledger and the network stay with the caller: it hands in the latest height, the
//! blocks (their height, round and leader certificate), the committee lookbacks and the
//! stored certificates, and advances the ledger with the blocks the rules release.
use vstd::prelude::*;
use crate::assoc::{keys_distinct, AssocMap};
use crate::bft::{holds_view, in_round, lemma_reaches_step, reaches, round_nonempty, supporters, cites};
use crate::committee::{spec_stake_in, Committee};
use crate::dag::{RoundAuthor, DAG};
use crate::helpers::pending::{
    add_callback, clear_item, max_redundant_requests, new_callback, num_sent_of, peers_of,
    spec_max_redundant_requests, Pending, PendingCallback,
};
use crate::types::{contains_field, Address, BatchCertificate, BatchCertificateView, Field, PeerIp};

use crate::text::{decimal, push_decimal};
use vstd::string::StringExecFns;

verus! {

/// Why a sync step fails.
#[derive(Debug, PartialEq, Eq, Structural)]
pub enum SyncError {
    /// The number of garbage-collection rounds does not fit in a `u32`.
    MaxGcRoundsTooLarge,
    /// The block at the height carries no leader certificate (its authority is a beacon).
    UnexpectedAuthority(u32),
    /// The block at the height is missing from the block responses.
    MissingBlock(u32),
}

/// A block, reduced to what the sync rules read: its height, its round, and its leader
/// certificate (`None` if its authority is not a quorum of the BFT).
pub struct SyncBlock {
    pub height: u32,
    pub round: u64,
    pub leader_certificate: Option<BatchCertificate>,
}

/// The leader certificate of a block, by its view.
pub open spec fn leader_of(b: SyncBlock) -> Option<BatchCertificateView> {
    match b.leader_certificate {
        Some(c) => Some(c@),
        None => None,
    }
}

/// The number of blocks that garbage collection may have dropped: half the rounds.
pub open spec fn spec_max_gc_blocks(max_gc_rounds: u64) -> int {
    max_gc_rounds as int / 2
}

/// Returns the heights the node syncs from the ledger at bootup: from the latest height
/// less the garbage-collected blocks (saturated at zero), up to and including the latest
/// height (the end is exclusive, saturated at `u32::MAX`). Fails if the garbage-collection
/// rounds do not fit in a `u32`.
pub fn bootup_sync_range(block_height: u32, max_gc_rounds: u64) -> (r: Result<(u32, u32), SyncError>)
    ensures
        max_gc_rounds > u32::MAX <==> r is Err,
        r matches Err(e) ==> e == SyncError::MaxGcRoundsTooLarge,
        r matches Ok((start, end)) ==> {
            &&& start == if block_height >= spec_max_gc_blocks(max_gc_rounds) {
                block_height - spec_max_gc_blocks(max_gc_rounds)
            } else {
                0
            }
            &&& end == if block_height < u32::MAX { block_height + 1 } else { u32::MAX as int }
        },
{
    if max_gc_rounds > u32::MAX as u64 {
        return Err(SyncError::MaxGcRoundsTooLarge);
    }
    let max_gc_blocks = (max_gc_rounds as u32) / 2;
    Ok((block_height.saturating_sub(max_gc_blocks), block_height.saturating_add(1)))
}

/// Returns the next height to sync and the highest height that the peers may have
/// garbage collected: the greatest peer height (`tip`) less the garbage-collected blocks
/// (saturated at zero). When the next height is at or below the latter, the ledger can
/// advance without the BFT. Fails if the garbage-collection rounds do not fit in a `u32`.
pub fn sync_heights(latest_height: u32, tip: u32, max_gc_rounds: u64) -> (r: Result<(u32, u32), SyncError>)
    requires
        latest_height < u32::MAX,
    ensures
        max_gc_rounds > u32::MAX <==> r is Err,
        r matches Err(e) ==> e == SyncError::MaxGcRoundsTooLarge,
        r matches Ok((current, max_gc_height)) ==> {
            &&& current == latest_height + 1
            &&& max_gc_height == if tip >= spec_max_gc_blocks(max_gc_rounds) {
                tip - spec_max_gc_blocks(max_gc_rounds)
            } else {
                0
            }
        },
{
    if max_gc_rounds > u32::MAX as u64 {
        return Err(SyncError::MaxGcRoundsTooLarge);
    }
    let max_gc_blocks = (max_gc_rounds as u32) / 2;
    Ok((latest_height + 1, tip.saturating_sub(max_gc_blocks)))
}

/// Returns `true` if the node is synced: it has connected peers, and the block sync says
/// it is synced.
pub fn is_synced(num_connected_peers: usize, is_block_synced: bool) -> (r: bool)
    ensures
        r == (num_connected_peers > 0 && is_block_synced),
{
    if num_connected_peers == 0 {
        return false;
    }
    is_block_synced
}

/// Returns `true` if a path of previous-certificate links leads from `current` down to
/// `previous` through the stored certificates (a round without certificates ends every
/// path).
pub fn is_linked_in_storage(
    storage: &DAG,
    previous_certificate: &BatchCertificate,
    current_certificate: &BatchCertificate,
) -> (r: bool)
    requires
        storage.wf(),
    ensures
        r == reaches(storage@.graph, current_certificate@, previous_certificate@.header.round as int, previous_certificate@),
{
    let ghost g = storage@.graph;
    let ghost cur = current_certificate@;
    let ghost prev = previous_certificate@;
    let mut traversal: Vec<BatchCertificate> = Vec::new();
    traversal.push(current_certificate.duplicate());
    let low = previous_certificate.round();
    let mut round = current_certificate.round();
    proof {
        assert forall|p: BatchCertificateView|
            #![trigger holds_view(traversal@, p)]
            #![trigger reaches(g, cur, round as int, p)]
            holds_view(traversal@, p) <==> reaches(g, cur, round as int, p) by {
            if p == cur {
                assert(traversal@[0]@ == p);
            }
        }
    }
    while round > low
        invariant
            storage.wf(),
            g == storage@.graph,
            cur == current_certificate@,
            prev == previous_certificate@,
            low == prev.header.round,
            low <= round <= cur.header.round || (round == cur.header.round && round <= low),
            forall|p: BatchCertificateView|
                #![trigger holds_view(traversal@, p)]
                #![trigger reaches(g, cur, round as int, p)]
                holds_view(traversal@, p) <==> reaches(g, cur, round as int, p),
        decreases round,
    {
        round = round - 1;
        let ghost old_traversal = traversal@;
        let certificates = match storage.get_certificates_for_round(round) {
            Some(certificates) => certificates,
            None => Vec::new(),
        };
        traversal = linked_step_in(certificates, &traversal);
        proof {
            assert forall|p: BatchCertificateView|
                #![trigger holds_view(traversal@, p)]
                #![trigger reaches(g, cur, round as int, p)]
                holds_view(traversal@, p) <==> reaches(g, cur, round as int, p) by {
                lemma_reaches_step(g, cur, round as int, p);
                if holds_view(traversal@, p) {
                    assert(holds_view(certificates@, p));
                    let i = choose|i: int| 0 <= i < certificates@.len() && certificates@[i]@ == p;
                    let k = RoundAuthor { round, author: certificates@[i]@.header.author };
                    assert(g.contains_key(k) && k.round == round && g[k] == p);
                    assert(cites(old_traversal, p.id));
                    let j = choose|j: int|
                        0 <= j < old_traversal.len() && old_traversal[j]@.header.previous_certificate_ids.contains(p.id);
                    assert(holds_view(old_traversal, old_traversal[j]@));
                    assert(reaches(g, cur, round + 1, old_traversal[j]@));
                }
                if reaches(g, cur, round as int, p) {
                    let k = choose|k: RoundAuthor| #[trigger] g.contains_key(k) && k.round == round && g[k] == p;
                    assert(round_nonempty(g, round as int));
                    let i = choose|i: int| 0 <= i < certificates@.len() && certificates@[i]@.header.author == k.author;
                    assert(certificates@[i]@ == g[k]);
                    assert(holds_view(certificates@, p));
                    let c = choose|c: BatchCertificateView|
                        #[trigger] reaches(g, cur, round + 1, c) && c.header.previous_certificate_ids.contains(p.id);
                    assert(holds_view(old_traversal, c));
                    let j = choose|j: int| 0 <= j < old_traversal.len() && old_traversal[j]@ == c;
                    assert(cites(old_traversal, p.id));
                }
            }
        }
    }
    let r = crate::bft::contains_certificate(&traversal, previous_certificate);
    proof {
        if round < low {
            assert(round == cur.header.round);
        }
    }
    r
}

/// The certificates of `certs` that a certificate of `traversal` lists among its previous
/// certificates.
fn linked_step_in(certs: Vec<BatchCertificate>, traversal: &Vec<BatchCertificate>) -> (r: Vec<BatchCertificate>)
    ensures
        forall|p: BatchCertificateView|
            #![trigger holds_view(r@, p)]
            #![trigger holds_view(certs@, p)]
            holds_view(r@, p) <==> (holds_view(certs@, p) && cites(traversal@, p.id)),
{
    let ghost s = certs@;
    let mut out: Vec<BatchCertificate> = Vec::new();
    let mut i: usize = 0;
    while i < certs.len()
        invariant
            i <= s.len(),
            s == certs@,
            forall|p: BatchCertificateView|
                #![trigger holds_view(out@, p)]
                #![trigger holds_view(s.subrange(0, i as int), p)]
                holds_view(out@, p) <==> (holds_view(s.subrange(0, i as int), p) && cites(traversal@, p.id)),
        decreases s.len() - i,
    {
        let c = &certs[i];
        let mut j: usize = 0;
        let mut linked = false;
        while j < traversal.len()
            invariant
                j <= traversal@.len(),
                linked == exists|t: int|
                    0 <= t < j && traversal@[t]@.header.previous_certificate_ids.contains(c@.id),
            decreases traversal@.len() - j,
        {
            if contains_field(traversal[j].previous_certificate_ids(), c.id()) {
                linked = true;
            }
            j = j + 1;
        }
        let ghost out0 = out@;
        if linked {
            out.push(c.duplicate());
        }
        proof {
            let s0 = s.subrange(0, i as int);
            let s1 = s.subrange(0, i as int + 1);
            assert forall|p: BatchCertificateView|
                #![trigger holds_view(out@, p)]
                #![trigger holds_view(s1, p)]
                holds_view(out@, p) <==> (holds_view(s1, p) && cites(traversal@, p.id)) by {
                if holds_view(out@, p) {
                    let t = choose|t: int| 0 <= t < out@.len() && out@[t]@ == p;
                    if linked && t == out@.len() - 1 {
                        assert(s1[i as int]@ == p);
                        assert(cites(traversal@, p.id));
                    } else {
                        assert(out0[t]@ == p);
                        assert(holds_view(out0, p));
                        let t2 = choose|t2: int| 0 <= t2 < s0.len() && s0[t2]@ == p;
                        assert(s1[t2]@ == p);
                    }
                }
                if holds_view(s1, p) && cites(traversal@, p.id) {
                    let t = choose|t: int| 0 <= t < s1.len() && s1[t]@ == p;
                    if t == i {
                        assert(linked);
                        assert(out@[out@.len() - 1]@ == p);
                    } else {
                        assert(s0[t]@ == p);
                        assert(holds_view(s0, p));
                        let t2 = choose|t2: int| 0 <= t2 < out0.len() && out0[t2]@ == p;
                        assert(out@[t2]@ == p);
                    }
                }
            }
        }
        i = i + 1;
    }
    proof {
        assert(s.subrange(0, s.len() as int) =~= s);
    }
    out
}

/// Returns the authors of the stored certificates of the round that list `id` among their
/// previous certificates.
pub fn supporting_authors(storage: &DAG, round: u64, id: Field) -> (r: Vec<Address>)
    requires
        storage.wf(),
    ensures
        r@.to_set() == supporters(storage@.graph, round, id),
{
    let ghost g = storage@.graph;
    let certificates = match storage.get_certificates_for_round(round) {
        Some(c) => c,
        None => {
            let r: Vec<Address> = Vec::new();
            proof {
                assert forall|a: Address| !supporters(g, round, id).contains(a) by {
                    let k = RoundAuthor { round, author: a };
                    if g.contains_key(k) {
                        assert(g.contains_key(k) && k.round == round);
                    }
                }
                assert(r@.to_set() =~= supporters(g, round, id));
            }
            return r;
        },
    };
    let mut authors: Vec<Address> = Vec::new();
    let mut i: usize = 0;
    while i < certificates.len()
        invariant
            i <= certificates@.len(),
            forall|j: int|
                0 <= j < certificates@.len() ==> g.contains_key(
                    RoundAuthor { round, author: #[trigger] certificates@[j]@.header.author },
                ) && certificates@[j]@ == g[RoundAuthor { round, author: certificates@[j]@.header.author }],
            forall|a: Address|
                authors@.contains(a) <==> exists|j: int|
                    0 <= j < i && certificates@[j]@.header.author == a
                        && certificates@[j]@.header.previous_certificate_ids.contains(id),
        decreases certificates@.len() - i,
    {
        let ghost a0 = authors@;
        if contains_field(certificates[i].previous_certificate_ids(), id) {
            authors.push(certificates[i].author());
        }
        proof {
            assert forall|a: Address|
                authors@.contains(a) <==> exists|j: int|
                    0 <= j < i + 1 && certificates@[j]@.header.author == a
                        && certificates@[j]@.header.previous_certificate_ids.contains(id) by {
                if authors@.contains(a) {
                    let q = choose|q: int| 0 <= q < authors@.len() && authors@[q] == a;
                    if q < a0.len() {
                        assert(a0[q] == a);
                        assert(a0.contains(a));
                    }
                }
                if exists|j: int|
                    0 <= j < i + 1 && certificates@[j]@.header.author == a
                        && certificates@[j]@.header.previous_certificate_ids.contains(id) {
                    let j = choose|j: int|
                        0 <= j < i + 1 && certificates@[j]@.header.author == a
                            && certificates@[j]@.header.previous_certificate_ids.contains(id);
                    if j == i {
                        assert(authors@[authors@.len() - 1] == a);
                    } else {
                        assert(a0.contains(a));
                        let q = choose|q: int| 0 <= q < a0.len() && a0[q] == a;
                        assert(authors@[q] == a);
                    }
                }
            }
        }
        i = i + 1;
    }
    proof {
        let sup = supporters(g, round, id);
        assert forall|a: Address| authors@.to_set().contains(a) <==> sup.contains(a) by {
            if authors@.contains(a) {
                let j = choose|j: int|
                    0 <= j < i && certificates@[j]@.header.author == a
                        && certificates@[j]@.header.previous_certificate_ids.contains(id);
                assert(g.contains_key(RoundAuthor { round, author: a }));
            }
            if sup.contains(a) {
                let k = RoundAuthor { round, author: a };
                assert(g.contains_key(k) && k.round == round);
                let j = choose|j: int| 0 <= j < certificates@.len() && certificates@[j]@.header.author == a;
                assert(certificates@[j]@ == g[k]);
            }
        }
        assert(authors@.to_set() =~= sup);
    }
    authors
}

/// The block responses after `block` is recorded at `latest_height`: it is added, and the
/// responses at or below the latest height are dropped.
pub open spec fn spec_record(m: Map<u32, SyncBlock>, block: SyncBlock, latest_height: u32) -> Map<u32, SyncBlock> {
    Map::new(
        |k: u32| (m.contains_key(k) || k == block.height) && k > latest_height,
        |k: u32| if k == block.height { block } else { m[k] },
    )
}

/// A recorded block response is held exactly when its height is above the latest height;
/// the responses at or below the latest height are gone, and the others are kept.
pub proof fn law_recorded_response_is_held(m: Map<u32, SyncBlock>, block: SyncBlock, latest_height: u32)
    ensures
        spec_record(m, block, latest_height).contains_key(block.height) <==> block.height > latest_height,
        block.height > latest_height ==> spec_record(m, block, latest_height)[block.height] == block,
        forall|k: u32| #[trigger] spec_record(m, block, latest_height).contains_key(k) ==> k > latest_height,
        forall|k: u32| #[trigger] m.contains_key(k) && k > latest_height ==> spec_record(m, block, latest_height).contains_key(k),
{
}

/// The heights of the linked blocks below `h` (down to `low`, inclusive), in ascending
/// order: walking down from `h - 1`, a block whose leader certificate a path from `current`
/// reaches joins the chain and becomes the new `current`. A missing block, or one without
/// a leader certificate, fails the walk.
pub open spec fn spec_linked_chain(
    m: Map<u32, SyncBlock>,
    g: Map<RoundAuthor, BatchCertificateView>,
    low: u32,
    h: u32,
    current: BatchCertificateView,
) -> Result<Seq<u32>, SyncError>
    decreases h,
{
    if h <= low {
        Ok(Seq::empty())
    } else {
        let k = (h - 1) as u32;
        if !m.contains_key(k) {
            Err(SyncError::MissingBlock(k))
        } else {
            match leader_of(m[k]) {
                None => Err(SyncError::UnexpectedAuthority(k)),
                Some(p) => if reaches(g, current, p.header.round as int, p) {
                    match spec_linked_chain(m, g, low, k, p) {
                        Ok(v) => Ok(v.push(k)),
                        Err(e) => Err(e),
                    }
                } else {
                    spec_linked_chain(m, g, low, k, current)
                },
            }
        }
    }
}

/// What the sync rules release for the block at `next_height`: nothing if its leader
/// certificate lacks the availability threshold of support in the next round; else the
/// heights of the blocks to add, in order: the linked blocks above the latest height, then
/// the block itself.
pub open spec fn spec_blocks_to_commit(
    m: Map<u32, SyncBlock>,
    g: Map<RoundAuthor, BatchCertificateView>,
    latest_height: u32,
    next_height: u32,
    committee_lookback: Committee,
) -> Result<Option<Seq<u32>>, SyncError> {
    match leader_of(m[next_height]) {
        None => Err(SyncError::UnexpectedAuthority(next_height)),
        Some(leader) => {
            let certificate_round = if leader.header.round < u64::MAX {
                (leader.header.round + 1) as u64
            } else {
                u64::MAX
            };
            if !committee_lookback.spec_is_available(supporters(g, certificate_round, leader.id)) {
                Ok(None)
            } else {
                let low = if latest_height < u32::MAX { (latest_height + 1) as u32 } else { u32::MAX };
                match spec_linked_chain(m, g, low, next_height, leader) {
                    Ok(v) => Ok(Some(v.push(next_height))),
                    Err(e) => Err(e),
                }
            }
        },
    }
}

/// A held block whose leader certificate is included, in the next round, by authors holding
/// at least the availability threshold (f + 1) of the committee lookback's stake is released:
/// once the chain of linked blocks below it can be walked, the result is the heights to add,
/// ending with the block's own height. With less support, nothing is released.
pub proof fn law_available_leader_releases_block(
    m: Map<u32, SyncBlock>,
    g: Map<RoundAuthor, BatchCertificateView>,
    latest_height: u32,
    next_height: u32,
    committee_lookback: Committee,
    leader: BatchCertificateView,
)
    requires
        leader_of(m[next_height]) == Some(leader),
        leader.header.round < u64::MAX,
        latest_height < u32::MAX,
    ensures
        spec_stake_in(committee_lookback.spec_members(), supporters(g, (leader.header.round + 1) as u64, leader.id))
            >= committee_lookback.spec_availability_threshold()
            && spec_linked_chain(m, g, (latest_height + 1) as u32, next_height, leader) is Ok
            ==> (spec_blocks_to_commit(m, g, latest_height, next_height, committee_lookback) matches Ok(Some(v))
                && v.len() > 0 && v.last() == next_height),
        spec_stake_in(committee_lookback.spec_members(), supporters(g, (leader.header.round + 1) as u64, leader.id))
            < committee_lookback.spec_availability_threshold()
            ==> spec_blocks_to_commit(m, g, latest_height, next_height, committee_lookback)
                == Ok::<Option<Seq<u32>>, SyncError>(None),
{
}

/// The state of the sync module: the certificate requests in flight, each waiting with
/// callbacks of type `C`, and the block responses not yet in the ledger, by height.
pub struct Sync<C> {
    pending: Pending<Field, C>,
    latest_block_responses: AssocMap<u32, SyncBlock>,
}

impl<C> Sync<C> {
    /// The certificate requests in flight.
    pub closed spec fn pending_view(&self) -> Map<Field, Seq<PendingCallback<C>>> {
        self.pending@
    }

    /// The block responses, by height.
    pub closed spec fn responses(&self) -> Map<u32, SyncBlock> {
        self.latest_block_responses@
    }

    /// The queues are well formed.
    pub closed spec fn wf(&self) -> bool {
        self.pending.wf() && self.latest_block_responses.wf()
    }

    /// Initializes the sync state with no requests and no block responses.
    pub fn new() -> (r: Self)
        ensures
            r.wf(),
            r.pending_view() == Map::<Field, Seq<PendingCallback<C>>>::empty(),
            r.responses() == Map::<u32, SyncBlock>::empty(),
    {
        Sync { pending: Pending::new(), latest_block_responses: AssocMap::new() }
    }

    /// Returns the queue of certificate requests in flight.
    pub fn pending(&self) -> (r: &Pending<Field, C>)
        ensures
            r@ == self.pending_view(),
            self.wf() ==> r.wf(),
    {
        &self.pending
    }

    /// Returns `true` if a response for the block height is held.
    pub fn contains_block_response(&self, height: u32) -> (r: bool)
        requires
            self.wf(),
        ensures
            r == self.responses().contains_key(height),
    {
        self.latest_block_responses.contains_key(&height)
    }

    /// Records a block response at the latest ledger height. A block that the ledger holds
    /// (`in_ledger`) or that is already recorded is skipped (returns `false`); otherwise it
    /// is recorded and the responses at or below the latest height are dropped.
    pub fn record_block_response(&mut self, block: SyncBlock, in_ledger: bool, latest_height: u32) -> (r: bool)
        requires
            old(self).wf(),
        ensures
            final(self).wf(),
            final(self).pending_view() == old(self).pending_view(),
            r == !(in_ledger || old(self).responses().contains_key(block.height)),
            !r ==> final(self).responses() == old(self).responses(),
            r ==> final(self).responses() == spec_record(old(self).responses(), block, latest_height),
    {
        if in_ledger || self.latest_block_responses.contains_key(&block.height) {
            return false;
        }
        let ghost b = block;
        self.latest_block_responses.insert(block.height, block);
        let ghost m1 = self.latest_block_responses@;
        let keys = self.response_heights();
        let mut i: usize = 0;
        while i < keys.len()
            invariant
                self.latest_block_responses.wf(),
                self.pending.wf(),
                self.pending_view() == old(self).pending_view(),
                keys@.to_set() == m1.dom(),
                i <= keys@.len(),
                self.latest_block_responses@ == Map::new(
                    |k: u32| m1.contains_key(k) && (k > latest_height || !keys@.take(i as int).contains(k)),
                    |k: u32| m1[k],
                ),
            decreases keys@.len() - i,
        {
            let k = keys[i];
            if k <= latest_height {
                self.latest_block_responses.remove(&k);
            }
            proof {
                let t0 = keys@.take(i as int);
                let t1 = keys@.take(i + 1);
                assert(t1 == t0.push(k));
                assert forall|x: u32| t1.contains(x) <==> (t0.contains(x) || x == k) by {
                    if t1.contains(x) {
                        let j = choose|j: int| 0 <= j < t1.len() && t1[j] == x;
                        if j < t0.len() {
                            assert(t0[j] == x);
                        }
                    }
                    if t0.contains(x) {
                        let j = choose|j: int| 0 <= j < t0.len() && t0[j] == x;
                        assert(t1[j] == x);
                    }
                    if x == k {
                        assert(t1[i as int] == x);
                    }
                }
            }
            i = i + 1;
            assert(self.latest_block_responses@ =~= Map::new(
                |k: u32| m1.contains_key(k) && (k > latest_height || !keys@.take(i as int).contains(k)),
                |k: u32| m1[k],
            ));
        }
        proof {
            assert(keys@.take(keys@.len() as int) =~= keys@);
            assert forall|x: u32| keys@.contains(x) <==> m1.contains_key(x) by {
                assert(keys@.to_set().contains(x) == keys@.contains(x));
            }
            assert(self.latest_block_responses@ =~= spec_record(old(self).responses(), b, latest_height));
        }
        true
    }

    /// The heights of the block responses, each once.
    fn response_heights(&self) -> (r: Vec<u32>)
        requires
            self.latest_block_responses.wf(),
        ensures
            r@.to_set() == self.responses().dom(),
    {
        proof {
            self.latest_block_responses.lemma_view();
        }
        let n = self.latest_block_responses.len();
        let mut out: Vec<u32> = Vec::new();
        let mut i: usize = 0;
        while i < n
            invariant
                n == self.latest_block_responses.seq().len(),
                self.latest_block_responses.wf(),
                i <= n,
                out@.len() == i,
                forall|j: int| 0 <= j < i ==> #[trigger] out@[j] == self.latest_block_responses.seq()[j].0,
            decreases n - i,
        {
            let e = self.latest_block_responses.get_index(i);
            out.push(e.0);
            i = i + 1;
        }
        proof {
            let s = self.latest_block_responses.seq();
            assert forall|p: u32| out@.to_set().contains(p) <==> self.responses().contains_key(p) by {
                if out@.to_set().contains(p) {
                    let j = choose|j: int| 0 <= j < out@.len() && out@[j] == p;
                    assert(self.latest_block_responses@.contains_key(s[j].0));
                }
                if self.responses().contains_key(p) {
                    let j = choose|j: int| 0 <= j < s.len() && s[j].0 == p;
                    assert(out@[j] == p);
                }
            }
            assert(out@.to_set() =~= self.responses().dom());
        }
        out
    }

    /// Returns the heights of the held responses that continue the ledger: the latest
    /// height plus one, plus two, and so on, as long as a response is held (and the height
    /// fits in a `u32`).
    pub fn contiguous_heights(&self, latest_height: u32) -> (r: Vec<u32>)
        requires
            self.wf(),
        ensures
            forall|i: int| 0 <= i < r@.len() ==> r@[i] == latest_height + 1 + i && self.responses().contains_key(
                #[trigger] r@[i],
            ),
            latest_height + 1 + r@.len() <= u32::MAX ==> !self.responses().contains_key(
                (latest_height + 1 + r@.len()) as u32,
            ),
    {
        let mut out: Vec<u32> = Vec::new();
        if latest_height == u32::MAX {
            return out;
        }
        let mut h: u32 = latest_height + 1;
        loop
            invariant
                self.wf(),
                latest_height < h,
                out@.len() == h - latest_height - 1,
                forall|i: int| 0 <= i < out@.len() ==> out@[i] == latest_height + 1 + i && self.responses().contains_key(
                    #[trigger] out@[i],
                ),
            decreases u32::MAX - h,
        {
            if !self.latest_block_responses.contains_key(&h) {
                return out;
            }
            out.push(h);
            if h == u32::MAX {
                return out;
            }
            h = h + 1;
        }
    }

    /// Returns `true` if the block at `height` is the next one for the ledger at
    /// `latest_height`.
    pub fn is_next_block(height: u32, latest_height: u32) -> (r: bool)
        ensures
            r == (height == if latest_height < u32::MAX { latest_height + 1 } else { u32::MAX as int }),
    {
        height == latest_height.saturating_add(1)
    }

    /// Removes the response for the block height.
    pub fn remove_block_response(&mut self, height: u32)
        requires
            old(self).wf(),
        ensures
            final(self).wf(),
            final(self).pending_view() == old(self).pending_view(),
            final(self).responses() == old(self).responses().remove(height),
    {
        self.latest_block_responses.remove(&height);
    }

    /// Drops every block response (once the node is synced).
    pub fn clear_block_responses(&mut self)
        requires
            old(self).wf(),
        ensures
            final(self).wf(),
            final(self).pending_view() == old(self).pending_view(),
            final(self).responses() == Map::<u32, SyncBlock>::empty(),
    {
        self.latest_block_responses = AssocMap::new();
    }

    /// Walks down from `h - 1` to `low`, collecting the heights of the blocks linked to
    /// `current` (see `spec_linked_chain`).
    fn linked_chain(&self, low: u32, h: u32, current: &BatchCertificate, storage: &DAG) -> (r: Result<Vec<u32>, SyncError>)
        requires
            self.wf(),
            storage.wf(),
        ensures
            (match r {
                Ok(v) => Ok::<Seq<u32>, SyncError>(v@),
                Err(e) => Err(e),
            }) == spec_linked_chain(self.responses(), storage@.graph, low, h, current@),
        decreases h,
    {
        if h <= low {
            return Ok(Vec::new());
        }
        let k = h - 1;
        let block = match self.latest_block_responses.get(&k) {
            Some(b) => b,
            None => {
                return Err(SyncError::MissingBlock(k));
            },
        };
        let previous = match &block.leader_certificate {
            Some(c) => c,
            None => {
                return Err(SyncError::UnexpectedAuthority(k));
            },
        };
        if is_linked_in_storage(storage, previous, current) {
            match self.linked_chain(low, k, previous, storage) {
                Ok(v) => {
                    let mut v = v;
                    v.push(k);
                    Ok(v)
                },
                Err(e) => Err(e),
            }
        } else {
            self.linked_chain(low, k, current, storage)
        }
    }

    /// Decides which held blocks may enter the ledger once the block at `next_height` is
    /// considered: its leader certificate must have the availability threshold of support
    /// (by the committee lookback of its round) among the stored certificates of the next
    /// round; then the blocks above the latest height that are linked to it join it, in
    /// order. `Ok(None)` if the threshold is not reached.
    pub fn blocks_to_commit(
        &self,
        latest_height: u32,
        next_height: u32,
        committee_lookback: &Committee,
        storage: &DAG,
    ) -> (r: Result<Option<Vec<u32>>, SyncError>)
        requires
            self.wf(),
            storage.wf(),
            committee_lookback.wf(),
            self.responses().contains_key(next_height),
        ensures
            (match r {
                Ok(Some(v)) => Ok::<Option<Seq<u32>>, SyncError>(Some(v@)),
                Ok(None) => Ok(None),
                Err(e) => Err(e),
            }) == spec_blocks_to_commit(self.responses(), storage@.graph, latest_height, next_height, *committee_lookback),
    {
        let block = match self.latest_block_responses.get(&next_height) {
            Some(b) => b,
            None => {
                return Err(SyncError::MissingBlock(next_height));
            },
        };
        let leader = match &block.leader_certificate {
            Some(c) => c,
            None => {
                return Err(SyncError::UnexpectedAuthority(next_height));
            },
        };
        let certificate_round = leader.round().saturating_add(1);
        let authors = supporting_authors(storage, certificate_round, leader.id());
        if !committee_lookback.is_availability_threshold_reached(&authors) {
            return Ok(None);
        }
        let low = latest_height.saturating_add(1);
        match self.linked_chain(low, next_height, leader, storage) {
            Ok(v) => {
                let mut v = v;
                v.push(next_height);
                Ok(Some(v))
            },
            Err(e) => Err(e),
        }
    }

    /// Registers a request for the certificate from the peer at time `now`, with its
    /// callback, and decides whether it is to be sent: at most as many requests as the
    /// redundancy factor of the committee lookback are in flight, and each peer has at most
    /// one. Returns `true` if the request is to be sent.
    pub fn send_certificate_request(
        &mut self,
        now: i64,
        peer_ip: PeerIp,
        certificate_id: Field,
        committee_lookback: Option<&Committee>,
        callback: C,
    ) -> (r: bool)
        requires
            old(self).wf(),
            committee_lookback matches Some(c) ==> c.wf(),
        ensures
            final(self).wf(),
            final(self).responses() == old(self).responses(),
            ({
                let cleared = clear_item(old(self).pending_view(), now, certificate_id);
                let redundancy = spec_max_redundant_requests(
                    match committee_lookback {
                        Some(c) => c.spec_members().len() as int,
                        None => crate::committee::MAX_COMMITTEE_SIZE as int,
                    },
                );
                let peer_asked = crate::helpers::pending::peer_asked(cleared, certificate_id, peer_ip);
                &&& r == (num_sent_of(cleared, certificate_id) < redundancy && !peer_asked)
                &&& final(self).pending_view() == clear_item(
                    add_callback(cleared, certificate_id, new_callback(peer_ip, Some((callback, r)), now)),
                    now,
                    certificate_id,
                )
            }),
    {
        let num_sent_requests = self.pending.num_sent_requests_at(now, certificate_id);
        let contains_peer_with_sent_request = self.pending.contains_peer_with_sent_request(certificate_id, peer_ip);
        let num_redundant_requests = max_redundant_requests(committee_lookback);
        let should_send_request = num_sent_requests < num_redundant_requests && !contains_peer_with_sent_request;
        self.pending.insert_at(now, certificate_id, peer_ip, Some((callback, should_send_request)));
        should_send_request
    }

    /// Handles a certificate response from a peer: if the peer is among those the
    /// certificate was asked of, the request is finished: it is removed and its waiting
    /// callbacks are returned for the caller to notify. Otherwise nothing changes.
    pub fn finish_certificate_request(&mut self, peer_ip: PeerIp, certificate_id: Field) -> (r: Option<Vec<C>>)
        requires
            old(self).wf(),
        ensures
            final(self).wf(),
            final(self).responses() == old(self).responses(),
            ({
                let m = old(self).pending_view();
                let finishes = m.contains_key(certificate_id) && peers_of(m[certificate_id]).contains(peer_ip);
                &&& (r is Some <==> finishes)
                &&& (finishes ==> final(self).pending_view() == m.remove(certificate_id))
                &&& (!finishes ==> final(self).pending_view() == m)
                &&& (r matches Some(callbacks) ==> callbacks@ == crate::helpers::pending::callbacks_of(m[certificate_id]))
            }),
    {
        if self.pending.contains_peer(certificate_id, peer_ip) {
            match self.pending.remove(certificate_id) {
                Some((_, callbacks)) => Some(callbacks),
                None => None,
            }
        } else {
            None
        }
    }

    /// Removes the callbacks of the certificate requests that have expired at time `now`.
    pub fn clear_expired_callbacks_at(&mut self, now: i64)
        requires
            old(self).wf(),
        ensures
            final(self).wf(),
            final(self).responses() == old(self).responses(),
            final(self).pending_view() == crate::helpers::pending::clear_all(old(self).pending_view(), now),
    {
        self.pending.clear_expired_callbacks_at(now);
    }
}

/// The text of a sync error.
pub open spec fn spec_sync_message(e: SyncError) -> Seq<char> {
    match e {
        SyncError::MaxGcRoundsTooLarge => "The maximum number of GC rounds does not fit in a block height"@,
        SyncError::UnexpectedAuthority(h) => "Received block "@ + decimal(h as nat) + " with an unexpected authority type."@,
        SyncError::MissingBlock(h) => "Block "@ + decimal(h as nat) + " is missing from the latest block responses."@,
    }
}

impl SyncError {
    /// The error's message.
    pub fn message(&self) -> (r: String)
        ensures
            r@ == spec_sync_message(*self),
    {
        let mut s = String::new();
        match self {
            SyncError::MaxGcRoundsTooLarge => {
                s.append("The maximum number of GC rounds does not fit in a block height");
            },
            SyncError::UnexpectedAuthority(h) => {
                s.append("Received block ");
                push_decimal(&mut s, *h as u128);
                s.append(" with an unexpected authority type.");
            },
            SyncError::MissingBlock(h) => {
                s.append("Block ");
                push_decimal(&mut s, *h as u128);
                s.append(" is missing from the latest block responses.");
            },
        }
        s
    }
}

} // verus!
