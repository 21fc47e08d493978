//! The decisions of the BFT: when a round is ready to advance, which leader certificate to
//! commit, the chain of earlier leaders linked to it, the order of the committed subDAG and
//! the transmissions it carries.
use vstd::prelude::*;
use crate::committee::{Committee, spec_stake_in, spec_stake_of};
use crate::dag::{DAG, DagView, RoundAuthor, RoundId, above_gc, spec_commit, spec_insert};
use crate::types::{
    Address, BatchCertificate, BatchCertificateView, Field, TransmissionID, contains_field,
};
use crate::MAX_LEADER_CERTIFICATE_DELAY_IN_SECS;
use crate::ordering::{is_failed_order, is_ordered_subdag};
use crate::text::{decimal, fmt_id_text, push_decimal, push_fmt_id};
use vstd::string::StringExecFns;

verus! {

/// The set of authors of the certificates.
pub open spec fn authors_of(certs: Seq<BatchCertificateView>) -> Set<Address> {
    Set::new(|a: Address| exists|i: int| 0 <= i < certs.len() && certs[i].header.author == a)
}

/// The authors of the certificates, in order.
pub fn certificate_authors(certs: &Vec<BatchCertificate>) -> (r: Vec<Address>)
    ensures
        r@.len() == certs@.len(),
        forall|i: int| 0 <= i < r@.len() ==> r@[i] == certs@[i]@.header.author,
        r@.to_set() == authors_of(certs@.map_values(|c: BatchCertificate| c@)),
{
    let mut out: Vec<Address> = Vec::new();
    let mut i: usize = 0;
    while i < certs.len()
        invariant
            i <= certs@.len(),
            out@.len() == i,
            forall|j: int| 0 <= j < i ==> out@[j] == certs@[j]@.header.author,
        decreases certs@.len() - i,
    {
        out.push(certs[i].author());
        i = i + 1;
    }
    proof {
        let views = certs@.map_values(|c: BatchCertificate| c@);
        assert forall|a: Address| out@.to_set().contains(a) <==> authors_of(views).contains(a) by {
            if out@.to_set().contains(a) {
                let j = choose|j: int| 0 <= j < out@.len() && out@[j] == a;
                assert(views[j].header.author == a);
            }
            if authors_of(views).contains(a) {
                let j = choose|j: int| 0 <= j < views.len() && views[j].header.author == a;
                assert(out@[j] == a);
            }
        }
        assert(out@.to_set() =~= authors_of(views));
    }
    out
}

/// The views of the certificates.
pub open spec fn views(certs: Seq<BatchCertificate>) -> Seq<BatchCertificateView> {
    certs.map_values(|c: BatchCertificate| c@)
}

/// Returns `true` if the leader certificate timer, started at `timer`, has expired at `now`.
pub open spec fn spec_is_timer_expired(timer: i64, now: i64) -> bool {
    timer + MAX_LEADER_CERTIFICATE_DELAY_IN_SECS <= now
}

/// Returns `true` if the timer for the leader certificate, started at `timer`, has expired at
/// time `now` (in seconds).
pub fn is_timer_expired(timer: i64, now: i64) -> (r: bool)
    ensures
        r == spec_is_timer_expired(timer, now),
{
    (timer as i128) + (MAX_LEADER_CERTIFICATE_DELAY_IN_SECS as i128) <= now as i128
}

/// `a + b`, or `u64::MAX` where the sum does not fit.
pub open spec fn sat_add(a: int, b: int) -> int {
    if a + b > u64::MAX {
        u64::MAX as int
    } else {
        a + b
    }
}

/// The stake of the authors whose certificates include the leader certificate, and of those
/// whose certificates do not, each capped at `u64::MAX`.
pub open spec fn spec_stake_split(
    certs: Seq<BatchCertificateView>,
    leader_certificate_id: Field,
    members: Seq<(Address, u64)>,
) -> (int, int)
    decreases certs.len(),
{
    if certs.len() == 0 {
        (0, 0)
    } else {
        let (with, without) = spec_stake_split(certs.drop_last(), leader_certificate_id, members);
        let stake = spec_stake_of(members, certs.last().header.author);
        if certs.last().header.previous_certificate_ids.contains(leader_certificate_id) {
            (sat_add(with, stake), without)
        } else {
            (with, sat_add(without, stake))
        }
    }
}

/// Computes the amount of stake that has and has not signed for the leader certificate:
/// the stake of the authors whose certificates include it, and of the others.
pub fn compute_stake_for_leader_certificate(
    leader_certificate_id: Field,
    current_certificates: &Vec<BatchCertificate>,
    current_committee: &Committee,
) -> (r: (u64, u64))
    requires
        current_committee.wf(),
    ensures
        r.0 == spec_stake_split(views(current_certificates@), leader_certificate_id, current_committee.spec_members()).0,
        r.1 == spec_stake_split(views(current_certificates@), leader_certificate_id, current_committee.spec_members()).1,
{
    let ghost members = current_committee.spec_members();
    let ghost vs = views(current_certificates@);
    let mut stake_with_leader: u64 = 0;
    let mut stake_without_leader: u64 = 0;
    let mut i: usize = 0;
    while i < current_certificates.len()
        invariant
            current_committee.wf(),
            members == current_committee.spec_members(),
            vs == views(current_certificates@),
            i <= current_certificates@.len(),
            stake_with_leader == spec_stake_split(vs.subrange(0, i as int), leader_certificate_id, members).0,
            stake_without_leader == spec_stake_split(vs.subrange(0, i as int), leader_certificate_id, members).1,
        decreases current_certificates@.len() - i,
    {
        let certificate = &current_certificates[i];
        let stake = current_committee.get_stake(certificate.author());
        proof {
            assert(vs.subrange(0, i as int + 1).drop_last() =~= vs.subrange(0, i as int));
            assert(vs.subrange(0, i as int + 1).last() == certificate@);
        }
        if contains_field(certificate.previous_certificate_ids(), leader_certificate_id) {
            stake_with_leader = stake_with_leader.saturating_add(stake);
        } else {
            stake_without_leader = stake_without_leader.saturating_add(stake);
        }
        i = i + 1;
    }
    assert(vs.subrange(0, vs.len() as int) =~= vs);
    (stake_with_leader, stake_without_leader)
}

/// `true` if the even round is ready to advance: the authors of its certificates reach the
/// quorum threshold, and the leader certificate of the round is set or its timer expired.
pub open spec fn spec_even_round_ready(
    certs: Seq<BatchCertificateView>,
    committee: Committee,
    current_round: u64,
    leader_certificate_round: Option<u64>,
    timer_expired: bool,
) -> bool {
    &&& committee.spec_is_quorum(authors_of(certs))
    &&& (leader_certificate_round == Some(current_round) || timer_expired)
}

/// Returns `true` if the quorum threshold `(2f + 1)` is reached for this round under one of
/// the following conditions: the leader certificate is set for the current even round, or
/// the timer for the leader certificate has expired.
pub fn is_even_round_ready_for_next_round(
    certificates: &Vec<BatchCertificate>,
    committee: &Committee,
    current_round: u64,
    leader_certificate_round: Option<u64>,
    timer_expired: bool,
) -> (r: bool)
    requires
        committee.wf(),
    ensures
        r == spec_even_round_ready(
            views(certificates@),
            *committee,
            current_round,
            leader_certificate_round,
            timer_expired,
        ),
{
    // Retrieve the authors for the current round.
    let authors = certificate_authors(certificates);
    // Check if quorum threshold is reached.
    if !committee.is_quorum_threshold_reached(&authors) {
        return false;
    }
    // If the leader certificate is set for the current even round, return 'true'.
    if let Some(round) = leader_certificate_round {
        if round == current_round {
            return true;
        }
    }
    // If the timer has expired, the round advances without the leader.
    timer_expired
}

/// The outcome of the check of an odd round.
pub open spec fn spec_odd_round_ready(
    storage_round: u64,
    odd_round: u64,
    certs: Seq<BatchCertificateView>,
    committee_lookback: Option<Committee>,
    leader_certificate: Option<BatchCertificateView>,
    timer_expired: bool,
) -> bool {
    if storage_round != odd_round || odd_round % 2 != 1 {
        false
    } else {
        match committee_lookback {
            None => false,
            Some(committee) => {
                if !committee.spec_is_quorum(authors_of(certs)) {
                    false
                } else {
                    match leader_certificate {
                        None => true,
                        Some(leader) => {
                            let split = spec_stake_split(certs, leader.id, committee.spec_members());
                            split.0 >= committee.spec_availability_threshold() || split.1
                                >= committee.spec_quorum_threshold() || timer_expired
                        },
                    }
                }
            },
        }
    }
}

/// Returns `true` if the quorum threshold `(2f + 1)` is reached for the odd round, and one of
/// the following holds: there is no leader certificate; the leader certificate is included
/// by the availability threshold `(f + 1)`; the certificates without it reach the quorum
/// threshold; or the leader certificate timer has expired.
///
/// `storage_round` is the current round of storage, `current_certificates` the
/// certificates of that round, and `committee_lookback` the committee of the round, if the
/// ledger has it.
pub fn is_leader_quorum_or_nonleaders_available(
    storage_round: u64,
    odd_round: u64,
    current_certificates: &Vec<BatchCertificate>,
    committee_lookback: Option<&Committee>,
    leader_certificate: Option<&BatchCertificate>,
    timer_expired: bool,
) -> (r: bool)
    requires
        committee_lookback matches Some(c) ==> c.wf(),
    ensures
        r == spec_odd_round_ready(
            storage_round,
            odd_round,
            views(current_certificates@),
            match committee_lookback {
                Some(c) => Some(*c),
                None => None,
            },
            match leader_certificate {
                Some(c) => Some(c@),
                None => None,
            },
            timer_expired,
        ),
{
    // Ensure the current round matches the given round.
    if storage_round != odd_round {
        return false;
    }
    // If the current round is even, return false.
    if storage_round % 2 != 1 {
        return false;
    }
    let committee = match committee_lookback {
        Some(c) => c,
        None => return false,
    };
    // Check if quorum threshold is reached.
    let authors = certificate_authors(current_certificates);
    if !committee.is_quorum_threshold_reached(&authors) {
        return false;
    }
    // If there is no leader certificate for the previous round, return 'true'.
    let leader = match leader_certificate {
        Some(c) => c,
        None => return true,
    };
    // Compute the stake for the leader certificate.
    let (stake_with_leader, stake_without_leader) = compute_stake_for_leader_certificate(
        leader.id(),
        current_certificates,
        committee,
    );
    stake_with_leader >= committee.availability_threshold() || stake_without_leader
        >= committee.quorum_threshold() || timer_expired
}

/// What becomes of the leader certificate when the BFT checks an even round.
pub enum LeaderCertificateUpdate {
    /// The leader certificate is left as it was.
    Keep,
    /// The leader certificate is set to this value.
    Replace(Option<BatchCertificate>),
}

/// The first certificate by `author`, if any.
pub open spec fn first_by_author(certs: Seq<BatchCertificateView>, author: Address) -> Option<
    BatchCertificateView,
> {
    if exists|i: int| 0 <= i < certs.len() && certs[i].header.author == author {
        let i = choose|i: int|
            0 <= i < certs.len() && certs[i].header.author == author && forall|j: int|
                0 <= j < i ==> certs[j].header.author != author;
        Some(certs[i])
    } else {
        None
    }
}

/// Finds the first certificate by `author`.
pub fn find_by_author(certs: &Vec<BatchCertificate>, author: Address) -> (r: Option<usize>)
    ensures
        match r {
            Some(i) => i < certs@.len() && certs@[i as int]@.header.author == author && forall|j: int|
                0 <= j < i ==> certs@[j]@.header.author != author,
            None => forall|j: int| 0 <= j < certs@.len() ==> certs@[j]@.header.author != author,
        },
{
    let mut i: usize = 0;
    while i < certs.len()
        invariant
            i <= certs@.len(),
            forall|j: int| 0 <= j < i ==> certs@[j]@.header.author != author,
        decreases certs@.len() - i,
    {
        if certs[i].author() == author {
            return Some(i);
        }
        i = i + 1;
    }
    None
}

/// Updates the leader certificate to the current even round, returning whether the BFT is
/// ready to advance to the next round and what becomes of the leader certificate.
///
/// `storage_round` is the current round of storage and `current_certificates` its
/// certificates; `committee_lookback` is the committee of the round and `leader` the
/// elected leader of the round, where the ledger could give them.
pub fn update_leader_certificate_to_even_round(
    storage_round: u64,
    even_round: u64,
    current_certificates: &Vec<BatchCertificate>,
    committee_lookback: Option<&Committee>,
    leader: Option<Address>,
    timer_expired: bool,
) -> (r: (bool, LeaderCertificateUpdate))
    requires
        committee_lookback matches Some(c) ==> c.wf(),
    ensures
        (storage_round != even_round || even_round % 2 != 0 || even_round < 2) ==> !r.0
            && r.1 is Keep,
        (storage_round == even_round && even_round % 2 == 0 && even_round >= 2
            && current_certificates@.len() == 0) ==> !r.0 && r.1 == LeaderCertificateUpdate::Replace(None),
        (storage_round == even_round && even_round % 2 == 0 && even_round >= 2
            && current_certificates@.len() > 0 && (committee_lookback is None || leader is None))
            ==> !r.0 && r.1 is Keep,
        (storage_round == even_round && even_round % 2 == 0 && even_round >= 2
            && current_certificates@.len() > 0 && committee_lookback is Some && leader is Some)
            ==> {
            let found = first_by_author(views(current_certificates@), leader.unwrap());
            &&& r.1 matches LeaderCertificateUpdate::Replace(c) && (match c {
                Some(c) => found == Some(c@),
                None => found is None,
            })
            &&& r.0 == spec_even_round_ready(
                views(current_certificates@),
                *committee_lookback.unwrap(),
                even_round,
                match found {
                    Some(c) => Some(c.header.round),
                    None => None,
                },
                timer_expired,
            )
        },
{
    // Ensure the current round matches the given round.
    if storage_round != even_round {
        return (false, LeaderCertificateUpdate::Keep);
    }
    // If the current round is odd, return false.
    if storage_round % 2 != 0 || storage_round < 2 {
        return (false, LeaderCertificateUpdate::Keep);
    }
    // If there are no current certificates, set the leader certificate to 'None'.
    if current_certificates.len() == 0 {
        return (false, LeaderCertificateUpdate::Replace(None));
    }
    let committee = match committee_lookback {
        Some(c) => c,
        None => return (false, LeaderCertificateUpdate::Keep),
    };
    let leader = match leader {
        Some(l) => l,
        None => return (false, LeaderCertificateUpdate::Keep),
    };
    // Find the leader certificate, if the leader was present in the current even round.
    let ghost vs = views(current_certificates@);
    let (leader_certificate, leader_round) = match find_by_author(current_certificates, leader) {
        Some(i) => {
            proof {
                assert(vs[i as int].header.author == leader);
                assert(forall|j: int| 0 <= j < i ==> vs[j].header.author != leader);
                let k = choose|k: int|
                    0 <= k < vs.len() && vs[k].header.author == leader && forall|j: int|
                        0 <= j < k ==> vs[j].header.author != leader;
                assert(k == i as int) by {
                    if k < i {
                        assert(vs[k].header.author != leader);
                    }
                    if k > i {
                        assert(vs[i as int].header.author != leader);
                    }
                }
            }
            let c = current_certificates[i].duplicate();
            let round = c.round();
            (Some(c), Some(round))
        },
        None => {
            proof {
                assert(!(exists|j: int| 0 <= j < vs.len() && vs[j].header.author == leader));
            }
            (None, None)
        },
    };
    let ready = is_even_round_ready_for_next_round(
        current_certificates,
        committee,
        even_round,
        leader_round,
        timer_expired,
    );
    (ready, LeaderCertificateUpdate::Replace(leader_certificate))
}

/// The failures of the BFT's ordering and commit logic.
#[derive(Clone, Copy, Debug, PartialEq, Eq, Structural)]
pub enum BftError {
    /// The committee lookback of the round could not be retrieved.
    MissingCommittee(u64),
    /// The leader of the round could not be determined.
    MissingLeader(u64),
    /// The DAG holds no certificates for the round.
    MissingRoundCertificates(u64),
    /// A previous certificate (its ID and round) is neither in the DAG nor in storage.
    MissingPreviousCertificate(Field, u64),
    /// A ratification was found among the transmissions to commit.
    RatificationUnsupported,
    /// The anchor round of the subDAG (its highest round) is not the leader round.
    AnchorMismatch(u64, u64),
}

/// The text of a BFT error.
pub open spec fn spec_bft_message(e: BftError) -> Seq<char> {
    match e {
        BftError::MissingCommittee(r) => "BFT failed to retrieve the committee with lag for commit round "@ + decimal(r as nat),
        BftError::MissingLeader(r) => "BFT failed to compute the leader for commit round "@ + decimal(r as nat),
        BftError::MissingRoundCertificates(r) => "BFT failed to retrieve the certificates for certificate round "@
            + decimal(r as nat),
        BftError::MissingPreviousCertificate(id, r) => "Missing previous certificate "@ + fmt_id_text(decimal(id as nat))
            + " for round "@ + decimal(r as nat),
        BftError::RatificationUnsupported => "Ratifications are currently not supported in the BFT."@,
        BftError::AnchorMismatch(a, l) => "BFT failed to commit - the subdag anchor round "@ + decimal(a as nat)
            + " does not match the leader round "@ + decimal(l as nat),
    }
}

impl BftError {
    /// The error's message.
    pub fn message(&self) -> (r: String)
        ensures
            r@ == spec_bft_message(*self),
    {
        let mut s = String::new();
        match self {
            BftError::MissingCommittee(r) => {
                s.append("BFT failed to retrieve the committee with lag for commit round ");
                push_decimal(&mut s, *r as u128);
            },
            BftError::MissingLeader(r) => {
                s.append("BFT failed to compute the leader for commit round ");
                push_decimal(&mut s, *r as u128);
            },
            BftError::MissingRoundCertificates(r) => {
                s.append("BFT failed to retrieve the certificates for certificate round ");
                push_decimal(&mut s, *r as u128);
            },
            BftError::MissingPreviousCertificate(id, r) => {
                s.append("Missing previous certificate ");
                push_fmt_id(&mut s, *id);
                s.append(" for round ");
                push_decimal(&mut s, *r as u128);
            },
            BftError::RatificationUnsupported => {
                s.append("Ratifications are currently not supported in the BFT.");
            },
            BftError::AnchorMismatch(a, l) => {
                s.append("BFT failed to commit - the subdag anchor round ");
                push_decimal(&mut s, *a as u128);
                s.append(" does not match the leader round ");
                push_decimal(&mut s, *l as u128);
            },
        }
        s
    }
}

/// `true` if the graph holds `p` in round `r`.
pub open spec fn in_round(g: Map<RoundAuthor, BatchCertificateView>, r: int, p: BatchCertificateView) -> bool {
    exists|k: RoundAuthor| #[trigger] g.contains_key(k) && k.round == r && g[k] == p
}

/// `true` if the graph holds a certificate in round `r`.
pub open spec fn round_nonempty(g: Map<RoundAuthor, BatchCertificateView>, r: int) -> bool {
    exists|k: RoundAuthor| #[trigger] g.contains_key(k) && k.round == r
}

/// The certificates of round `r` that a path of previous-certificate links from `current`
/// reaches (`current` itself at its own round and above).
pub open spec fn reach_set(
    g: Map<RoundAuthor, BatchCertificateView>,
    current: BatchCertificateView,
    r: int,
) -> Set<BatchCertificateView>
    decreases current.header.round - r,
{
    if r >= current.header.round {
        set![current]
    } else {
        let above = reach_set(g, current, r + 1);
        Set::new(
            |p: BatchCertificateView|
                in_round(g, r, p) && exists|c: BatchCertificateView|
                    #[trigger] above.contains(c) && c.header.previous_certificate_ids.contains(p.id),
        )
    }
}

/// `true` if `p` is `current`, or a certificate of round `r` (below the round of `current`)
/// that a path of previous-certificate links from `current` reaches.
pub open spec fn reaches(
    g: Map<RoundAuthor, BatchCertificateView>,
    current: BatchCertificateView,
    r: int,
    p: BatchCertificateView,
) -> bool {
    reach_set(g, current, r).contains(p)
}

/// One step of `reaches` below the round of `current`.
pub proof fn lemma_reaches_step(
    g: Map<RoundAuthor, BatchCertificateView>,
    current: BatchCertificateView,
    r: int,
    p: BatchCertificateView,
)
    requires
        r < current.header.round,
    ensures
        reaches(g, current, r, p) == (in_round(g, r, p) && exists|c: BatchCertificateView|
            #[trigger] reaches(g, current, r + 1, c) && c.header.previous_certificate_ids.contains(p.id)),
{
    let above = reach_set(g, current, r + 1);
    if reaches(g, current, r, p) {
        let c = choose|c: BatchCertificateView|
            #[trigger] above.contains(c) && c.header.previous_certificate_ids.contains(p.id);
        assert(reaches(g, current, r + 1, c));
    }
    if in_round(g, r, p) && exists|c: BatchCertificateView|
        #[trigger] reaches(g, current, r + 1, c) && c.header.previous_certificate_ids.contains(p.id) {
        let c = choose|c: BatchCertificateView|
            #[trigger] reaches(g, current, r + 1, c) && c.header.previous_certificate_ids.contains(p.id);
        assert(above.contains(c));
    }
}

/// Whether a path leads from `current` back to `previous`, or the failure to find out: the
/// highest round in between that the DAG holds no certificates for.
pub open spec fn spec_is_linked(
    g: Map<RoundAuthor, BatchCertificateView>,
    previous: BatchCertificateView,
    current: BatchCertificateView,
) -> Result<bool, BftError> {
    if exists|r: int| previous.header.round <= r < current.header.round && !round_nonempty(g, r) {
        let r = choose|r: int|
            previous.header.round <= r < current.header.round && !round_nonempty(g, r) && forall|s: int|
                r < s < current.header.round ==> round_nonempty(g, s);
        Err(BftError::MissingRoundCertificates(r as u64))
    } else {
        Ok(reaches(g, current, previous.header.round as int, previous))
    }
}

/// `true` if a certificate of `v` has the view `p`.
pub open spec fn holds_view(v: Seq<BatchCertificate>, p: BatchCertificateView) -> bool {
    exists|i: int| 0 <= i < v.len() && v[i]@ == p
}

/// `true` if a certificate of `v` lists `id` among its previous certificates.
pub open spec fn cites(v: Seq<BatchCertificate>, id: Field) -> bool {
    exists|j: int| 0 <= j < v.len() && v[j]@.header.previous_certificate_ids.contains(id)
}

/// `true` if a certificate of `v` holds the same values as `c`.
pub fn contains_certificate(v: &Vec<BatchCertificate>, c: &BatchCertificate) -> (r: bool)
    ensures
        r == holds_view(v@, c@),
{
    let mut i: usize = 0;
    while i < v.len()
        invariant
            i <= v@.len(),
            forall|t: int| 0 <= t < i ==> v@[t]@ != c@,
        decreases v@.len() - i,
    {
        if v[i].same_as(c) {
            return true;
        }
        i = i + 1;
    }
    false
}

/// Keeps the certificates of `certs` whose ID one of the `traversal` certificates lists as
/// a previous certificate.
fn linked_step(certs: Vec<BatchCertificate>, traversal: &Vec<BatchCertificate>) -> (r: Vec<BatchCertificate>)
    ensures
        forall|p: BatchCertificateView|
            #![trigger holds_view(r@, p)]
            #![trigger holds_view(certs@, p)]
            holds_view(r@, p) <==> (holds_view(certs@, p) && cites(traversal@, p.id)),
{
    let ghost s = certs@;
    let _n: usize = certs.len();
    let mut rest = certs;
    let mut out: Vec<BatchCertificate> = Vec::new();
    let mut i: usize = 0;
    while rest.len() > 0
        invariant
            i <= s.len(),
            s.len() <= usize::MAX,
            rest@ == s.subrange(i as int, s.len() as int),
            forall|p: BatchCertificateView|
                #![trigger holds_view(out@, p)]
                #![trigger holds_view(s.subrange(0, i as int), p)]
                holds_view(out@, p) <==> (holds_view(s.subrange(0, i as int), p) && cites(traversal@, p.id)),
        decreases rest.len(),
    {
        let c = rest.remove(0);
        assert(c == s[i as int]);
        // Check whether one of the traversal certificates builds on this one.
        let mut j: usize = 0;
        let mut linked = false;
        while j < traversal.len()
            invariant
                j <= traversal@.len(),
                linked == exists|t: int|
                    0 <= t < j && traversal@[t]@.header.previous_certificate_ids.contains(c@.id),
            decreases traversal@.len() - j,
        {
            if contains_field(traversal[j].previous_certificate_ids(), c.id()) {
                linked = true;
            }
            j = j + 1;
        }
        let ghost cv = c@;
        let ghost out0 = out@;
        if linked {
            out.push(c);
        }
        proof {
            let s0 = s.subrange(0, i as int);
            let s1 = s.subrange(0, i as int + 1);
            assert forall|p: BatchCertificateView|
                #![trigger holds_view(out@, p)]
                #![trigger holds_view(s1, p)]
                holds_view(out@, p) <==> (holds_view(s1, p) && cites(traversal@, p.id)) by {
                if holds_view(out@, p) {
                    let t = choose|t: int| 0 <= t < out@.len() && out@[t]@ == p;
                    if linked && t == out@.len() - 1 {
                        assert(s1[i as int]@ == p);
                        assert(cites(traversal@, p.id));
                    } else {
                        assert(out0[t]@ == p);
                        assert(holds_view(out0, p));
                        let t2 = choose|t2: int| 0 <= t2 < s0.len() && s0[t2]@ == p;
                        assert(s1[t2]@ == p);
                    }
                }
                if holds_view(s1, p) && cites(traversal@, p.id) {
                    let t = choose|t: int| 0 <= t < s1.len() && s1[t]@ == p;
                    if t == i {
                        assert(linked);
                        assert(out@[out@.len() - 1]@ == p);
                    } else {
                        assert(s0[t]@ == p);
                        assert(holds_view(s0, p));
                        let t2 = choose|t2: int| 0 <= t2 < out0.len() && out0[t2]@ == p;
                        assert(out@[t2]@ == p);
                    }
                }
            }
        }
        i = i + 1;
    }
    proof {
        assert(s.subrange(0, s.len() as int) =~= s);
    }
    out
}

/// Returns `true` if there is a path from the previous certificate to the current
/// certificate through the certificates of the DAG.
pub fn is_linked(dag: &DAG, previous_certificate: &BatchCertificate, current_certificate: &BatchCertificate) -> (r: Result<bool, BftError>)
    requires
        dag.wf(),
    ensures
        r == spec_is_linked(dag@.graph, previous_certificate@, current_certificate@),
{
    let ghost g = dag@.graph;
    let ghost cur = current_certificate@;
    let ghost prev = previous_certificate@;
    let mut traversal: Vec<BatchCertificate> = Vec::new();
    traversal.push(current_certificate.duplicate());
    let low = previous_certificate.round();
    let mut round = current_certificate.round();
    proof {
        assert forall|p: BatchCertificateView|
            #![trigger holds_view(traversal@, p)]
            #![trigger reaches(g, cur, round as int, p)]
            holds_view(traversal@, p) <==> reaches(g, cur, round as int, p) by {
            if p == cur {
                assert(traversal@[0]@ == p);
            }
        }
    }
    while round > low
        invariant
            dag.wf(),
            g == dag@.graph,
            cur == current_certificate@,
            prev == previous_certificate@,
            low == prev.header.round,
            low <= round <= cur.header.round || (round == cur.header.round && round <= low),
            forall|p: BatchCertificateView|
                #![trigger holds_view(traversal@, p)]
                #![trigger reaches(g, cur, round as int, p)]
                holds_view(traversal@, p) <==> reaches(g, cur, round as int, p),
            forall|s: int| round <= s < cur.header.round ==> round_nonempty(g, s),
        decreases round,
    {
        round = round - 1;
        assert(round < cur.header.round);
        let certificates = match dag.get_certificates_for_round(round) {
            Some(certificates) => certificates,
            None => {
                proof {
                    let e = spec_is_linked(g, prev, cur);
                    assert(!round_nonempty(g, round as int));
                    let r = choose|r: int|
                        prev.header.round <= r < cur.header.round && !round_nonempty(g, r) && forall|s: int|
                            r < s < cur.header.round ==> round_nonempty(g, s);
                    assert(r == round as int) by {
                        if r < round {
                            assert(round_nonempty(g, round as int));
                        }
                        if r > round {
                            assert(round_nonempty(g, r));
                        }
                    }
                }
                return Err(BftError::MissingRoundCertificates(round));
            },
        };
        let ghost old_traversal = traversal@;
        traversal = linked_step(certificates, &traversal);
        proof {
            assert forall|p: BatchCertificateView|
                #![trigger holds_view(traversal@, p)]
                #![trigger reaches(g, cur, round as int, p)]
                holds_view(traversal@, p) <==> reaches(g, cur, round as int, p) by {
                lemma_reaches_step(g, cur, round as int, p);
                if holds_view(traversal@, p) {
                    assert(holds_view(certificates@, p));
                    let i = choose|i: int| 0 <= i < certificates@.len() && certificates@[i]@ == p;
                    let k = RoundAuthor { round, author: certificates@[i]@.header.author };
                    assert(g.contains_key(k) && k.round == round && g[k] == p);
                    assert(cites(old_traversal, p.id));
                    let j = choose|j: int|
                        0 <= j < old_traversal.len() && old_traversal[j]@.header.previous_certificate_ids.contains(p.id);
                    assert(holds_view(old_traversal, old_traversal[j]@));
                    assert(reaches(g, cur, round + 1, old_traversal[j]@));
                }
                if reaches(g, cur, round as int, p) {
                    let k = choose|k: RoundAuthor| #[trigger] g.contains_key(k) && k.round == round && g[k] == p;
                    let i = choose|i: int| 0 <= i < certificates@.len() && certificates@[i]@.header.author == k.author;
                    assert(certificates@[i]@ == g[k]);
                    assert(holds_view(certificates@, p));
                    let c = choose|c: BatchCertificateView|
                        #[trigger] reaches(g, cur, round + 1, c) && c.header.previous_certificate_ids.contains(p.id);
                    assert(holds_view(old_traversal, c));
                    let j = choose|j: int| 0 <= j < old_traversal.len() && old_traversal[j]@ == c;
                    assert(cites(old_traversal, p.id));
                }
            }
        }
    }
    // Check whether the traversal reached the previous certificate.
    let found = contains_certificate(&traversal, previous_certificate);
    proof {
        assert(!(exists|r: int| prev.header.round <= r < cur.header.round && !round_nonempty(g, r)));
    }
    Ok(found)
}

/// The chain of leader certificates to commit, newest first: starting from `current` (the
/// last one taken), each even round from `round` down to `stop` adds the certificate of its
/// leader if the DAG holds it and it links to `current`.
pub open spec fn spec_leader_chain(
    g: Map<RoundAuthor, BatchCertificateView>,
    leaders: Map<u64, Address>,
    stop: int,
    round: int,
    current: BatchCertificateView,
    acc: Seq<BatchCertificateView>,
) -> Result<Seq<BatchCertificateView>, BftError>
    decreases round - stop + 2,
{
    if round < stop || round < 0 {
        Ok(acc)
    } else if !leaders.contains_key(round as u64) {
        Err(BftError::MissingLeader(round as u64))
    } else {
        let k = RoundAuthor { round: round as u64, author: leaders[round as u64] };
        if !g.contains_key(k) {
            spec_leader_chain(g, leaders, stop, round - 2, current, acc)
        } else {
            match spec_is_linked(g, g[k], current) {
                Err(e) => Err(e),
                Ok(true) => spec_leader_chain(g, leaders, stop, round - 2, g[k], acc.push(g[k])),
                Ok(false) => spec_leader_chain(g, leaders, stop, round - 2, current, acc),
            }
        }
    }
}

/// Determines the leader certificates to commit with `leader_certificate`: it and each
/// earlier leader certificate since the last committed round that a path links to the
/// last one taken, newest first. `leaders` holds the elected leader of each even round.
pub fn leader_chain(
    dag: &DAG,
    leader_certificate: &BatchCertificate,
    leaders: &crate::assoc::AssocMap<u64, Address>,
) -> (r: Result<Vec<BatchCertificate>, BftError>)
    requires
        dag.wf(),
        leaders.wf(),
    ensures
        match r {
            Ok(v) => spec_leader_chain(
                dag@.graph,
                leaders@,
                dag@.last_committed_round + 2,
                leader_certificate@.header.round - 2,
                leader_certificate@,
                seq![leader_certificate@],
            ) == Ok::<Seq<BatchCertificateView>, BftError>(views(v@)),
            Err(e) => spec_leader_chain(
                dag@.graph,
                leaders@,
                dag@.last_committed_round + 2,
                leader_certificate@.header.round - 2,
                leader_certificate@,
                seq![leader_certificate@],
            ) == Err::<Seq<BatchCertificateView>, BftError>(e),
        },
{
    let ghost g = dag@.graph;
    let ghost stop_i = dag@.last_committed_round + 2;
    let ghost target = spec_leader_chain(
        g,
        leaders@,
        stop_i,
        leader_certificate@.header.round - 2,
        leader_certificate@,
        seq![leader_certificate@],
    );
    let mut chain: Vec<BatchCertificate> = Vec::new();
    chain.push(leader_certificate.duplicate());
    let mut current = leader_certificate.duplicate();
    let stop: i128 = dag.last_committed_round() as i128 + 2;
    let mut round: i128 = leader_certificate.round() as i128 - 2;
    proof {
        assert(views(chain@) =~= seq![leader_certificate@]);
    }
    while round >= stop
        invariant
            dag.wf(),
            leaders.wf(),
            g == dag@.graph,
            stop == stop_i,
            stop >= 2,
            round <= leader_certificate@.header.round,
            target == spec_leader_chain(g, leaders@, stop_i, round as int, current@, views(chain@)),
            target == spec_leader_chain(
                dag@.graph,
                leaders@,
                dag@.last_committed_round + 2,
                leader_certificate@.header.round - 2,
                leader_certificate@,
                seq![leader_certificate@],
            ),
        decreases round - stop + 2,
    {
        let r = round as u64;
        assert(r as int == round as int);
        let leader = match leaders.get(&r) {
            Some(l) => *l,
            None => {
                assert(target == Err::<Seq<BatchCertificateView>, BftError>(BftError::MissingLeader(r)));
                return Err(BftError::MissingLeader(r));
            },
        };
        match dag.get_certificate_for_round_with_author(r, leader) {
            None => {},
            Some(previous) => {
                match is_linked(dag, &previous, &current) {
                    Err(e) => {
                        assert(g[RoundAuthor { round: r, author: leader }] == previous@);
                        assert(target == Err::<Seq<BatchCertificateView>, BftError>(e));
                        return Err(e);
                    },
                    Ok(true) => {
                        let ghost before = chain@;
                        chain.push(previous.duplicate());
                        proof {
                            assert(views(chain@) =~= views(before).push(previous@));
                        }
                        current = previous;
                    },
                    Ok(false) => {},
                }
            },
        }
        round = round - 2;
    }
    Ok(chain)
}

/// The transmission IDs of the certificates, in order.
pub open spec fn concat_transmission_ids(certs: Seq<BatchCertificateView>) -> Seq<TransmissionID>
    decreases certs.len(),
{
    if certs.len() == 0 {
        Seq::empty()
    } else {
        concat_transmission_ids(certs.drop_last()) + certs.last().header.transmission_ids
    }
}

/// Collects the transmission IDs of the certificates, in order.
pub fn subdag_transmission_ids(certs: &Vec<BatchCertificate>) -> (r: Vec<TransmissionID>)
    ensures
        r@ == concat_transmission_ids(views(certs@)),
{
    let ghost vs = views(certs@);
    let mut out: Vec<TransmissionID> = Vec::new();
    let mut i: usize = 0;
    while i < certs.len()
        invariant
            vs == views(certs@),
            i <= certs@.len(),
            out@ == concat_transmission_ids(vs.subrange(0, i as int)),
        decreases certs@.len() - i,
    {
        let ids = certs[i].transmission_ids();
        let ghost before = out@;
        let mut j: usize = 0;
        while j < ids.len()
            invariant
                j <= ids@.len(),
                out@ == before + ids@.subrange(0, j as int),
            decreases ids@.len() - j,
        {
            out.push(ids[j]);
            j = j + 1;
            assert(out@ =~= before + ids@.subrange(0, j as int));
        }
        proof {
            assert(ids@.subrange(0, ids@.len() as int) =~= ids@);
            assert(vs.subrange(0, i as int + 1).drop_last() =~= vs.subrange(0, i as int));
            assert(vs.subrange(0, i as int + 1).last() == certs@[i as int]@);
        }
        i = i + 1;
    }
    assert(vs.subrange(0, vs.len() as int) =~= vs);
    out
}

/// The state of the deduplication of transmissions: the solution IDs and transaction IDs
/// taken, and the transmission IDs taken, in order.
pub struct DedupState {
    pub solution_ids: Set<u64>,
    pub transaction_ids: Set<Field>,
    pub chosen: Seq<TransmissionID>,
}

/// One step of the deduplication: a ratification is refused; a transmission whose solution
/// or transaction ID was taken, that was taken, or that the ledger holds, is passed over;
/// otherwise it is taken.
pub open spec fn dedup_step(st: DedupState, id: TransmissionID, in_ledger: bool) -> Result<DedupState, BftError> {
    match id {
        TransmissionID::Ratification => Err(BftError::RatificationUnsupported),
        TransmissionID::Solution(sid, _) => {
            if st.solution_ids.contains(sid) || st.chosen.contains(id) || in_ledger {
                Ok(st)
            } else {
                Ok(DedupState { solution_ids: st.solution_ids.insert(sid), chosen: st.chosen.push(id), ..st })
            }
        },
        TransmissionID::Transaction(tid, _) => {
            if st.transaction_ids.contains(tid) || st.chosen.contains(id) || in_ledger {
                Ok(st)
            } else {
                Ok(DedupState { transaction_ids: st.transaction_ids.insert(tid), chosen: st.chosen.push(id), ..st })
            }
        },
    }
}

/// The deduplication of the transmission IDs, in order; `in_ledger[i]` tells whether the
/// ledger holds the `i`-th one.
pub open spec fn spec_dedup(ids: Seq<TransmissionID>, in_ledger: Seq<bool>) -> Result<DedupState, BftError>
    decreases ids.len(),
{
    if ids.len() == 0 {
        Ok(DedupState { solution_ids: Set::empty(), transaction_ids: Set::empty(), chosen: Seq::empty() })
    } else {
        match spec_dedup(ids.drop_last(), in_ledger.subrange(0, ids.len() - 1)) {
            Err(e) => Err(e),
            Ok(st) => dedup_step(st, ids.last(), in_ledger[ids.len() - 1]),
        }
    }
}

/// Once the deduplication of a prefix fails, so does that of every longer prefix.
proof fn lemma_dedup_err_sticks(ids: Seq<TransmissionID>, in_ledger: Seq<bool>, n: int)
    requires
        ids.len() == in_ledger.len(),
        0 <= n <= ids.len(),
        spec_dedup(ids.subrange(0, n), in_ledger.subrange(0, n)) is Err,
    ensures
        spec_dedup(ids, in_ledger) == spec_dedup(ids.subrange(0, n), in_ledger.subrange(0, n)),
    decreases ids.len() - n,
{
    if n < ids.len() {
        let pre = ids.subrange(0, n + 1);
        assert(pre.drop_last() =~= ids.subrange(0, n));
        assert(in_ledger.subrange(0, n + 1).subrange(0, n) =~= in_ledger.subrange(0, n));
        lemma_dedup_err_sticks(ids, in_ledger, n + 1);
    } else {
        assert(ids.subrange(0, n) =~= ids);
        assert(in_ledger.subrange(0, n) =~= in_ledger);
    }
}

/// `true` if the item occurs in the vector.
fn vec_contains<T: crate::assoc::KeyEq>(v: &Vec<T>, x: &T) -> (r: bool)
    ensures
        r == v@.contains(*x),
{
    let mut i: usize = 0;
    while i < v.len()
        invariant
            i <= v@.len(),
            forall|j: int| 0 <= j < i ==> v@[j] != *x,
        decreases v@.len() - i,
    {
        if v[i].key_eq(x) {
            assert(v@[i as int] == *x);
            return true;
        }
        i = i + 1;
    }
    false
}

/// Deduplicates the transmission IDs of a subDAG, in order: a transmission is passed over if
/// its solution ID or transaction ID was already taken (under another checksum), if it was
/// already taken, or if the ledger holds it (`in_ledger`, one flag per ID). Ratifications are
/// refused.
pub fn dedup_transmission_ids(ids: &Vec<TransmissionID>, in_ledger: &Vec<bool>) -> (r: Result<Vec<TransmissionID>, BftError>)
    requires
        ids@.len() == in_ledger@.len(),
    ensures
        match r {
            Ok(v) => spec_dedup(ids@, in_ledger@) matches Ok(st) && v@ == st.chosen,
            Err(e) => spec_dedup(ids@, in_ledger@) == Err::<DedupState, BftError>(e),
        },
{
    let mut seen_solution_ids: Vec<u64> = Vec::new();
    let mut seen_transaction_ids: Vec<Field> = Vec::new();
    let mut chosen: Vec<TransmissionID> = Vec::new();
    let mut i: usize = 0;
    proof {
        assert(seen_solution_ids@.to_set() =~= Set::<u64>::empty());
        assert(seen_transaction_ids@.to_set() =~= Set::<Field>::empty());
        assert(ids@.subrange(0, 0).len() == 0);
    }
    while i < ids.len()
        invariant
            ids@.len() == in_ledger@.len(),
            i <= ids@.len(),
            spec_dedup(ids@.subrange(0, i as int), in_ledger@.subrange(0, i as int)) == Ok::<DedupState, BftError>(
                DedupState {
                    solution_ids: seen_solution_ids@.to_set(),
                    transaction_ids: seen_transaction_ids@.to_set(),
                    chosen: chosen@,
                },
            ),
        decreases ids@.len() - i,
    {
        let id = ids[i];
        let ghost st = DedupState {
            solution_ids: seen_solution_ids@.to_set(),
            transaction_ids: seen_transaction_ids@.to_set(),
            chosen: chosen@,
        };
        proof {
            let pre = ids@.subrange(0, i as int + 1);
            assert(pre.drop_last() =~= ids@.subrange(0, i as int));
            assert(in_ledger@.subrange(0, i as int + 1).subrange(0, i as int) =~= in_ledger@.subrange(0, i as int));
            assert(pre.last() == id);
        }
        match id {
            TransmissionID::Ratification => {
                proof {
                    assert(spec_dedup(ids@.subrange(0, i as int + 1), in_ledger@.subrange(0, i as int + 1))
                        == Err::<DedupState, BftError>(BftError::RatificationUnsupported));
                    lemma_dedup_err_sticks(ids@, in_ledger@, i as int + 1);
                    assert(ids@.subrange(0, ids@.len() as int) =~= ids@);
                    assert(in_ledger@.subrange(0, ids@.len() as int) =~= in_ledger@);
                }
                return Err(BftError::RatificationUnsupported);
            },
            TransmissionID::Solution(sid, _) => {
                let ghost s0 = seen_solution_ids@;
                let skip = vec_contains(&seen_solution_ids, &sid) || vec_contains(&chosen, &id) || in_ledger[i];
                if !skip {
                    seen_solution_ids.push(sid);
                    chosen.push(id);
                    proof {
                        s0.lemma_push_to_set_commute(sid);
                    }
                }
            },
            TransmissionID::Transaction(tid, _) => {
                let ghost t0 = seen_transaction_ids@;
                let skip = vec_contains(&seen_transaction_ids, &tid) || vec_contains(&chosen, &id) || in_ledger[i];
                if !skip {
                    seen_transaction_ids.push(tid);
                    chosen.push(id);
                    proof {
                        t0.lemma_push_to_set_commute(tid);
                    }
                }
            },
        }
        i = i + 1;
    }
    proof {
        assert(ids@.subrange(0, ids@.len() as int) =~= ids@);
        assert(in_ledger@.subrange(0, ids@.len() as int) =~= in_ledger@);
    }
    Ok(chosen)
}

/// The authors of the certificates of round `round` that include the certificate `id`.
pub open spec fn supporters(g: Map<RoundAuthor, BatchCertificateView>, round: u64, id: Field) -> Set<Address> {
    Set::new(
        |a: Address|
            g.contains_key(RoundAuthor { round, author: a }) && g[RoundAuthor { round, author: a }].header.previous_certificate_ids.contains(id),
    )
}

/// What the BFT decides after a certificate enters the DAG: nothing to commit, the
/// leader certificate to commit, or a failure.
pub open spec fn spec_commit_decision(
    d: DagView,
    certificate: BatchCertificateView,
    committee_lookback: Option<Committee>,
    leader: Option<Address>,
) -> Result<Option<BatchCertificateView>, BftError> {
    let round = certificate.header.round;
    let commit_round: u64 = if round >= 1 { (round - 1) as u64 } else { 0 };
    if commit_round % 2 != 0 || commit_round < 2 || commit_round <= d.last_committed_round {
        Ok(None)
    } else {
        match committee_lookback {
            None => Err(BftError::MissingCommittee(commit_round)),
            Some(committee) => match leader {
                None => Err(BftError::MissingLeader(commit_round)),
                Some(leader) => {
                    let k = RoundAuthor { round: commit_round, author: leader };
                    if !d.graph.contains_key(k) {
                        Ok(None)
                    } else if !round_nonempty(d.graph, round as int) {
                        Err(BftError::MissingRoundCertificates(round))
                    } else if committee.spec_is_available(supporters(d.graph, round, d.graph[k].id)) {
                        Ok(Some(d.graph[k]))
                    } else {
                        Ok(None)
                    }
                },
            },
        }
    }
}

/// When a certificate of the round after an even commit round (above the last committed
/// round) is in the DAG together with the leader's certificate of the commit round, the
/// leader certificate is committed exactly when the authors of the certificate's round whose
/// certificates include it hold at least the committee's availability threshold (f + 1) of
/// stake; otherwise nothing is committed.
pub proof fn law_leader_committed_at_availability(
    d: DagView,
    certificate: BatchCertificateView,
    committee: Committee,
    leader: Address,
    commit_round: u64,
)
    requires
        commit_round + 1 == certificate.header.round,
        commit_round >= 2,
        commit_round % 2 == 0,
        commit_round > d.last_committed_round,
        d.graph.contains_key(RoundAuthor { round: commit_round, author: leader }),
        d.graph.contains_key(RoundAuthor { round: certificate.header.round, author: certificate.header.author }),
    ensures
        spec_stake_in(
            committee.spec_members(),
            supporters(d.graph, certificate.header.round, d.graph[RoundAuthor { round: commit_round, author: leader }].id),
        ) >= committee.spec_availability_threshold() ==> spec_commit_decision(d, certificate, Some(committee), Some(leader))
            == Ok::<Option<BatchCertificateView>, BftError>(Some(d.graph[RoundAuthor { round: commit_round, author: leader }])),
        spec_stake_in(
            committee.spec_members(),
            supporters(d.graph, certificate.header.round, d.graph[RoundAuthor { round: commit_round, author: leader }].id),
        ) < committee.spec_availability_threshold() ==> spec_commit_decision(d, certificate, Some(committee), Some(leader))
            == Ok::<Option<BatchCertificateView>, BftError>(None),
{
    let w = RoundAuthor { round: certificate.header.round, author: certificate.header.author };
    assert(d.graph.contains_key(w) && w.round == certificate.header.round as int);
    assert(round_nonempty(d.graph, certificate.header.round as int));
}

/// In an odd round whose certificate authors hold the quorum threshold of stake, an expired
/// leader certificate timer makes the round ready to advance, whatever the leader
/// certificate; and without a leader certificate the round is ready as soon as that quorum is
/// reached.
pub proof fn law_expired_timer_advances_odd_round(
    round: u64,
    certs: Seq<BatchCertificateView>,
    committee: Committee,
    leader_certificate: Option<BatchCertificateView>,
)
    requires
        round % 2 == 1,
        spec_stake_in(committee.spec_members(), authors_of(certs)) >= committee.spec_quorum_threshold(),
    ensures
        spec_odd_round_ready(round, round, certs, Some(committee), leader_certificate, true),
        spec_odd_round_ready(round, round, certs, Some(committee), None, false),
{
}

/// In an odd round whose certificate authors hold the quorum threshold of stake, with a
/// leader certificate and an unexpired timer, the round is ready exactly when the
/// certificates that include the leader certificate carry the availability threshold
/// (f + 1) of stake, or those that do not carry the quorum threshold (2f + 1).
pub proof fn law_odd_round_leader_support(
    round: u64,
    certs: Seq<BatchCertificateView>,
    committee: Committee,
    leader: BatchCertificateView,
)
    requires
        round % 2 == 1,
        spec_stake_in(committee.spec_members(), authors_of(certs)) >= committee.spec_quorum_threshold(),
    ensures
        spec_odd_round_ready(round, round, certs, Some(committee), Some(leader), false) <==> (
            spec_stake_split(certs, leader.id, committee.spec_members()).0 >= committee.spec_availability_threshold()
            || spec_stake_split(certs, leader.id, committee.spec_members()).1 >= committee.spec_quorum_threshold()),
{
}

/// An odd round is never ready to advance unless its certificate authors hold the quorum
/// threshold of stake, whatever the leader certificate and the timer.
pub proof fn law_odd_round_needs_quorum(
    round: u64,
    certs: Seq<BatchCertificateView>,
    committee: Committee,
    leader_certificate: Option<BatchCertificateView>,
    timer_expired: bool,
)
    requires
        spec_stake_in(committee.spec_members(), authors_of(certs)) < committee.spec_quorum_threshold(),
    ensures
        !spec_odd_round_ready(round, round, certs, Some(committee), leader_certificate, timer_expired),
{
}

/// `true` if no two of the transmission IDs carry the same solution ID, nor the same
/// transaction ID.
pub open spec fn no_repeated_solution_or_transaction(s: Seq<TransmissionID>) -> bool {
    forall|i: int, j: int|
        #![trigger s[i], s[j]]
        0 <= i < j < s.len() ==> {
            &&& (s[i] is Solution && s[j] is Solution ==> s[i]->Solution_0 != s[j]->Solution_0)
            &&& (s[i] is Transaction && s[j] is Transaction ==> s[i]->Transaction_0 != s[j]->Transaction_0)
        }
}

/// What deduplication keeps as it goes: each taken solution or transaction ID is recorded as
/// taken, no ID is taken twice, and nothing the ledger holds or a ratification is taken.
pub open spec fn dedup_invariant(st: DedupState) -> bool {
    &&& no_repeated_solution_or_transaction(st.chosen)
    &&& forall|i: int| 0 <= i < st.chosen.len() ==> match #[trigger] st.chosen[i] {
        TransmissionID::Solution(sid, _) => st.solution_ids.contains(sid),
        TransmissionID::Transaction(tid, _) => st.transaction_ids.contains(tid),
        TransmissionID::Ratification => false,
    }
}

/// `true` if each chosen transmission ID is one of the IDs that the ledger does not hold.
pub open spec fn taken_from(chosen: Seq<TransmissionID>, ids: Seq<TransmissionID>, in_ledger: Seq<bool>) -> bool {
    forall|i: int| 0 <= i < chosen.len() ==> exists|k: int|
        0 <= k < ids.len() && ids[k] == #[trigger] chosen[i] && !in_ledger[k]
}

/// Deduplication keeps its invariant.
proof fn lemma_dedup_invariant(ids: Seq<TransmissionID>, in_ledger: Seq<bool>)
    requires
        ids.len() == in_ledger.len(),
    ensures
        spec_dedup(ids, in_ledger) matches Ok(st) ==> dedup_invariant(st) && taken_from(st.chosen, ids, in_ledger),
    decreases ids.len(),
{
    if ids.len() > 0 {
        let n = ids.len() - 1;
        let pre = ids.drop_last();
        let pl = in_ledger.subrange(0, n);
        lemma_dedup_invariant(pre, pl);
        match spec_dedup(pre, pl) {
            Err(_) => {},
            Ok(st) => {
                let id = ids.last();
                match dedup_step(st, id, in_ledger[n]) {
                    Err(_) => {},
                    Ok(st2) => {
                        assert forall|i: int| 0 <= i < st2.chosen.len() implies exists|k: int|
                            0 <= k < ids.len() && ids[k] == #[trigger] st2.chosen[i] && !in_ledger[k] by {
                            if i < st.chosen.len() {
                                assert(st2.chosen[i] == st.chosen[i]);
                                let k = choose|k: int| 0 <= k < pre.len() && pre[k] == st.chosen[i] && !pl[k];
                                assert(ids[k] == pre[k] && in_ledger[k] == pl[k]);
                            } else {
                                assert(st2.chosen[i] == id && ids[n] == id);
                            }
                        }
                        if st2.chosen.len() > st.chosen.len() {
                            let c = st2.chosen;
                            assert(c == st.chosen.push(id));
                            assert forall|i: int| 0 <= i < c.len() implies match #[trigger] c[i] {
                                TransmissionID::Solution(sid, _) => st2.solution_ids.contains(sid),
                                TransmissionID::Transaction(tid, _) => st2.transaction_ids.contains(tid),
                                TransmissionID::Ratification => false,
                            } by {
                                if i < st.chosen.len() {
                                    assert(c[i] == st.chosen[i]);
                                }
                            }
                            assert forall|i: int, j: int| 0 <= i < j < c.len() implies {
                                &&& (c[i] is Solution && c[j] is Solution ==> c[i]->Solution_0 != c[j]->Solution_0)
                                &&& (c[i] is Transaction && c[j] is Transaction ==> c[i]->Transaction_0 != c[j]->Transaction_0)
                            } by {
                                assert(c[i] == st.chosen[i]);
                                if j < st.chosen.len() {
                                    assert(c[j] == st.chosen[j]);
                                } else {
                                    assert(c[j] == id);
                                    match st.chosen[i] {
                                        TransmissionID::Solution(a, _) => {},
                                        TransmissionID::Transaction(a, _) => {},
                                        TransmissionID::Ratification => {},
                                    }
                                }
                            }
                        }
                    },
                }
            },
        }
    }
}

/// The transmissions handed to consensus never carry one solution ID twice, nor one
/// transaction ID twice (whatever their checksums), never hold a ratification, and are each
/// one of the subDAG's transmission IDs that the ledger does not hold.
pub proof fn law_dedup_takes_each_solution_and_transaction_once(ids: Seq<TransmissionID>, in_ledger: Seq<bool>)
    requires
        ids.len() == in_ledger.len(),
    ensures
        spec_dedup(ids, in_ledger) matches Ok(st) ==> {
            &&& no_repeated_solution_or_transaction(st.chosen)
            &&& forall|i: int| 0 <= i < st.chosen.len() ==> !(#[trigger] st.chosen[i] is Ratification)
            &&& taken_from(st.chosen, ids, in_ledger)
        },
{
    lemma_dedup_invariant(ids, in_ledger);
    if let Ok(st) = spec_dedup(ids, in_ledger) {
        assert forall|i: int| 0 <= i < st.chosen.len() implies !(#[trigger] st.chosen[i] is Ratification) by {
            match st.chosen[i] {
                TransmissionID::Ratification => {},
                _ => {},
            }
        }
    }
}

/// The state of the BFT: the DAG, the certificate of the leader of the current even round
/// (if one was present), and the time at which the leader certificate timer started.
pub struct BFT {
    dag: DAG,
    leader_certificate: Option<BatchCertificate>,
    leader_certificate_timer: i64,
}

impl BFT {
    /// The BFT state is well formed.
    pub open spec fn wf(&self) -> bool {
        self.dag_wf()
    }

    /// The DAG is well formed.
    pub closed spec fn dag_wf(&self) -> bool {
        self.dag.wf()
    }

    /// The DAG.
    pub closed spec fn spec_dag(&self) -> DagView {
        self.dag@
    }

    /// The leader certificate.
    pub closed spec fn spec_leader_certificate(&self) -> Option<BatchCertificateView> {
        match self.leader_certificate {
            Some(c) => Some(c@),
            None => None,
        }
    }

    /// The time at which the leader certificate timer started.
    pub closed spec fn spec_timer(&self) -> i64 {
        self.leader_certificate_timer
    }

    /// Initializes the BFT state: an empty DAG, no leader certificate, and a timer started at
    /// time zero.
    pub fn new() -> (r: BFT)
        ensures
            r.wf(),
            r.spec_dag().graph == Map::<RoundAuthor, BatchCertificateView>::empty(),
            r.spec_dag().committed == Set::<RoundId>::empty(),
            r.spec_dag().last_committed_round == 0,
            r.spec_leader_certificate() is None,
            r.spec_timer() == 0,
    {
        BFT { dag: DAG::new(), leader_certificate: None, leader_certificate_timer: 0 }
    }

    /// Initializes the BFT state over the given DAG.
    pub fn with_dag(dag: DAG) -> (r: BFT)
        requires
            dag.wf(),
        ensures
            r.wf(),
            r.spec_dag() == dag@,
            r.spec_leader_certificate() is None,
            r.spec_timer() == 0,
    {
        BFT { dag, leader_certificate: None, leader_certificate_timer: 0 }
    }

    /// Returns the DAG.
    pub fn dag(&self) -> (r: &DAG)
        ensures
            r@ == self.spec_dag(),
            self.wf() ==> r.wf(),
    {
        &self.dag
    }

    /// Returns the leader of the current even round, if one was present.
    pub fn leader(&self) -> (r: Option<Address>)
        ensures
            r == (match self.spec_leader_certificate() {
                Some(c) => Some(c.header.author),
                None => None,
            }),
    {
        match &self.leader_certificate {
            Some(c) => Some(c.author()),
            None => None,
        }
    }

    /// Returns the certificate of the leader from the current even round, if one was present.
    pub fn leader_certificate(&self) -> (r: &Option<BatchCertificate>)
        ensures
            match r {
                Some(c) => self.spec_leader_certificate() == Some(c@),
                None => self.spec_leader_certificate() is None,
            },
    {
        &self.leader_certificate
    }

    /// Sets the leader certificate.
    pub fn set_leader_certificate(&mut self, certificate: Option<BatchCertificate>)
        ensures
            final(self).spec_dag() == old(self).spec_dag(),
            final(self).wf() == old(self).wf(),
            final(self).spec_timer() == old(self).spec_timer(),
            final(self).spec_leader_certificate() == (match certificate {
                Some(c) => Some(c@),
                None => None,
            }),
    {
        self.leader_certificate = certificate;
    }

    /// Returns `true` if the timer for the leader certificate has expired at time `now`.
    pub fn is_timer_expired(&self, now: i64) -> (r: bool)
        ensures
            r == spec_is_timer_expired(self.spec_timer(), now),
    {
        is_timer_expired(self.leader_certificate_timer, now)
    }

    /// Restarts the leader certificate timer at time `now`, as the round advanced.
    pub fn restart_leader_certificate_timer(&mut self, now: i64)
        ensures
            final(self).spec_dag() == old(self).spec_dag(),
            final(self).wf() == old(self).wf(),
            final(self).spec_leader_certificate() == old(self).spec_leader_certificate(),
            final(self).spec_timer() == now,
    {
        self.leader_certificate_timer = now;
    }

    /// Finishes an update of the round: where the BFT was `ready` and storage then advanced
    /// to the next round (`increment_ok`), the leader certificate timer restarts at `now`
    /// and `true` is returned; otherwise nothing changes and `false` is returned (a failed
    /// increment leaves the round where it was).
    pub fn finish_round_update(&mut self, ready: bool, increment_ok: bool, now: i64) -> (r: bool)
        ensures
            r == (ready && increment_ok),
            final(self).spec_dag() == old(self).spec_dag(),
            final(self).wf() == old(self).wf(),
            final(self).spec_leader_certificate() == old(self).spec_leader_certificate(),
            r ==> final(self).spec_timer() == now,
            !r ==> final(self).spec_timer() == old(self).spec_timer(),
    {
        if ready && increment_ok {
            self.restart_leader_certificate_timer(now);
            true
        } else {
            false
        }
    }

    /// Decides whether the BFT is ready to advance from `current_round`, given the round of
    /// storage and its certificates, the committee lookback and the elected leader of the
    /// round (where the ledger gave them), at time `now`. On an even round the leader
    /// certificate is updated. The caller advances storage when the result is `true`, and
    /// then hands both outcomes to `finish_round_update`, which restarts the timer.
    pub fn update_to_next_round(
        &mut self,
        storage_round: u64,
        current_round: u64,
        current_certificates: &Vec<BatchCertificate>,
        committee_lookback: Option<&Committee>,
        leader: Option<Address>,
        now: i64,
    ) -> (r: bool)
        requires
            old(self).wf(),
            committee_lookback matches Some(c) ==> c.wf(),
        ensures
            final(self).wf(),
            final(self).spec_dag() == old(self).spec_dag(),
            final(self).spec_timer() == old(self).spec_timer(),
            current_round < storage_round ==> !r && final(self).spec_leader_certificate() == old(self).spec_leader_certificate(),
            current_round >= storage_round && current_round % 2 == 1 ==> {
                &&& final(self).spec_leader_certificate() == old(self).spec_leader_certificate()
                &&& r == spec_odd_round_ready(
                    storage_round,
                    current_round,
                    views(current_certificates@),
                    match committee_lookback {
                        Some(c) => Some(*c),
                        None => None,
                    },
                    old(self).spec_leader_certificate(),
                    spec_is_timer_expired(old(self).spec_timer(), now),
                )
            },
            current_round >= storage_round && current_round % 2 == 0 ==> {
                let timer_expired = spec_is_timer_expired(old(self).spec_timer(), now);
                if storage_round != current_round || current_round < 2 || (current_certificates@.len() > 0
                    && (committee_lookback is None || leader is None)) {
                    !r && final(self).spec_leader_certificate() == old(self).spec_leader_certificate()
                } else if current_certificates@.len() == 0 {
                    !r && final(self).spec_leader_certificate() is None
                } else {
                    let found = first_by_author(views(current_certificates@), leader.unwrap());
                    &&& final(self).spec_leader_certificate() == found
                    &&& r == spec_even_round_ready(
                        views(current_certificates@),
                        *committee_lookback.unwrap(),
                        current_round,
                        match found {
                            Some(c) => Some(c.header.round),
                            None => None,
                        },
                        timer_expired,
                    )
                }
            },
    {
        // Ensure the current round is at least the storage round.
        if current_round < storage_round {
            return false;
        }
        let timer_expired = self.is_timer_expired(now);
        if current_round % 2 == 0 {
            let (ready, update) = update_leader_certificate_to_even_round(
                storage_round,
                current_round,
                current_certificates,
                committee_lookback,
                leader,
                timer_expired,
            );
            match update {
                LeaderCertificateUpdate::Keep => {},
                LeaderCertificateUpdate::Replace(c) => {
                    self.leader_certificate = c;
                },
            }
            ready
        } else {
            is_leader_quorum_or_nonleaders_available(
                storage_round,
                current_round,
                current_certificates,
                committee_lookback,
                self.leader_certificate.as_ref(),
                timer_expired,
            )
        }
    }

    /// Stores the certificate in the DAG, and decides whether a leader certificate is ready
    /// to be committed: the leader of the round below an odd certificate round, once the
    /// authors of the certificate round that include it reach the availability threshold.
    /// `committee_lookback` and `leader` are those of that commit round, where the ledger
    /// gave them.
    pub fn update_dag(
        &mut self,
        certificate: BatchCertificate,
        committee_lookback: Option<&Committee>,
        leader: Option<Address>,
    ) -> (r: Result<Option<BatchCertificate>, BftError>)
        requires
            old(self).wf(),
            committee_lookback matches Some(c) ==> c.wf(),
        ensures
            final(self).wf(),
            final(self).spec_dag() == spec_insert(old(self).spec_dag(), certificate@),
            final(self).spec_leader_certificate() == old(self).spec_leader_certificate(),
            final(self).spec_timer() == old(self).spec_timer(),
            (match r {
                Ok(Some(c)) => Ok::<Option<BatchCertificateView>, BftError>(Some(c@)),
                Ok(None) => Ok(None),
                Err(e) => Err(e),
            }) == spec_commit_decision(
                final(self).spec_dag(),
                certificate@,
                match committee_lookback {
                    Some(c) => Some(*c),
                    None => None,
                },
                leader,
            ),
    {
        let certificate_round = certificate.round();
        let ghost cv = certificate@;
        // Insert the certificate into the DAG.
        self.dag.insert(certificate);
        let ghost d = self.dag@;
        // Construct the commit round.
        let commit_round = if certificate_round >= 1 { certificate_round - 1 } else { 0 };
        // If the commit round is odd, or at or below the last committed round, return early.
        if commit_round % 2 != 0 || commit_round < 2 || commit_round <= self.dag.last_committed_round() {
            return Ok(None);
        }
        let committee = match committee_lookback {
            Some(c) => c,
            None => return Err(BftError::MissingCommittee(commit_round)),
        };
        let leader = match leader {
            Some(l) => l,
            None => return Err(BftError::MissingLeader(commit_round)),
        };
        // Retrieve the leader certificate for the commit round.
        let leader_certificate = match self.dag.get_certificate_for_round_with_author(commit_round, leader) {
            Some(c) => c,
            None => return Ok(None),
        };
        // Retrieve all of the certificates for the certificate round.
        let certificates = match self.dag.get_certificates_for_round(certificate_round) {
            Some(c) => c,
            None => return Err(BftError::MissingRoundCertificates(certificate_round)),
        };
        // The authors who included the leader's certificate in the certificate round.
        let leader_id = leader_certificate.id();
        let mut authors: Vec<Address> = Vec::new();
        let mut i: usize = 0;
        while i < certificates.len()
            invariant
                self.wf(),
                d == self.dag@,
                i <= certificates@.len(),
                forall|j: int|
                    0 <= j < certificates@.len() ==> d.graph.contains_key(
                        RoundAuthor { round: certificate_round, author: #[trigger] certificates@[j]@.header.author },
                    ) && certificates@[j]@ == d.graph[RoundAuthor { round: certificate_round, author: certificates@[j]@.header.author }],
                forall|a: Address|
                    authors@.contains(a) <==> exists|j: int|
                        0 <= j < i && certificates@[j]@.header.author == a
                            && certificates@[j]@.header.previous_certificate_ids.contains(leader_id),
            decreases certificates@.len() - i,
        {
            let ghost a0 = authors@;
            if contains_field(certificates[i].previous_certificate_ids(), leader_id) {
                authors.push(certificates[i].author());
            }
            proof {
                assert forall|a: Address|
                    authors@.contains(a) <==> exists|j: int|
                        0 <= j < i + 1 && certificates@[j]@.header.author == a
                            && certificates@[j]@.header.previous_certificate_ids.contains(leader_id) by {
                    if authors@.contains(a) {
                        let q = choose|q: int| 0 <= q < authors@.len() && authors@[q] == a;
                        if q < a0.len() {
                            assert(a0[q] == a);
                            assert(a0.contains(a));
                        }
                    }
                    if exists|j: int|
                        0 <= j < i + 1 && certificates@[j]@.header.author == a
                            && certificates@[j]@.header.previous_certificate_ids.contains(leader_id) {
                        let j = choose|j: int|
                            0 <= j < i + 1 && certificates@[j]@.header.author == a
                                && certificates@[j]@.header.previous_certificate_ids.contains(leader_id);
                        if j == i {
                            assert(authors@[authors@.len() - 1] == a);
                        } else {
                            assert(a0.contains(a));
                            let q = choose|q: int| 0 <= q < a0.len() && a0[q] == a;
                            assert(authors@[q] == a);
                        }
                    }
                }
            }
            i = i + 1;
        }
        proof {
            let sup = supporters(d.graph, certificate_round, leader_id);
            assert forall|a: Address| authors@.to_set().contains(a) <==> sup.contains(a) by {
                if authors@.contains(a) {
                    let j = choose|j: int|
                        0 <= j < i && certificates@[j]@.header.author == a
                            && certificates@[j]@.header.previous_certificate_ids.contains(leader_id);
                    assert(d.graph.contains_key(RoundAuthor { round: certificate_round, author: a }));
                }
                if sup.contains(a) {
                    let k = RoundAuthor { round: certificate_round, author: a };
                    assert(d.graph.contains_key(k) && k.round == certificate_round);
                    let j = choose|j: int| 0 <= j < certificates@.len() && certificates@[j]@.header.author == a;
                    assert(certificates@[j]@ == d.graph[k]);
                }
            }
            assert(authors@.to_set() =~= sup);
        }
        // Check if the leader is ready to be committed.
        if committee.is_availability_threshold_reached(&authors) {
            Ok(Some(leader_certificate))
        } else {
            Ok(None)
        }
    }

    /// Records the certificates of a committed subDAG in the DAG, in order, keeping
    /// `max_gc_rounds` rounds.
    pub fn commit_subdag(&mut self, subdag: &Vec<BatchCertificate>, max_gc_rounds: u64)
        requires
            old(self).wf(),
        ensures
            final(self).wf(),
            final(self).spec_dag() == commit_all(old(self).spec_dag(), views(subdag@), max_gc_rounds),
            final(self).spec_leader_certificate() == old(self).spec_leader_certificate(),
            final(self).spec_timer() == old(self).spec_timer(),
    {
        let ghost d0 = self.dag@;
        let ghost vs = views(subdag@);
        let mut i: usize = 0;
        while i < subdag.len()
            invariant
                self.wf(),
                vs == views(subdag@),
                i <= subdag@.len(),
                self.spec_dag() == commit_all(d0, vs.subrange(0, i as int), max_gc_rounds),
                self.spec_leader_certificate() == old(self).spec_leader_certificate(),
                self.spec_timer() == old(self).spec_timer(),
            decreases subdag@.len() - i,
        {
            self.dag.commit(&subdag[i], max_gc_rounds);
            proof {
                assert(vs.subrange(0, i as int + 1).drop_last() =~= vs.subrange(0, i as int));
                assert(vs.subrange(0, i as int + 1).last() == subdag@[i as int]@);
            }
            i = i + 1;
        }
        assert(vs.subrange(0, vs.len() as int) =~= vs);
    }

    /// Syncs the DAG with certificates that the ledger already holds, committing each of them
    /// in order (they are not inserted, as they need no ordering).
    pub fn sync_bft_dag_at_bootup(&mut self, certificates: &Vec<BatchCertificate>, max_gc_rounds: u64)
        requires
            old(self).wf(),
        ensures
            final(self).wf(),
            final(self).spec_dag() == commit_all(old(self).spec_dag(), views(certificates@), max_gc_rounds),
            final(self).spec_leader_certificate() == old(self).spec_leader_certificate(),
            final(self).spec_timer() == old(self).spec_timer(),
    {
        self.commit_subdag(certificates, max_gc_rounds);
    }
}

/// The DAG after the certificates are committed in order.
pub open spec fn commit_all(d: DagView, certs: Seq<BatchCertificateView>, max_gc_rounds: u64) -> DagView
    decreases certs.len(),
{
    if certs.len() == 0 {
        d
    } else {
        spec_commit(commit_all(d, certs.drop_last(), max_gc_rounds), certs.last(), max_gc_rounds)
    }
}

/// The DAG after the subDAGs are committed, one after the other.
pub open spec fn commit_subdags(d: DagView, subdags: Seq<Seq<BatchCertificateView>>, max_gc_rounds: u64) -> DagView
    decreases subdags.len(),
{
    if subdags.len() == 0 {
        d
    } else {
        commit_all(commit_subdags(d, subdags.drop_last(), max_gc_rounds), subdags.last(), max_gc_rounds)
    }
}

/// The certificates of each subDAG.
pub open spec fn certs_of(subdags: Seq<Vec<BatchCertificate>>) -> Seq<Seq<BatchCertificate>> {
    subdags.map_values(|v: Vec<BatchCertificate>| v@)
}

/// The views of the certificates of each subDAG.
pub open spec fn subdag_views(subdags: Seq<Seq<BatchCertificate>>) -> Seq<Seq<BatchCertificateView>> {
    subdags.map_values(|v: Seq<BatchCertificate>| views(v))
}

/// The chain of leader certificates to commit with `leader`, newest first, down to the
/// round after the last committed round.
pub open spec fn spec_chain_of(d: DagView, leaders: Map<u64, Address>, leader: BatchCertificateView) -> Result<
    Seq<BatchCertificateView>,
    BftError,
> {
    spec_leader_chain(d.graph, leaders, d.last_committed_round + 2, leader.header.round - 2, leader, seq![leader])
}

/// The chain of leader certificates to commit with `leader` (none where it cannot be built).
pub open spec fn chain_of(d: DagView, leaders: Map<u64, Address>, leader: BatchCertificateView) -> Seq<BatchCertificateView> {
    match spec_chain_of(d, leaders, leader) {
        Ok(c) => c,
        Err(_) => Seq::empty(),
    }
}

/// The garbage collection round of storage after it is collected for a commit at
/// `leader_round`: `leader_round - max_gc_rounds` (saturated at zero) where that is ahead of
/// the current one, which it never lowers.
pub open spec fn spec_gc_after(gc_round: u64, leader_round: u64, max_gc_rounds: u64) -> u64 {
    let next = if leader_round >= max_gc_rounds { (leader_round - max_gc_rounds) as u64 } else { 0 };
    if next > gc_round {
        next
    } else {
        gc_round
    }
}

/// `true` if the subDAGs are those of the oldest leaders of the chain, in order: each is
/// the subDAG of its leader over the DAG as the ones before it left it.
pub open spec fn commits_in_order(
    d: DagView,
    chain: Seq<BatchCertificateView>,
    storage: Seq<BatchCertificateView>,
    ledger_ids: Seq<Field>,
    allow_ledger_access: bool,
    max_gc_rounds: u64,
    subdags: Seq<Seq<BatchCertificate>>,
) -> bool {
    &&& subdags.len() <= chain.len()
    &&& forall|i: int|
        0 <= i < subdags.len() ==> #[trigger] is_ordered_subdag(
            commit_subdags(d, subdag_views(subdags.take(i)), max_gc_rounds),
            chain[chain.len() - 1 - i],
            storage,
            ledger_ids,
            allow_ledger_access,
            max_gc_rounds,
            subdags[i],
        )
}

/// Advances the garbage collection round of storage for a commit at the leader round: to the
/// leader round less `max_gc_rounds` (0 below that), where that is higher.
pub fn garbage_collect_round(gc_round: &mut u64, leader_round: u64, max_gc_rounds: u64)
    ensures
        *final(gc_round) == spec_gc_after(*old(gc_round), leader_round, max_gc_rounds),
{
    let next_gc_round = if leader_round >= max_gc_rounds { leader_round - max_gc_rounds } else { 0 };
    if next_gc_round > *gc_round {
        *gc_round = next_gc_round;
    }
}

/// Garbage collection never lowers the garbage collection round of storage, whatever the
/// round of the committed leader.
pub proof fn law_gc_never_lowers(gc_round: u64, leader_round: u64, max_gc_rounds: u64)
    ensures
        spec_gc_after(gc_round, leader_round, max_gc_rounds) >= gc_round,
        leader_round >= max_gc_rounds ==> spec_gc_after(gc_round, leader_round, max_gc_rounds) >= leader_round - max_gc_rounds,
{
}

/// The anchor round of a subDAG: the highest round of its certificates (0 if it has none).
pub open spec fn spec_anchor_round(certs: Seq<BatchCertificateView>) -> u64
    decreases certs.len(),
{
    if certs.len() == 0 {
        0
    } else {
        let r = spec_anchor_round(certs.drop_last());
        if certs.last().header.round > r {
            certs.last().header.round
        } else {
            r
        }
    }
}

/// Returns the anchor round of a subDAG: the highest round of its certificates.
pub fn anchor_round(certs: &Vec<BatchCertificate>) -> (r: u64)
    ensures
        r == spec_anchor_round(views(certs@)),
{
    let ghost vs = views(certs@);
    let mut r: u64 = 0;
    let mut i: usize = 0;
    while i < certs.len()
        invariant
            vs == views(certs@),
            i <= certs@.len(),
            r == spec_anchor_round(vs.subrange(0, i as int)),
        decreases certs@.len() - i,
    {
        proof {
            assert(vs.subrange(0, i as int + 1).drop_last() =~= vs.subrange(0, i as int));
            assert(vs.subrange(0, i as int + 1).last() == certs@[i as int]@);
        }
        if certs[i].round() > r {
            r = certs[i].round();
        }
        i = i + 1;
    }
    assert(vs.subrange(0, certs@.len() as int) =~= vs);
    r
}

/// Chooses the transmissions that a leader's subDAG hands to consensus: the transmission IDs
/// of its certificates, in order, deduplicated (see `dedup_transmission_ids`; `in_ledger`
/// says of each whether the ledger holds it). Then the subDAG's anchor round must be the
/// leader round.
pub fn consensus_transmissions(subdag: &Vec<BatchCertificate>, leader_round: u64, in_ledger: &Vec<bool>) -> (r: Result<Vec<TransmissionID>, BftError>)
    requires
        in_ledger@.len() == concat_transmission_ids(views(subdag@)).len(),
    ensures
        match spec_dedup(concat_transmission_ids(views(subdag@)), in_ledger@) {
            Err(e) => r == Err::<Vec<TransmissionID>, BftError>(e),
            Ok(st) => if spec_anchor_round(views(subdag@)) == leader_round {
                r matches Ok(v) && v@ == st.chosen
            } else {
                r == Err::<Vec<TransmissionID>, BftError>(
                    BftError::AnchorMismatch(spec_anchor_round(views(subdag@)), leader_round),
                )
            },
        },
{
    let ids = subdag_transmission_ids(subdag);
    let chosen = match dedup_transmission_ids(&ids, in_ledger) {
        Ok(v) => v,
        Err(e) => return Err(e),
    };
    let anchor = anchor_round(subdag);
    if anchor != leader_round {
        return Err(BftError::AnchorMismatch(anchor, leader_round));
    }
    Ok(chosen)
}

impl BFT {
    /// Commits the leader certificate with the chain of earlier leader certificates that it
    /// links to (see `leader_chain`), the oldest first: each leader's subDAG is ordered (see
    /// `order_dag_with_dfs`) over the DAG as the earlier commits left it, and its
    /// certificates are committed to the DAG. Then storage is garbage collected at the
    /// leader's round: `gc_round` (the garbage collection round of storage) advances to
    /// `spec_gc_after`. Returns the subDAGs, in the order committed. Fails where the chain
    /// cannot be built (nothing is committed) or where a subDAG cannot be ordered (the
    /// earlier subDAGs stay committed); either way `gc_round` is left as it was. This is the
    /// commit of a node that hands no subDAG to consensus, as while it syncs.
    pub fn commit_leader_chain<const ALLOW_LEDGER_ACCESS: bool>(
        &mut self,
        leader_certificate: &BatchCertificate,
        leaders: &crate::assoc::AssocMap<u64, Address>,
        max_gc_rounds: u64,
        storage: &Vec<BatchCertificate>,
        ledger_ids: &Vec<Field>,
        gc_round: &mut u64,
    ) -> (r: Result<Vec<Vec<BatchCertificate>>, BftError>)
        requires
            old(self).wf(),
            leaders.wf(),
        ensures
            final(self).wf(),
            r is Ok ==> *final(gc_round) == spec_gc_after(*old(gc_round), leader_certificate@.header.round, max_gc_rounds),
            r is Err ==> *final(gc_round) == *old(gc_round),
            final(self).spec_leader_certificate() == old(self).spec_leader_certificate(),
            final(self).spec_timer() == old(self).spec_timer(),
            match r {
                Ok(subs) => spec_chain_of(old(self).spec_dag(), leaders@, leader_certificate@) is Ok && {
                    let chain = chain_of(old(self).spec_dag(), leaders@, leader_certificate@);
                    &&& subs@.len() == chain.len()
                    &&& commits_in_order(old(self).spec_dag(), chain, views(storage@), ledger_ids@, ALLOW_LEDGER_ACCESS, max_gc_rounds, certs_of(subs@))
                    &&& final(self).spec_dag() == commit_subdags(old(self).spec_dag(), subdag_views(certs_of(subs@)), max_gc_rounds)
                },
                Err(e) => {
                    ||| spec_chain_of(old(self).spec_dag(), leaders@, leader_certificate@) == Err::<Seq<BatchCertificateView>, BftError>(e)
                        && final(self).spec_dag() == old(self).spec_dag()
                    ||| spec_chain_of(old(self).spec_dag(), leaders@, leader_certificate@) is Ok && {
                        let chain = chain_of(old(self).spec_dag(), leaders@, leader_certificate@);
                        exists|done: Seq<Seq<BatchCertificate>>| {
                            &&& #[trigger] commits_in_order(old(self).spec_dag(), chain, views(storage@), ledger_ids@, ALLOW_LEDGER_ACCESS, max_gc_rounds, done)
                            &&& done.len() < chain.len()
                            &&& final(self).spec_dag() == commit_subdags(old(self).spec_dag(), subdag_views(done), max_gc_rounds)
                            &&& is_failed_order(final(self).spec_dag(), chain[chain.len() - 1 - done.len()], views(storage@), ledger_ids@, ALLOW_LEDGER_ACCESS, max_gc_rounds, e)
                        }
                    }
                },
            },
    {
        let ghost d0 = self.dag@;
        let chain = match leader_chain(&self.dag, leader_certificate, leaders) {
            Ok(c) => c,
            Err(e) => {
                return Err(e);
            },
        };
        let ghost cv = views(chain@);
        assert(chain_of(d0, leaders@, leader_certificate@) == cv);
        let n = chain.len();
        let mut out: Vec<Vec<BatchCertificate>> = Vec::new();
        let mut i: usize = 0;
        proof {
            assert(subdag_views(certs_of(out@)) =~= Seq::<Seq<BatchCertificateView>>::empty());
        }
        while i < n
            invariant
                self.wf(),
                self.spec_leader_certificate() == old(self).spec_leader_certificate(),
                self.spec_timer() == old(self).spec_timer(),
                d0 == old(self).spec_dag(),
                spec_chain_of(d0, leaders@, leader_certificate@) == Ok::<Seq<BatchCertificateView>, BftError>(cv),
                cv == views(chain@),
                n == chain@.len(),
                i <= n,
                out@.len() == i,
                commits_in_order(d0, cv, views(storage@), ledger_ids@, ALLOW_LEDGER_ACCESS, max_gc_rounds, certs_of(out@)),
                self.spec_dag() == commit_subdags(d0, subdag_views(certs_of(out@)), max_gc_rounds),
            decreases n - i,
        {
            let leader = chain[n - 1 - i].duplicate();
            let ghost pre = certs_of(out@);
            let ghost dag_before = self.dag@;
            proof {
                assert(cv[cv.len() - 1 - i] == leader@);
            }
            let subdag = match crate::ordering::order_dag_with_dfs::<ALLOW_LEDGER_ACCESS>(&self.dag, leader, max_gc_rounds, storage, ledger_ids) {
                Ok(v) => v,
                Err(e) => {
                    proof {
                        assert(pre.len() == i);
                        assert(is_failed_order(self.spec_dag(), cv[cv.len() - 1 - pre.len()], views(storage@), ledger_ids@, ALLOW_LEDGER_ACCESS, max_gc_rounds, e));
                        assert(chain_of(old(self).spec_dag(), leaders@, leader_certificate@) == cv);
                    }
                    return Err(e);
                },
            };
            self.commit_subdag(&subdag, max_gc_rounds);
            let ghost sv = subdag@;
            out.push(subdag);
            proof {
                let pre1 = certs_of(out@);
                assert(pre1 =~= pre.push(sv));
                assert(pre1.take(i as int) =~= pre);
                assert(subdag_views(pre1).drop_last() =~= subdag_views(pre));
                assert(subdag_views(pre1).last() == views(sv));
                assert forall|j: int| 0 <= j < pre1.len() implies #[trigger] is_ordered_subdag(
                    commit_subdags(d0, subdag_views(pre1.take(j)), max_gc_rounds),
                    cv[cv.len() - 1 - j],
                    views(storage@),
                    ledger_ids@,
                    ALLOW_LEDGER_ACCESS,
                    max_gc_rounds,
                    pre1[j],
                ) by {
                    if j < i {
                        assert(pre1.take(j) =~= pre.take(j));
                        assert(pre1[j] == pre[j]);
                    } else {
                        assert(pre1[j] == sv);
                    }
                }
            }
            i = i + 1;
        }
        // Garbage collect storage at the latest committed leader round.
        garbage_collect_round(gc_round, leader_certificate.round(), max_gc_rounds);
        Ok(out)
    }
}

} // verus!
