//! The pending queue: the items being fetched, and for each the callbacks that wait on it,
//! each with the peer that was asked, the time it was registered and whether a request
//! was sent. Callbacks expire after `CALLBACK_EXPIRATION_IN_SECS` seconds.
use vstd::prelude::*;
use crate::assoc::{AssocMap, KeyEq};
use crate::clock::now_unix_timestamp;
use crate::committee::{Committee, MAX_COMMITTEE_SIZE};
use crate::types::PeerIp;

verus! {

/// The maximum number of seconds to wait before expiring a callback: the fetch timeout,
/// rounded up to whole seconds.
pub const CALLBACK_EXPIRATION_IN_SECS: i64 = 8;

/// The number of redundant requests for a committee of `num_validators` members.
pub open spec fn spec_max_redundant_requests(num_validators: int) -> int {
    1 + num_validators / 3
}

/// Returns the maximum number of redundant requests for the committee in the lookback of
/// the round, or for a committee of the maximum size where there is none.
pub fn max_redundant_requests(committee_lookback: Option<&Committee>) -> (r: usize)
    requires
        committee_lookback matches Some(c) ==> c.wf(),
    ensures
        r == spec_max_redundant_requests(
            match committee_lookback {
                Some(c) => c.spec_members().len() as int,
                None => MAX_COMMITTEE_SIZE as int,
            },
        ),
{
    let num_validators = match committee_lookback {
        Some(committee) => committee.num_members(),
        None => MAX_COMMITTEE_SIZE as usize,
    };
    1 + num_validators / 3
}

/// A callback waiting on an item, with the peer it was asked of. An entry without a
/// callback records a peer that was registered for the item with none.
#[derive(Debug)]
pub struct PendingCallback<C> {
    /// The peer that was asked for the item.
    pub peer_ip: PeerIp,
    /// The callback to notify when the item arrives, if one was given.
    pub callback: Option<C>,
    /// The UNIX time (in seconds) at which the callback was registered.
    pub timestamp: i64,
    /// `true` if a request was sent for this callback.
    pub request_sent: bool,
}

/// `true` if the entry is kept at time `now`: a callback that has not expired, or a peer
/// registered without a callback (which does not expire).
pub open spec fn is_live<C>(now: i64, c: PendingCallback<C>) -> bool {
    c.callback is None || now - c.timestamp <= CALLBACK_EXPIRATION_IN_SECS
}

/// The predicate of the entries that hold a callback.
pub open spec fn has_callback<C>() -> spec_fn(PendingCallback<C>) -> bool {
    |c: PendingCallback<C>| c.callback is Some
}

/// The callbacks of the entries, in order, skipping the entries without one.
pub open spec fn callbacks_of<C>(s: Seq<PendingCallback<C>>) -> Seq<C>
    decreases s.len(),
{
    if s.len() == 0 {
        Seq::empty()
    } else {
        let rest = callbacks_of(s.drop_last());
        match s.last().callback {
            Some(c) => rest.push(c),
            None => rest,
        }
    }
}

/// The predicate of the callbacks that are live at time `now`.
pub open spec fn live_at<C>(now: i64) -> spec_fn(PendingCallback<C>) -> bool {
    |c: PendingCallback<C>| is_live(now, c)
}

/// The predicate of the callbacks for which a request was sent.
pub open spec fn with_request<C>() -> spec_fn(PendingCallback<C>) -> bool {
    |c: PendingCallback<C>| c.callback is Some && c.request_sent
}

/// The peers that the callbacks were registered for.
pub open spec fn peers_of<C>(s: Seq<PendingCallback<C>>) -> Set<PeerIp> {
    Set::new(|p: PeerIp| exists|i: int| 0 <= i < s.len() && s[i].peer_ip == p)
}

/// The queue after the expired callbacks of `item` are dropped; the item leaves the queue
/// when none is left.
pub open spec fn clear_item<T, C>(
    m: Map<T, Seq<PendingCallback<C>>>,
    now: i64,
    item: T,
) -> Map<T, Seq<PendingCallback<C>>> {
    if m.contains_key(item) {
        let kept = m[item].filter(live_at(now));
        if kept.len() == 0 {
            m.remove(item)
        } else {
            m.insert(item, kept)
        }
    } else {
        m
    }
}

/// The queue after the expired callbacks of the items in `done` are dropped.
pub open spec fn clear_items<T, C>(
    m: Map<T, Seq<PendingCallback<C>>>,
    now: i64,
    done: Set<T>,
) -> Map<T, Seq<PendingCallback<C>>> {
    Map::new(
        |k: T| m.contains_key(k) && (done.contains(k) ==> m[k].filter(live_at(now)).len() > 0),
        |k: T|
            if done.contains(k) {
                m[k].filter(live_at(now))
            } else {
                m[k]
            },
    )
}

/// The queue after the expired callbacks of all items are dropped.
pub open spec fn clear_all<T, C>(m: Map<T, Seq<PendingCallback<C>>>, now: i64) -> Map<
    T,
    Seq<PendingCallback<C>>,
> {
    clear_items(m, now, m.dom())
}

/// `true` if one of the entries records the peer without a callback.
pub open spec fn has_bare_peer<C>(s: Seq<PendingCallback<C>>, peer_ip: PeerIp) -> bool {
    exists|j: int| 0 <= j < s.len() && s[j].peer_ip == peer_ip && s[j].callback is None
}

/// The queue after the entry `c` is registered for `item`: the item enters the queue if
/// it was not in it, and the entry is appended, except an entry without a callback for a
/// peer that the item already records without one.
pub open spec fn add_callback<T, C>(
    m: Map<T, Seq<PendingCallback<C>>>,
    item: T,
    c: PendingCallback<C>,
) -> Map<T, Seq<PendingCallback<C>>> {
    let base = if m.contains_key(item) {
        m[item]
    } else {
        Seq::empty()
    };
    m.insert(
        item,
        if c.callback is None && has_bare_peer(base, c.peer_ip) {
            base
        } else {
            base.push(c)
        },
    )
}

/// The entry registered for `peer_ip` at time `now`: with the callback and its sent flag
/// where one is given, otherwise without a callback and with no request sent.
pub open spec fn new_callback<C>(peer_ip: PeerIp, callback: Option<(C, bool)>, now: i64) -> PendingCallback<C> {
    match callback {
        Some((cb, sent)) => PendingCallback { peer_ip, callback: Some(cb), timestamp: now, request_sent: sent },
        None => PendingCallback { peer_ip, callback: None, timestamp: now, request_sent: false },
    }
}

/// `true` if every item in the queue has at least one entry.
pub open spec fn all_nonempty<T, C>(m: Map<T, Seq<PendingCallback<C>>>) -> bool {
    forall|k: T| #[trigger] m.contains_key(k) ==> m[k].len() > 0
}

/// The number of callbacks for `item` (zero if it is not in the queue).
pub open spec fn num_callbacks_of<T, C>(m: Map<T, Seq<PendingCallback<C>>>, item: T) -> int {
    if m.contains_key(item) {
        m[item].filter(has_callback()).len() as int
    } else {
        0
    }
}

/// The number of callbacks for `item` with a sent request (zero if it is not in the queue).
pub open spec fn num_sent_of<T, C>(m: Map<T, Seq<PendingCallback<C>>>, item: T) -> int {
    if m.contains_key(item) {
        m[item].filter(with_request()).len() as int
    } else {
        0
    }
}

/// Keeps the callbacks that are live at time `now`, in order.
fn retain_live<C>(v: Vec<PendingCallback<C>>, now: i64) -> (r: Vec<PendingCallback<C>>)
    ensures
        r@ == v@.filter(live_at(now)),
{
    let ghost s = v@;
    let _n: usize = v.len();
    let mut rest = v;
    let mut out: Vec<PendingCallback<C>> = Vec::new();
    let mut i: usize = 0;
    while rest.len() > 0
        invariant
            i <= s.len(),
            s.len() <= usize::MAX,
            rest@ == s.subrange(i as int, s.len() as int),
            out@ == s.subrange(0, i as int).filter(live_at(now)),
        decreases rest.len(),
    {
        let c = rest.remove(0);
        proof {
            assert(s.subrange(0, i as int + 1) =~= s.subrange(0, i as int).push(c));
            s.subrange(0, i as int).lemma_filter_push(c, live_at(now));
        }
        let live = match &c.callback {
            None => true,
            Some(_) => (now as i128) - (c.timestamp as i128) <= CALLBACK_EXPIRATION_IN_SECS as i128,
        };
        if live {
            out.push(c);
        }
        i = i + 1;
    }
    assert(s.subrange(0, s.len() as int) =~= s);
    out
}

/// `true` if one of the callbacks was registered for the peer.
fn has_peer<C>(v: &Vec<PendingCallback<C>>, peer_ip: PeerIp) -> (r: bool)
    ensures
        r == peers_of(v@).contains(peer_ip),
{
    let mut i: usize = 0;
    while i < v.len()
        invariant
            i <= v@.len(),
            forall|j: int| 0 <= j < i ==> v@[j].peer_ip != peer_ip,
        decreases v@.len() - i,
    {
        if v[i].peer_ip.key_eq(&peer_ip) {
            return true;
        }
        i = i + 1;
    }
    false
}

/// `true` if one of the entries records the peer without a callback.
fn has_bare<C>(v: &Vec<PendingCallback<C>>, peer_ip: PeerIp) -> (r: bool)
    ensures
        r == has_bare_peer(v@, peer_ip),
{
    let mut i: usize = 0;
    while i < v.len()
        invariant
            i <= v@.len(),
            forall|j: int| 0 <= j < i ==> !(v@[j].peer_ip == peer_ip && v@[j].callback is None),
        decreases v@.len() - i,
    {
        if v[i].peer_ip.key_eq(&peer_ip) && v[i].callback.is_none() {
            return true;
        }
        i = i + 1;
    }
    false
}

/// `true` if one of the callbacks was registered for the peer with a sent request.
fn has_peer_with_request<C>(v: &Vec<PendingCallback<C>>, peer_ip: PeerIp) -> (r: bool)
    ensures
        r == exists|j: int| 0 <= j < v@.len() && v@[j].peer_ip == peer_ip && with_request()(v@[j]),
{
    let mut i: usize = 0;
    while i < v.len()
        invariant
            i <= v@.len(),
            forall|j: int| 0 <= j < i ==> !(v@[j].peer_ip == peer_ip && with_request()(v@[j])),
        decreases v@.len() - i,
    {
        if v[i].peer_ip.key_eq(&peer_ip) && v[i].request_sent && v[i].callback.is_some() {
            return true;
        }
        i = i + 1;
    }
    false
}

/// The number of callbacks with a sent request.
fn count_sent<C>(v: &Vec<PendingCallback<C>>) -> (r: usize)
    ensures
        r == v@.filter(with_request()).len(),
{
    let ghost s = v@;
    let mut count: usize = 0;
    let mut i: usize = 0;
    while i < v.len()
        invariant
            s == v@,
            i <= s.len(),
            count == s.subrange(0, i as int).filter(with_request()).len(),
            count <= i,
        decreases s.len() - i,
    {
        proof {
            assert(s.subrange(0, i as int + 1) =~= s.subrange(0, i as int).push(s[i as int]));
            s.subrange(0, i as int).lemma_filter_push(s[i as int], with_request());
        }
        if v[i].request_sent && v[i].callback.is_some() {
            count = count + 1;
        }
        i = i + 1;
    }
    assert(s.subrange(0, s.len() as int) =~= s);
    count
}

/// The number of entries that hold a callback.
fn count_callbacks<C>(v: &Vec<PendingCallback<C>>) -> (r: usize)
    ensures
        r == v@.filter(has_callback()).len(),
{
    let ghost s = v@;
    let mut count: usize = 0;
    let mut i: usize = 0;
    while i < v.len()
        invariant
            s == v@,
            i <= s.len(),
            count == s.subrange(0, i as int).filter(has_callback()).len(),
            count <= i,
        decreases s.len() - i,
    {
        proof {
            assert(s.subrange(0, i as int + 1) =~= s.subrange(0, i as int).push(s[i as int]));
            s.subrange(0, i as int).lemma_filter_push(s[i as int], has_callback());
        }
        if v[i].callback.is_some() {
            count = count + 1;
        }
        i = i + 1;
    }
    assert(s.subrange(0, s.len() as int) =~= s);
    count
}

/// The distinct peers that the callbacks were registered for.
fn collect_peers<C>(v: &Vec<PendingCallback<C>>) -> (r: Vec<PeerIp>)
    ensures
        r@.no_duplicates(),
        r@.to_set() == peers_of(v@),
{
    let mut out: Vec<PeerIp> = Vec::new();
    let mut i: usize = 0;
    while i < v.len()
        invariant
            i <= v@.len(),
            out@.no_duplicates(),
            forall|p: PeerIp|
                out@.contains(p) <==> exists|j: int| 0 <= j < i && v@[j].peer_ip == p,
        decreases v@.len() - i,
    {
        let p = v[i].peer_ip;
        let ghost before = out@;
        let mut k: usize = 0;
        let mut seen = false;
        while k < out.len()
            invariant
                k <= out@.len(),
                seen == exists|j: int| 0 <= j < k && out@[j] == p,
            decreases out@.len() - k,
        {
            if out[k].key_eq(&p) {
                seen = true;
            }
            k = k + 1;
        }
        if !seen {
            out.push(p);
        }
        proof {
            if !seen {
                assert(out@ == before.push(p));
                assert(!before.contains(p));
                assert forall|a: int, b: int| 0 <= a < b < out@.len() implies out@[a] != out@[b] by {
                    if b == out@.len() - 1 {
                        assert(before[a] == out@[a]);
                    } else {
                        assert(before[a] != before[b]);
                    }
                }
            }
            assert forall|q: PeerIp| out@.contains(q) <==> exists|j: int|
                0 <= j < i + 1 && v@[j].peer_ip == q by {
                if out@.contains(q) {
                    let j = choose|j: int| 0 <= j < out@.len() && out@[j] == q;
                    if !seen && j == out@.len() - 1 {
                        assert(v@[i as int].peer_ip == q);
                    } else {
                        assert(before[j] == q);
                        assert(before.contains(q));
                        let j2 = choose|j2: int| 0 <= j2 < i && v@[j2].peer_ip == q;
                        assert(0 <= j2 < i + 1 && v@[j2].peer_ip == q);
                    }
                }
                if exists|j: int| 0 <= j < i + 1 && v@[j].peer_ip == q {
                    let j = choose|j: int| 0 <= j < i + 1 && v@[j].peer_ip == q;
                    if j == i {
                        if seen {
                            let k2 = choose|k2: int| 0 <= k2 < before.len() && before[k2] == p;
                            assert(out@[k2] == q);
                        } else {
                            assert(out@[out@.len() - 1] == q);
                        }
                    } else {
                        assert(before.contains(q));
                        let k2 = choose|k2: int| 0 <= k2 < before.len() && before[k2] == q;
                        assert(out@[k2] == q);
                    }
                }
            }
        }
        i = i + 1;
    }
    proof {
        assert(out@.to_set() =~= peers_of(v@));
    }
    out
}

/// The callbacks, in order, skipping the entries without one.
fn into_callbacks<C>(v: Vec<PendingCallback<C>>) -> (r: Vec<C>)
    ensures
        r@ == callbacks_of(v@),
{
    let ghost s = v@;
    let _n: usize = v.len();
    let mut rest = v;
    let mut out: Vec<C> = Vec::new();
    let mut i: usize = 0;
    while rest.len() > 0
        invariant
            i <= s.len(),
            s.len() <= usize::MAX,
            rest@ == s.subrange(i as int, s.len() as int),
            out@ == callbacks_of(s.subrange(0, i as int)),
        decreases rest.len(),
    {
        let c = rest.remove(0);
        assert(s.subrange(0, i as int + 1).drop_last() =~= s.subrange(0, i as int));
        assert(s.subrange(0, i as int + 1).last() == c);
        match c.callback {
            Some(cb) => out.push(cb),
            None => {},
        }
        i = i + 1;
    }
    assert(s.subrange(0, s.len() as int) =~= s);
    out
}

/// The items being fetched, each with its callbacks.
pub struct Pending<T, C> {
    pending: AssocMap<T, Vec<PendingCallback<C>>>,
}

impl<T, C> View for Pending<T, C> {
    type V = Map<T, Seq<PendingCallback<C>>>;

    closed spec fn view(&self) -> Map<T, Seq<PendingCallback<C>>> {
        Map::new(|k: T| self.pending@.contains_key(k), |k: T| self.pending@[k]@)
    }
}

impl<T: KeyEq, C> Pending<T, C> {
    /// The map of items is well formed.
    pub closed spec fn inner_wf(&self) -> bool {
        self.pending.wf()
    }

    /// The queue is well formed, and every item in it has a callback.
    pub open spec fn wf(&self) -> bool {
        self.inner_wf() && all_nonempty(self@)
    }

    proof fn lemma_dom(&self)
        requires
            self.inner_wf(),
        ensures
            self@.dom() == self.pending@.dom(),
            self@.dom().finite(),
            self@.len() == self.pending@.len(),
    {
        self.pending.lemma_view();
        assert(self@.dom() =~= self.pending@.dom());
    }

    /// Initializes a new instance of the pending queue.
    pub fn new() -> (r: Self)
        ensures
            r.wf(),
            r@ == Map::<T, Seq<PendingCallback<C>>>::empty(),
    {
        let r = Pending { pending: AssocMap::new() };
        assert(r@ =~= Map::<T, Seq<PendingCallback<C>>>::empty());
        r
    }

    /// Returns `true` if the pending queue is empty.
    pub fn is_empty(&self) -> (r: bool)
        requires
            self.wf(),
        ensures
            self@.dom().finite(),
            r == (self@.len() == 0),
            r == (self@.dom() == Set::<T>::empty()),
    {
        proof {
            self.lemma_dom();
            if self@.len() == 0 {
                assert(self@.dom() =~= Set::<T>::empty());
            }
        }
        self.pending.is_empty()
    }

    /// Returns the number of items in the pending queue.
    pub fn len(&self) -> (r: usize)
        requires
            self.wf(),
        ensures
            self@.dom().finite(),
            r == self@.len(),
    {
        proof {
            self.lemma_dom();
        }
        self.pending.len()
    }

    /// Returns `true` if the pending queue contains the specified `item`.
    pub fn contains(&self, item: T) -> (r: bool)
        requires
            self.wf(),
        ensures
            r == self@.contains_key(item),
    {
        self.pending.contains_key(&item)
    }

    /// Returns `true` if the pending queue contains the specified `item` for the specified `peer IP`.
    pub fn contains_peer(&self, item: T, peer_ip: PeerIp) -> (r: bool)
        requires
            self.wf(),
        ensures
            r == (self@.contains_key(item) && peers_of(self@[item]).contains(peer_ip)),
    {
        match self.pending.get(&item) {
            Some(callbacks) => has_peer(callbacks, peer_ip),
            None => false,
        }
    }

    /// Returns `true` if the pending queue contains the specified `item` for the specified
    /// `peer IP` with a sent request.
    pub fn contains_peer_with_sent_request(&self, item: T, peer_ip: PeerIp) -> (r: bool)
        requires
            self.wf(),
        ensures
            r == (self@.contains_key(item) && exists|j: int|
                0 <= j < self@[item].len() && self@[item][j].peer_ip == peer_ip
                    && with_request()(self@[item][j])),
    {
        match self.pending.get(&item) {
            Some(callbacks) => has_peer_with_request(callbacks, peer_ip),
            None => false,
        }
    }

    /// Returns the peer IPs for the specified `item`, each once.
    pub fn get_peers(&self, item: T) -> (r: Option<Vec<PeerIp>>)
        requires
            self.wf(),
        ensures
            r is Some <==> self@.contains_key(item),
            r matches Some(v) ==> v@.no_duplicates() && v@.to_set() == peers_of(self@[item]),
    {
        match self.pending.get(&item) {
            Some(callbacks) => Some(collect_peers(callbacks)),
            None => None,
        }
    }

    /// Removes the callbacks for the specified `item` that have expired at time `now`.
    pub fn clear_expired_callbacks_for_item(&mut self, now: i64, item: T)
        requires
            old(self).wf(),
        ensures
            final(self).wf(),
            final(self)@ == clear_item(old(self)@, now, item),
    {
        let ghost m0 = self@;
        match self.pending.remove(&item) {
            Some(callbacks) => {
                let kept = retain_live(callbacks, now);
                if kept.len() > 0 {
                    self.pending.insert(item, kept);
                    assert(self@ =~= clear_item(m0, now, item));
                } else {
                    assert(self@ =~= clear_item(m0, now, item));
                }
            },
            None => {
                assert(self@ =~= m0);
            },
        }
    }

    /// Returns the number of live callbacks for the specified `item` at time `now`,
    /// after removing those that have expired.
    pub fn num_callbacks_at(&mut self, now: i64, item: T) -> (r: usize)
        requires
            old(self).wf(),
        ensures
            final(self).wf(),
            final(self)@ == clear_item(old(self)@, now, item),
            r == num_callbacks_of(final(self)@, item),
    {
        self.clear_expired_callbacks_for_item(now, item);
        match self.pending.get(&item) {
            Some(callbacks) => count_callbacks(callbacks),
            None => 0,
        }
    }

    /// Returns the number of pending callbacks for the specified `item`, after removing
    /// those that have expired at the current time.
    pub fn num_callbacks(&mut self, item: T) -> (r: usize)
        requires
            old(self).wf(),
        ensures
            final(self).wf(),
            exists|now: i64|
                #[trigger] clear_item(old(self)@, now, item) == final(self)@,
            r == num_callbacks_of(final(self)@, item),
    {
        let now = now_unix_timestamp();
        self.num_callbacks_at(now, item)
    }

    /// Returns the number of live callbacks with a sent request for the specified `item`
    /// at time `now`, after removing those that have expired.
    pub fn num_sent_requests_at(&mut self, now: i64, item: T) -> (r: usize)
        requires
            old(self).wf(),
        ensures
            final(self).wf(),
            final(self)@ == clear_item(old(self)@, now, item),
            r == num_sent_of(final(self)@, item),
    {
        self.clear_expired_callbacks_for_item(now, item);
        match self.pending.get(&item) {
            Some(callbacks) => count_sent(callbacks),
            None => 0,
        }
    }

    /// Returns the number of pending sent requests for the specified `item`, after
    /// removing the callbacks that have expired at the current time.
    pub fn num_sent_requests(&mut self, item: T) -> (r: usize)
        requires
            old(self).wf(),
        ensures
            final(self).wf(),
            exists|now: i64|
                #[trigger] clear_item(old(self)@, now, item) == final(self)@,
            r == num_sent_of(final(self)@, item),
    {
        let now = now_unix_timestamp();
        self.num_sent_requests_at(now, item)
    }

    /// Inserts the specified `item` and `peer IP` at time `now`, returning `true` if the
    /// `peer IP` was newly inserted into the entry for the `item`.
    ///
    /// The callback, if provided, is always inserted into the callback queue; without one,
    /// the peer is recorded for the item (once), and stays until the item is removed.
    /// Then the expired callbacks of the item are removed.
    pub fn insert_at(
        &mut self,
        now: i64,
        item: T,
        peer_ip: PeerIp,
        callback: Option<(C, bool)>,
    ) -> (r: bool)
        requires
            old(self).wf(),
        ensures
            final(self).wf(),
            r == !(old(self)@.contains_key(item) && peers_of(old(self)@[item]).contains(peer_ip)),
            final(self)@ == clear_item(
                add_callback(old(self)@, item, new_callback(peer_ip, callback, now)),
                now,
                item,
            ),
    {
        let ghost m0 = self@;
        let ghost added = add_callback(m0, item, new_callback(peer_ip, callback, now));
        let mut entry = match self.pending.remove(&item) {
            Some(callbacks) => callbacks,
            None => Vec::new(),
        };
        let is_new_peer = !has_peer(&entry, peer_ip);
        match callback {
            Some((cb, sent)) => {
                entry.push(
                    PendingCallback { peer_ip, callback: Some(cb), timestamp: now, request_sent: sent },
                );
            },
            None => {
                if !has_bare(&entry, peer_ip) {
                    entry.push(PendingCallback { peer_ip, callback: None, timestamp: now, request_sent: false });
                }
            },
        }
        assert(entry@ == added[item]);
        let kept = retain_live(entry, now);
        if kept.len() > 0 {
            self.pending.insert(item, kept);
            assert(self@ =~= clear_item(added, now, item));
        } else {
            assert(self@ =~= clear_item(added, now, item));
        }
        is_new_peer
    }

    /// Inserts the specified `item` and `peer IP` at the current time, returning `true` if
    /// the `peer IP` was newly inserted into the entry for the `item`.
    pub fn insert(&mut self, item: T, peer_ip: PeerIp, callback: Option<(C, bool)>) -> (r: bool)
        requires
            old(self).wf(),
        ensures
            final(self).wf(),
            r == !(old(self)@.contains_key(item) && peers_of(old(self)@[item]).contains(peer_ip)),
            exists|now: i64|
                #[trigger] clear_item(
                    add_callback(old(self)@, item, new_callback(peer_ip, callback, now)),
                    now,
                    item,
                ) == final(self)@,
    {
        let now = now_unix_timestamp();
        self.insert_at(now, item, peer_ip, callback)
    }

    /// Removes the specified `item` from the pending queue. If the `item` was in the queue,
    /// its peer IPs (each once) and its callbacks (in order) are returned, for the caller
    /// to notify; otherwise `None` is returned.
    pub fn remove(&mut self, item: T) -> (r: Option<(Vec<PeerIp>, Vec<C>)>)
        requires
            old(self).wf(),
        ensures
            final(self).wf(),
            final(self)@ == old(self)@.remove(item),
            r is Some <==> old(self)@.contains_key(item),
            r matches Some((peers, callbacks)) ==> {
                &&& peers@.no_duplicates()
                &&& peers@.to_set() == peers_of(old(self)@[item])
                &&& callbacks@ == callbacks_of(old(self)@[item])
            },
    {
        let ghost m0 = self@;
        match self.pending.remove(&item) {
            Some(callbacks) => {
                assert(self@ =~= m0.remove(item));
                let peers = collect_peers(&callbacks);
                let cbs = into_callbacks(callbacks);
                Some((peers, cbs))
            },
            None => {
                assert(self@ =~= m0.remove(item));
                None
            },
        }
    }

    /// Removes the callbacks of all items that have expired at time `now`.
    pub fn clear_expired_callbacks_at(&mut self, now: i64)
        requires
            old(self).wf(),
        ensures
            final(self).wf(),
            final(self)@ == clear_all(old(self)@, now),
    {
        let ghost m0 = self@;
        proof {
            self.pending.lemma_view();
            self.lemma_dom();
        }
        // Collect the items first, as clearing may remove them.
        let n = self.pending.len();
        let mut items: Vec<T> = Vec::new();
        let mut i: usize = 0;
        while i < n
            invariant
                self.pending.wf(),
                n == self.pending.seq().len(),
                i <= n,
                items@.len() == i,
                forall|j: int| 0 <= j < i ==> items@[j] == self.pending.seq()[j].0,
            decreases n - i,
        {
            items.push(self.pending.get_index(i).0);
            i = i + 1;
        }
        assert(items@.to_set() =~= m0.dom()) by {
            assert forall|k: T| items@.to_set().contains(k) implies m0.dom().contains(k) by {
                let j = choose|j: int| 0 <= j < items@.len() && items@[j] == k;
                assert(self.pending@.contains_key(self.pending.seq()[j].0));
            }
            assert forall|k: T| m0.dom().contains(k) implies items@.to_set().contains(k) by {
                assert(self.pending@.contains_key(k));
                let j = choose|j: int| 0 <= j < self.pending.seq().len() && self.pending.seq()[j].0 == k;
                assert(items@[j] == k);
            }
        }
        let mut i: usize = 0;
        while i < items.len()
            invariant
                self.wf(),
                i <= items@.len(),
                items@.to_set() == m0.dom(),
                self@ == clear_items(m0, now, items@.subrange(0, i as int).to_set()),
            decreases items@.len() - i,
        {
            let item = items[i];
            let ghost done = items@.subrange(0, i as int).to_set();
            let ghost before = self@;
            self.clear_expired_callbacks_for_item(now, item);
            proof {
                assert(items@.subrange(0, i as int + 1).to_set() =~= done.insert(item)) by {
                    assert(items@.subrange(0, i as int + 1) =~= items@.subrange(0, i as int).push(
                        item,
                    ));
                    items@.subrange(0, i as int).lemma_push_to_set_commute(item);
                }
                if done.contains(item) {
                    // An item already cleared has only live callbacks left.
                    assert(before.contains_key(item) ==> before[item].filter(live_at(now))
                        == before[item]) by {
                        if before.contains_key(item) {
                            lemma_filter_idempotent(m0[item], live_at(now));
                        }
                    }
                    assert(self@ =~= clear_items(m0, now, done.insert(item)));
                } else {
                    assert(self@ =~= clear_items(m0, now, done.insert(item)));
                }
            }
            i = i + 1;
        }
        assert(items@.subrange(0, items@.len() as int) =~= items@);
    }

    /// Removes the callbacks of all items that have expired at the current time.
    pub fn clear_expired_callbacks(&mut self)
        requires
            old(self).wf(),
        ensures
            final(self).wf(),
            exists|now: i64| #[trigger] clear_all(old(self)@, now) == final(self)@,
    {
        let now = now_unix_timestamp();
        self.clear_expired_callbacks_at(now);
    }
}

/// Filtering twice by the same predicate is filtering once.
proof fn lemma_filter_idempotent<A>(s: Seq<A>, p: spec_fn(A) -> bool)
    ensures
        s.filter(p).filter(p) == s.filter(p),
    decreases s.len(),
{
    reveal(Seq::filter);
    if s.len() > 0 {
        lemma_filter_idempotent(s.drop_last(), p);
        if p(s.last()) {
            s.drop_last().filter(p).lemma_filter_push(s.last(), p);
        }
    }
}

/// Inserting an item and a peer at time `now`, with or without a callback, leaves the item
/// in the queue with the peer among its peers, whatever the queue held before; with a
/// callback, the item has at least one callback.
pub proof fn law_registered_callback_is_pending<T, C>(
    m: Map<T, Seq<PendingCallback<C>>>,
    now: i64,
    item: T,
    peer_ip: PeerIp,
    callback: Option<(C, bool)>,
)
    ensures
        ({
            let m1 = clear_item(add_callback(m, item, new_callback(peer_ip, callback, now)), now, item);
            &&& m1.contains_key(item)
            &&& peers_of(m1[item]).contains(peer_ip)
            &&& (callback is Some ==> num_callbacks_of(m1, item) >= 1)
        }),
{
    let base = if m.contains_key(item) { m[item] } else { Seq::empty() };
    let c = new_callback(peer_ip, callback, now);
    let added = add_callback(m, item, c);
    let m1 = clear_item(added, now, item);
    assert(live_at::<C>(now)(c));
    if c.callback is None && has_bare_peer(base, peer_ip) {
        assert(added[item] == base);
        // The entry without a callback never expires, so it is kept.
        let j = choose|j: int| 0 <= j < base.len() && base[j].peer_ip == peer_ip && base[j].callback is None;
        assert(live_at::<C>(now)(base[j]));
        base.lemma_filter_contains(live_at(now), j);
        let kept = base.filter(live_at(now));
        let k = choose|k: int| 0 <= k < kept.len() && kept[k] == base[j];
        assert(kept.len() > 0);
        assert(m1.contains_key(item));
        assert(m1[item] == kept);
        assert(kept[k].peer_ip == peer_ip);
        assert(peers_of(m1[item]).contains(peer_ip));
    } else {
        assert(added[item] == base.push(c));
        base.lemma_filter_push(c, live_at(now));
        let kept = base.push(c).filter(live_at(now));
        assert(kept == base.filter(live_at(now)).push(c));
        assert(kept[kept.len() - 1] == c);
        assert(m1.contains_key(item));
        assert(m1[item] == kept);
        assert(peers_of(m1[item]).contains(peer_ip));
        if callback is Some {
            base.filter(live_at(now)).lemma_filter_len_push(has_callback(), c);
        }
    }
}

/// After the expired callbacks are cleared at time `now`, every callback left is live at
/// `now`, and every item left has a callback.
pub proof fn law_cleared_callbacks_are_live<T, C>(m: Map<T, Seq<PendingCallback<C>>>, now: i64)
    ensures
        ({
            let m1 = clear_all(m, now);
            &&& all_nonempty(m1)
            &&& forall|k: T, i: int| #[trigger] m1.contains_key(k) && 0 <= i < m1[k].len() ==> is_live(now, #[trigger] m1[k][i])
        }),
{
    let m1 = clear_all(m, now);
    assert forall|k: T, i: int| #[trigger] m1.contains_key(k) && 0 <= i < m1[k].len() implies is_live(now, #[trigger] m1[k][i]) by {
        m[k].filter_lemma(live_at(now));
        assert(live_at::<C>(now)(m[k].filter(live_at(now))[i]));
    }
}

/// Clearing the expired callbacks at time `now` keeps exactly the live ones: an item stays
/// exactly when it has a live entry, with its live entries in order, and the queue is left
/// empty exactly when no item had a live entry.
pub proof fn law_clear_expired_keeps_live<T, C>(m: Map<T, Seq<PendingCallback<C>>>, now: i64)
    ensures
        ({
            let m1 = clear_all(m, now);
            &&& forall|k: T| #[trigger] m1.contains_key(k) <==> (m.contains_key(k)
                && exists|i: int| 0 <= i < m[k].len() && is_live(now, #[trigger] m[k][i]))
            &&& forall|k: T| #[trigger] m1.contains_key(k) ==> m1[k] == m[k].filter(live_at(now))
            &&& (m1.dom() == Set::<T>::empty() <==> forall|k: T, i: int|
                #[trigger] m.contains_key(k) && 0 <= i < m[k].len() ==> !is_live(now, #[trigger] m[k][i]))
        }),
{
    let m1 = clear_all(m, now);
    assert forall|k: T| #[trigger] m1.contains_key(k) <==> (m.contains_key(k)
        && exists|i: int| 0 <= i < m[k].len() && is_live(now, #[trigger] m[k][i])) by {
        if m.contains_key(k) {
            let f = m[k].filter(live_at(now));
            if f.len() > 0 {
                m[k].filter_lemma(live_at(now));
                assert(f.contains(f[0]));
                m[k].lemma_filter_contains_rev(live_at(now), f[0]);
                let i = choose|i: int| 0 <= i < m[k].len() && m[k][i] == f[0];
                assert(live_at::<C>(now)(f[0]));
                assert(is_live(now, m[k][i]));
            }
            if exists|i: int| 0 <= i < m[k].len() && is_live(now, #[trigger] m[k][i]) {
                let i = choose|i: int| 0 <= i < m[k].len() && is_live(now, #[trigger] m[k][i]);
                assert(live_at::<C>(now)(m[k][i]));
                m[k].lemma_filter_contains(live_at(now), i);
            }
        }
    }
    if m1.dom() == Set::<T>::empty() {
        assert forall|k: T, i: int| #[trigger] m.contains_key(k) && 0 <= i < m[k].len() implies !is_live(now, #[trigger] m[k][i]) by {
            if is_live(now, m[k][i]) {
                assert(m1.contains_key(k));
                assert(m1.dom().contains(k));
            }
        }
    }
    if forall|k: T, i: int| #[trigger] m.contains_key(k) && 0 <= i < m[k].len() ==> !is_live(now, #[trigger] m[k][i]) {
        assert(m1.dom() =~= Set::<T>::empty());
    }
}

/// Registering a callback at time `now`, right after the item's expired callbacks were
/// dropped, adds exactly one callback; and where a request is only sent while fewer than
/// `redundancy` are in flight, the number of sent requests stays at most the larger of
/// `redundancy` and what it was.
pub proof fn law_sent_requests_bounded<T, C>(
    m: Map<T, Seq<PendingCallback<C>>>,
    now: i64,
    item: T,
    peer_ip: PeerIp,
    callback: C,
    send: bool,
    redundancy: int,
)
    requires
        send ==> num_sent_of(clear_item(m, now, item), item) < redundancy,
    ensures
        ({
            let cleared = clear_item(m, now, item);
            let m1 = clear_item(add_callback(cleared, item, new_callback(peer_ip, Some((callback, send)), now)), now, item);
            &&& num_callbacks_of(m1, item) == num_callbacks_of(cleared, item) + 1
            &&& num_sent_of(m1, item) == num_sent_of(cleared, item) + (if send { 1int } else { 0int })
            &&& num_sent_of(m1, item) <= if num_sent_of(cleared, item) > redundancy {
                num_sent_of(cleared, item)
            } else {
                redundancy
            }
        }),
{
    let cleared = clear_item(m, now, item);
    let c = PendingCallback { peer_ip, callback: Some(callback), timestamp: now, request_sent: send };
    let base = if cleared.contains_key(item) { cleared[item] } else { Seq::empty() };
    if m.contains_key(item) {
        lemma_filter_idempotent(m[item], live_at(now));
    }
    assert(base.filter(live_at(now)) == base) by {
        if !cleared.contains_key(item) {
            assert(base.filter(live_at(now)) =~= base) by {
                reveal(Seq::filter);
            }
        }
    }
    assert(live_at::<C>(now)(c));
    base.lemma_filter_push(c, live_at(now));
    let added = add_callback(cleared, item, new_callback(peer_ip, Some((callback, send)), now));
    assert(added[item] == base.push(c));
    let m1 = clear_item(added, now, item);
    assert(m1[item] == base.push(c));
    base.lemma_filter_len_push(with_request(), c);
    base.lemma_filter_len_push(has_callback(), c);
    assert(with_request::<C>()(c) == send);
    assert(has_callback::<C>()(c));
    if !cleared.contains_key(item) {
        assert(base.filter(with_request::<C>()) =~= Seq::<PendingCallback<C>>::empty()) by {
            reveal(Seq::filter);
        }
        assert(base.filter(has_callback::<C>()) =~= Seq::<PendingCallback<C>>::empty()) by {
            reveal(Seq::filter);
        }
    }
}

/// Filtering by a stronger predicate keeps no more elements.
proof fn lemma_filter_len_mono<A>(s: Seq<A>, p: spec_fn(A) -> bool, q: spec_fn(A) -> bool)
    requires
        forall|x: A| #[trigger] p(x) ==> q(x),
    ensures
        s.filter(p).len() <= s.filter(q).len(),
    decreases s.len(),
{
    reveal(Seq::filter);
    if s.len() > 0 {
        lemma_filter_len_mono(s.drop_last(), p, q);
    }
}

/// An item never has more sent requests than callbacks.
pub proof fn law_sent_requests_at_most_callbacks<T, C>(m: Map<T, Seq<PendingCallback<C>>>, item: T)
    ensures
        0 <= num_sent_of(m, item) <= num_callbacks_of(m, item),
{
    if m.contains_key(item) {
        lemma_filter_len_mono(m[item], with_request::<C>(), has_callback::<C>());
    }
}

/// The predicate of the entries of the peer with a sent request.
pub open spec fn sent_to<C>(peer_ip: PeerIp) -> spec_fn(PendingCallback<C>) -> bool {
    |c: PendingCallback<C>| with_request()(c) && c.peer_ip == peer_ip
}

/// `true` if a request for the item was sent to the peer.
pub open spec fn peer_asked<T, C>(m: Map<T, Seq<PendingCallback<C>>>, item: T, peer_ip: PeerIp) -> bool {
    m.contains_key(item) && exists|j: int|
        0 <= j < m[item].len() && m[item][j].peer_ip == peer_ip && with_request()(m[item][j])
}

/// `true` if the item has at most `redundancy` requests in flight, and at most one per peer.
pub open spec fn requests_bounded<T, C>(m: Map<T, Seq<PendingCallback<C>>>, item: T, redundancy: int) -> bool {
    &&& num_sent_of(m, item) <= redundancy
    &&& forall|p: PeerIp| m.contains_key(item) ==> #[trigger] m[item].filter(sent_to(p)).len() <= 1
}

/// Filtering first by another predicate keeps no more elements.
proof fn lemma_filter_filter_len<A>(s: Seq<A>, q: spec_fn(A) -> bool, p: spec_fn(A) -> bool)
    ensures
        s.filter(q).filter(p).len() <= s.filter(p).len(),
    decreases s.len(),
{
    reveal(Seq::filter);
    if s.len() > 0 {
        lemma_filter_filter_len(s.drop_last(), q, p);
        if q(s.last()) {
            s.drop_last().filter(q).lemma_filter_len_push(p, s.last());
            assert(s.filter(q) == s.drop_last().filter(q).push(s.last()));
        }
    }
}

/// A filter that no element passes keeps nothing.
proof fn lemma_filter_empty<A>(s: Seq<A>, p: spec_fn(A) -> bool)
    requires
        forall|i: int| 0 <= i < s.len() ==> !p(#[trigger] s[i]),
    ensures
        s.filter(p).len() == 0,
    decreases s.len(),
{
    reveal(Seq::filter);
    if s.len() > 0 {
        lemma_filter_empty(s.drop_last(), p);
    }
}

/// Requests for a transmission stay within the redundancy bound: where the item has at most
/// `redundancy` requests in flight and at most one per peer, registering a fetch from a
/// peer (the worker's rule: its expired callbacks are dropped, and a request is sent only
/// while fewer than `redundancy` are in flight and the peer was not asked) adds one
/// callback and keeps both bounds.
pub proof fn law_requests_stay_bounded<T, C>(
    m: Map<T, Seq<PendingCallback<C>>>,
    now: i64,
    item: T,
    peer_ip: PeerIp,
    callback: C,
    redundancy: int,
)
    requires
        requests_bounded(m, item, redundancy),
    ensures
        ({
            let cleared = clear_item(m, now, item);
            let send = num_sent_of(cleared, item) < redundancy && !peer_asked(cleared, item, peer_ip);
            let m1 = clear_item(add_callback(cleared, item, new_callback(peer_ip, Some((callback, send)), now)), now, item);
            &&& requests_bounded(cleared, item, redundancy)
            &&& requests_bounded(m1, item, redundancy)
            &&& num_callbacks_of(m1, item) == num_callbacks_of(cleared, item) + 1
        }),
{
    let cleared = clear_item(m, now, item);
    let send = num_sent_of(cleared, item) < redundancy && !peer_asked(cleared, item, peer_ip);
    // Clearing keeps the bounds.
    if m.contains_key(item) {
        lemma_filter_filter_len(m[item], live_at(now), with_request());
        assert forall|p: PeerIp| cleared.contains_key(item) implies #[trigger] cleared[item].filter(sent_to(p)).len() <= 1 by {
            lemma_filter_filter_len(m[item], live_at(now), sent_to(p));
        }
    }
    assert(requests_bounded(cleared, item, redundancy));
    law_sent_requests_bounded(m, now, item, peer_ip, callback, send, redundancy);
    let c = PendingCallback { peer_ip, callback: Some(callback), timestamp: now, request_sent: send };
    let base = if cleared.contains_key(item) { cleared[item] } else { Seq::empty() };
    if m.contains_key(item) {
        lemma_filter_idempotent(m[item], live_at(now));
    }
    assert(base.filter(live_at(now)) == base) by {
        if !cleared.contains_key(item) {
            assert(base.filter(live_at(now)) =~= base) by {
                reveal(Seq::filter);
            }
        }
    }
    base.lemma_filter_push(c, live_at(now));
    let m1 = clear_item(add_callback(cleared, item, new_callback(peer_ip, Some((callback, send)), now)), now, item);
    assert(m1[item] == base.push(c));
    assert forall|p: PeerIp| m1.contains_key(item) implies #[trigger] m1[item].filter(sent_to(p)).len() <= 1 by {
        base.lemma_filter_len_push(sent_to(p), c);
        if sent_to::<C>(p)(c) {
            assert(p == peer_ip && send);
            assert forall|j: int| 0 <= j < base.len() implies !sent_to::<C>(p)(#[trigger] base[j]) by {
                if sent_to::<C>(p)(base[j]) {
                    assert(cleared.contains_key(item));
                    assert(peer_asked(cleared, item, peer_ip));
                }
            }
            lemma_filter_empty(base, sent_to(p));
        } else if cleared.contains_key(item) {
            assert(cleared[item].filter(sent_to(p)).len() <= 1);
        } else {
            lemma_filter_empty(base, sent_to(p));
        }
    }
}

} // verus!
