//! Rate caches: for each key, how often it was seen within a recent interval, with the
//! counts kept per second; and the count of outstanding validators requests per peer.
use vstd::prelude::*;
use crate::assoc::{AssocMap, KeyEq};
use crate::clock::now_unix_timestamp;
use crate::types::{Field, PeerIp, TransmissionID};

verus! {

/// The counts of a key in the entries, summed.
pub open spec fn sum_hits<K>(entries: Seq<(i64, Map<K, u32>)>, key: K) -> int
    decreases entries.len(),
{
    if entries.len() == 0 {
        0
    } else {
        sum_hits(entries.drop_last(), key) + (if entries.last().1.contains_key(key) {
            entries.last().1[key] as int
        } else {
            0
        })
    }
}

/// The count of `key` at second `t` of the counts (zero where there is none).
pub open spec fn hits_at<K>(m: Map<i64, Map<K, u32>>, t: i64, key: K) -> int {
    if m.contains_key(t) && m[t].contains_key(key) {
        m[t][key] as int
    } else {
        0
    }
}

/// Adds the count of `key` at a second to a running total.
pub open spec fn add_hits<K>(m: Map<i64, Map<K, u32>>, key: K) -> spec_fn(int, i64) -> int {
    |acc: int, t: i64| acc + hits_at(m, t, key)
}

/// The counts of `key`, summed over all the seconds of the counts.
pub open spec fn total_hits<K>(m: Map<i64, Map<K, u32>>, key: K) -> int {
    m.dom().fold(0int, add_hits(m, key))
}

/// Summing the counts of `key` over entries with distinct seconds, all of them held by the
/// counts `m`, folds the counts over their seconds.
proof fn lemma_sum_hits_fold<K>(s: Seq<(i64, Map<K, u32>)>, m: Map<i64, Map<K, u32>>, key: K)
    requires
        crate::assoc::keys_distinct(s),
        forall|i: int| 0 <= i < s.len() ==> m.contains_key(#[trigger] s[i].0) && m[s[i].0] == s[i].1,
    ensures
        crate::assoc::key_set(s).finite(),
        sum_hits(s, key) == crate::assoc::key_set(s).fold(0int, add_hits(m, key)),
    decreases s.len(),
{
    let f = add_hits(m, key);
    assert(vstd::set::fold::is_fun_commutative(f)) by {
        assert forall|a1: i64, a2: i64, b: int| #[trigger] f(f(b, a2), a1) == f(f(b, a1), a2) by {}
    }
    if s.len() == 0 {
        assert(crate::assoc::key_set(s) =~= Set::<i64>::empty());
        vstd::set::fold::lemma_fold_empty(0int, f);
    } else {
        let t = s.drop_last();
        let x = s.last();
        assert forall|i: int, j: int| 0 <= i < t.len() && 0 <= j < t.len() && i != j implies t[i].0 != t[j].0 by {
            assert(t[i] == s[i] && t[j] == s[j]);
        }
        assert forall|i: int| 0 <= i < t.len() implies m.contains_key(#[trigger] t[i].0) && m[t[i].0] == t[i].1 by {
            assert(t[i] == s[i]);
        }
        lemma_sum_hits_fold(t, m, key);
        assert(crate::assoc::key_set(s) =~= crate::assoc::key_set(t).insert(x.0)) by {
            assert forall|k: i64| crate::assoc::key_set(s).contains(k) implies crate::assoc::key_set(t).insert(x.0).contains(k) by {
                let i = choose|i: int| 0 <= i < s.len() && s[i].0 == k;
                if i < t.len() {
                    assert(t[i] == s[i]);
                }
            }
            assert forall|k: i64| crate::assoc::key_set(t).insert(x.0).contains(k) implies crate::assoc::key_set(s).contains(k) by {
                if k == x.0 {
                    assert(s[s.len() - 1].0 == k);
                } else {
                    let i = choose|i: int| 0 <= i < t.len() && t[i].0 == k;
                    assert(s[i] == t[i]);
                }
            }
        }
        assert(!crate::assoc::key_set(t).contains(x.0)) by {
            if crate::assoc::key_set(t).contains(x.0) {
                let i = choose|i: int| 0 <= i < t.len() && t[i].0 == x.0;
                assert(s[i] == t[i]);
            }
        }
        vstd::set::fold::lemma_fold_insert(crate::assoc::key_set(t), 0int, f, x.0);
        assert(m.contains_key(s[s.len() - 1].0));
    }
}

/// The first sighting of a key in an empty cache counts once, for any interval that is
/// not negative.
pub proof fn law_first_sighting_counts_one<K>(now: i64, key: K, interval_in_secs: i64)
    requires
        interval_in_secs >= 0,
    ensures
        total_hits(recent(bumped(Map::<i64, Map<K, u32>>::empty(), now, key), now, interval_in_secs), key) == 1,
{
    let m = recent(bumped(Map::<i64, Map<K, u32>>::empty(), now, key), now, interval_in_secs);
    assert(m.dom() =~= Set::<i64>::empty().insert(now));
    assert(m[now] == Map::<K, u32>::empty().insert(key, 1u32));
    let f = add_hits(m, key);
    assert(vstd::set::fold::is_fun_commutative(f)) by {
        assert forall|a1: i64, a2: i64, b: int| #[trigger] f(f(b, a2), a1) == f(f(b, a1), a2) by {}
    }
    vstd::set::fold::lemma_fold_empty(0int, f);
    vstd::set::fold::lemma_fold_insert(Set::<i64>::empty(), 0int, f, now);
}

/// The counts after one more sighting of `key` at time `now` (capped at `u32::MAX`).
pub open spec fn bumped<K>(m: Map<i64, Map<K, u32>>, now: i64, key: K) -> Map<i64, Map<K, u32>> {
    let inner = if m.contains_key(now) { m[now] } else { Map::empty() };
    let count = if inner.contains_key(key) { inner[key] as int } else { 0 };
    m.insert(now, inner.insert(key, (if count < u32::MAX { count + 1 } else { count }) as u32))
}

/// The earliest timestamp kept at time `now` for an interval: `now - interval`, saturated.
pub open spec fn cutoff(now: i64, interval_in_secs: i64) -> int {
    let c = now - interval_in_secs;
    if c < i64::MIN {
        i64::MIN as int
    } else if c > i64::MAX {
        i64::MAX as int
    } else {
        c
    }
}

/// The timestamps from the cutoff on.
pub open spec fn recent<K>(m: Map<i64, Map<K, u32>>, now: i64, interval_in_secs: i64) -> Map<i64, Map<K, u32>> {
    m.restrict(m.dom().filter(|t: i64| t >= cutoff(now, interval_in_secs)))
}

/// The counters after a validators request to the peer: its count rises by one
/// (saturating), starting from zero.
pub open spec fn spec_increment(m: Map<PeerIp, u32>, peer_ip: PeerIp) -> Map<PeerIp, u32> {
    let c = if m.contains_key(peer_ip) { m[peer_ip] as int } else { 0 };
    m.insert(peer_ip, (if c < u32::MAX { c + 1 } else { c }) as u32)
}

/// The counters after a validators response from the peer: a positive count falls by one;
/// a missing or zero count leaves the map.
pub open spec fn spec_decrement(m: Map<PeerIp, u32>, peer_ip: PeerIp) -> Map<PeerIp, u32> {
    if m.contains_key(peer_ip) && m[peer_ip] > 0 {
        m.insert(peer_ip, (m[peer_ip] - 1) as u32)
    } else {
        m.remove(peer_ip)
    }
}

/// A validators request followed by its response leaves the peer's count as it was, where
/// the count was below the maximum; a peer without a count is left with zero outstanding
/// requests. Either way the peer has an outstanding request between the two.
pub proof fn law_request_then_response(m: Map<PeerIp, u32>, peer_ip: PeerIp)
    ensures
        spec_increment(m, peer_ip).contains_key(peer_ip) && spec_increment(m, peer_ip)[peer_ip] > 0,
        m.contains_key(peer_ip) && m[peer_ip] < u32::MAX ==> spec_decrement(spec_increment(m, peer_ip), peer_ip) == m,
        !m.contains_key(peer_ip) ==> spec_decrement(spec_increment(m, peer_ip), peer_ip) == m.insert(peer_ip, 0),
{
    if m.contains_key(peer_ip) && m[peer_ip] < u32::MAX {
        assert(spec_decrement(spec_increment(m, peer_ip), peer_ip) =~= m);
    }
}

/// The sightings of keys, counted per second.
pub struct RateCache<K> {
    map: AssocMap<i64, AssocMap<K, u32>>,
}

impl<K> View for RateCache<K> {
    type V = Map<i64, Map<K, u32>>;

    closed spec fn view(&self) -> Map<i64, Map<K, u32>> {
        Map::new(|t: i64| self.map@.contains_key(t), |t: i64| self.map@[t]@)
    }
}

impl<K: KeyEq> RateCache<K> {
    /// The maps are well formed.
    pub closed spec fn wf(&self) -> bool {
        &&& self.map.wf()
        &&& forall|t: i64| #[trigger] self.map@.contains_key(t) ==> self.map@[t].wf()
    }

    /// The entries, one per second, in the order in which they are held.
    pub closed spec fn entries(&self) -> Seq<(i64, Map<K, u32>)> {
        self.map.seq().map_values(|e: (i64, AssocMap<K, u32>)| (e.0, e.1@))
    }

    /// The sum of the counts of `key` over the entries is its total over the counts.
    pub proof fn lemma_hits(&self, key: K)
        requires
            self.wf(),
        ensures
            self@.dom().finite(),
            sum_hits(self.entries(), key) == total_hits(self@, key),
    {
        self.map.lemma_view();
        let e = self.entries();
        let sq = self.map.seq();
        assert forall|i: int, j: int| 0 <= i < e.len() && 0 <= j < e.len() && i != j implies e[i].0 != e[j].0 by {
            assert(e[i].0 == sq[i].0 && e[j].0 == sq[j].0);
        }
        assert forall|i: int| 0 <= i < e.len() implies self@.contains_key(#[trigger] e[i].0) && self@[e[i].0] == e[i].1 by {
            assert(e[i].0 == sq[i].0);
            assert(self.map@.contains_key(sq[i].0));
        }
        assert(crate::assoc::key_set(e) =~= self@.dom()) by {
            assert forall|t: i64| crate::assoc::key_set(e).contains(t) implies self@.dom().contains(t) by {
                let i = choose|i: int| 0 <= i < e.len() && e[i].0 == t;
                assert(sq[i].0 == t);
                assert(self.map@.contains_key(sq[i].0));
            }
            assert forall|t: i64| self@.dom().contains(t) implies crate::assoc::key_set(e).contains(t) by {
                assert(self.map@.dom().contains(t));
                assert(crate::assoc::key_set(sq).contains(t));
                let i = choose|i: int| 0 <= i < sq.len() && sq[i].0 == t;
                assert(e[i].0 == t);
            }
        }
        lemma_sum_hits_fold(e, self@, key);
    }

    /// Initializes an empty cache.
    pub fn new() -> (r: Self)
        ensures
            r.wf(),
            r@ == Map::<i64, Map<K, u32>>::empty(),
    {
        let r = RateCache { map: AssocMap::new() };
        assert(r@ =~= Map::<i64, Map<K, u32>>::empty());
        r
    }

    /// The number of seconds with sightings.
    pub fn len(&self) -> (r: usize)
        requires
            self.wf(),
        ensures
            r == self@.len(),
    {
        proof {
            self.map.lemma_view();
            assert(self@.dom() =~= self.map@.dom());
        }
        self.map.len()
    }

    /// Records a sighting of `key` at time `now`, drops the seconds before `now -
    /// interval_in_secs`, and returns the number of sightings of `key` that are left
    /// (capped at `usize::MAX`).
    pub fn retain_and_insert_at(&mut self, now: i64, key: K, interval_in_secs: i64) -> (r: usize)
        requires
            old(self).wf(),
        ensures
            final(self).wf(),
            final(self)@ == recent(bumped(old(self)@, now, key), now, interval_in_secs),
            r == (if total_hits(final(self)@, key) > usize::MAX {
                usize::MAX as int
            } else {
                total_hits(final(self)@, key)
            }),
    {
        let ghost m0 = self@;
        // Insert the new timestamp and increment the frequency for the key.
        let mut inner = match self.map.remove(&now) {
            Some(m) => m,
            None => AssocMap::new(),
        };
        let count = match inner.get(&key) {
            Some(c) => *c,
            None => 0,
        };
        inner.insert(key, count.saturating_add(1));
        self.map.insert(now, inner);
        proof {
            assert(self@ =~= bumped(m0, now, key));
            assert forall|t: i64| #[trigger] self.map@.contains_key(t) implies self.map@[t].wf() by {
                if t != now {
                    assert(old(self).map@.contains_key(t));
                }
            }
        }
        let ghost m1 = self@;
        // Calculate the cutoff time for the entries to retain.
        let wide: i128 = now as i128 - interval_in_secs as i128;
        let cut: i64 = if wide < i64::MIN as i128 {
            i64::MIN
        } else if wide > i64::MAX as i128 {
            i64::MAX
        } else {
            wide as i64
        };
        assert(cut == cutoff(now, interval_in_secs));
        // Keep the recent entries, and sum the sightings of the key in them.
        let mut old_map = AssocMap::new();
        std::mem::swap(&mut old_map, &mut self.map);
        proof {
            old_map.lemma_view();
        }
        let ghost s = old_map.seq();
        let ghost om = old_map@;
        let mut rest = old_map.into_entries();
        let _n: usize = rest.len();
        let mut hits: u128 = 0;
        let mut i: usize = 0;
        while rest.len() > 0
            invariant
                crate::assoc::keys_distinct(s),
                om == crate::assoc::seq_to_map(s),
                forall|t: i64| #[trigger] om.contains_key(t) ==> om[t].wf(),
                m1 == Map::new(|t: i64| om.contains_key(t), |t: i64| om[t]@),
                i <= s.len(),
                s.len() <= usize::MAX,
                rest@ == s.subrange(i as int, s.len() as int),
                self.map.wf(),
                forall|t: i64| #[trigger] self.map@.contains_key(t) ==> self.map@[t].wf(),
                forall|t: i64|
                    #[trigger] self.map@.contains_key(t) <==> (exists|j: int| 0 <= j < i && s[j].0 == t) && t >= cut,
                forall|t: i64| #[trigger] self.map@.contains_key(t) ==> self.map@[t] == om[t],
                self.map.seq().map_values(|e: (i64, AssocMap<K, u32>)| (e.0, e.1@)).len() == self.map.seq().len(),
                hits == sum_hits(self.map.seq().map_values(|e: (i64, AssocMap<K, u32>)| (e.0, e.1@)), key),
                hits <= i * u32::MAX,
            decreases rest.len(),
        {
            let (t, m) = rest.remove(0);
            assert(s[i as int] == (t, m));
            proof {
                crate::assoc::lemma_index_lookup(s, i as int);
            }
            if t >= cut {
                let c = match m.get(&key) {
                    Some(c) => *c,
                    None => 0,
                };
                let ghost e0 = self.map.seq();
                proof {
                    assert(!self.map@.contains_key(t)) by {
                        if self.map@.contains_key(t) {
                            let j = choose|j: int| 0 <= j < i && s[j].0 == t;
                            assert(s[j].0 == s[i as int].0);
                        }
                    }
                }
                self.map.insert(t, m);
                proof {
                    let f = |e: (i64, AssocMap<K, u32>)| (e.0, e.1@);
                    assert(self.map.seq() == e0.push((t, om[t])));
                    assert(self.map.seq().map_values(f).drop_last() =~= e0.map_values(f));
                    assert(self.map.seq().map_values(f).last() == (t, om[t]@));
                }
                hits = hits + c as u128;
            }
            proof {
                assert forall|x: i64| #[trigger] self.map@.contains_key(x) <==> (exists|j: int|
                    0 <= j < i + 1 && s[j].0 == x) && x >= cut by {
                    if exists|j: int| 0 <= j < i + 1 && s[j].0 == x {
                        let j = choose|j: int| 0 <= j < i + 1 && s[j].0 == x;
                        if j < i {
                            assert(exists|j2: int| 0 <= j2 < i && s[j2].0 == x);
                        }
                    }
                    if exists|j: int| 0 <= j < i && s[j].0 == x {
                        let j = choose|j: int| 0 <= j < i && s[j].0 == x;
                        assert(0 <= j < i + 1 && s[j].0 == x);
                    }
                }
            }
            i = i + 1;
        }
        proof {
            assert(self@ =~= recent(m1, now, interval_in_secs)) by {
                assert forall|t: i64| #[trigger] self@.dom().contains(t) <==> recent(m1, now, interval_in_secs).dom().contains(t) by {
                    if self.map@.contains_key(t) {
                        let j = choose|j: int| 0 <= j < i && s[j].0 == t;
                        assert(crate::assoc::has_key(s, t));
                    }
                    if m1.contains_key(t) {
                        assert(crate::assoc::has_key(s, t));
                    }
                }
            }
        }
        proof {
            self.lemma_hits(key);
        }
        if hits > usize::MAX as u128 {
            usize::MAX
        } else {
            hits as usize
        }
    }

    /// Records a sighting of `key` at the current time, drops the seconds before the
    /// interval, and returns the number of sightings of `key` that are left.
    pub fn retain_and_insert(&mut self, key: K, interval_in_secs: i64) -> (r: usize)
        requires
            old(self).wf(),
        ensures
            final(self).wf(),
            exists|now: i64| #[trigger] recent(bumped(old(self)@, now, key), now, interval_in_secs) == final(self)@,
            r == (if total_hits(final(self)@, key) > usize::MAX {
                usize::MAX as int
            } else {
                total_hits(final(self)@, key)
            }),
    {
        let now = now_unix_timestamp();
        self.retain_and_insert_at(now, key, interval_in_secs)
    }
}

/// The caches of a node: the recent inbound connections, events, certificates and
/// transmissions, the recent outbound events and requests, and the outstanding validators
/// requests per peer.
pub struct Cache {
    /// The sightings of inbound connections, per second.
    pub seen_inbound_connections: RateCache<u32>,
    /// The sightings of inbound events, per second.
    pub seen_inbound_events: RateCache<PeerIp>,
    /// The sightings of inbound certificates, per second.
    pub seen_inbound_certificates: RateCache<Field>,
    /// The sightings of inbound transmissions, per second.
    pub seen_inbound_transmissions: RateCache<TransmissionID>,
    /// The sightings of outbound events, per second.
    pub seen_outbound_events: RateCache<PeerIp>,
    /// The sightings of outbound certificates, per second.
    pub seen_outbound_certificates: RateCache<PeerIp>,
    /// The sightings of outbound transmissions, per second.
    pub seen_outbound_transmissions: RateCache<PeerIp>,
    /// The number of outstanding validators requests per peer.
    pub seen_outbound_validators_requests: AssocMap<PeerIp, u32>,
}

impl Cache {
    /// The caches are well formed.
    pub open spec fn wf(&self) -> bool {
        &&& self.counters_wf()
        &&& self.seen_inbound_connections.wf()
        &&& self.seen_inbound_events.wf()
        &&& self.seen_inbound_certificates.wf()
        &&& self.seen_inbound_transmissions.wf()
        &&& self.seen_outbound_events.wf()
        &&& self.seen_outbound_certificates.wf()
        &&& self.seen_outbound_transmissions.wf()
    }

    /// The map of counters is well formed.
    pub open spec fn counters_wf(&self) -> bool {
        self.seen_outbound_validators_requests.wf()
    }

    /// The rate caches of `other` are those of `self`.
    pub open spec fn same_rates(&self, other: &Cache) -> bool {
        &&& other.seen_inbound_connections == self.seen_inbound_connections
        &&& other.seen_inbound_events == self.seen_inbound_events
        &&& other.seen_inbound_certificates == self.seen_inbound_certificates
        &&& other.seen_inbound_transmissions == self.seen_inbound_transmissions
        &&& other.seen_outbound_events == self.seen_outbound_events
        &&& other.seen_outbound_certificates == self.seen_outbound_certificates
        &&& other.seen_outbound_transmissions == self.seen_outbound_transmissions
    }

    /// The number of outstanding validators requests per peer.
    pub open spec fn validators_requests(&self) -> Map<PeerIp, u32> {
        self.seen_outbound_validators_requests@
    }

    /// Initializes a new instance of the cache.
    pub fn new() -> (r: Cache)
        ensures
            r.wf(),
            r.validators_requests() == Map::<PeerIp, u32>::empty(),
            r.seen_inbound_connections@ == Map::<i64, Map<u32, u32>>::empty(),
            r.seen_inbound_events@ == Map::<i64, Map<PeerIp, u32>>::empty(),
            r.seen_inbound_certificates@ == Map::<i64, Map<Field, u32>>::empty(),
            r.seen_inbound_transmissions@ == Map::<i64, Map<TransmissionID, u32>>::empty(),
            r.seen_outbound_events@ == Map::<i64, Map<PeerIp, u32>>::empty(),
            r.seen_outbound_certificates@ == Map::<i64, Map<PeerIp, u32>>::empty(),
            r.seen_outbound_transmissions@ == Map::<i64, Map<PeerIp, u32>>::empty(),
    {
        Cache {
            seen_inbound_connections: RateCache::new(),
            seen_inbound_events: RateCache::new(),
            seen_inbound_certificates: RateCache::new(),
            seen_inbound_transmissions: RateCache::new(),
            seen_outbound_events: RateCache::new(),
            seen_outbound_certificates: RateCache::new(),
            seen_outbound_transmissions: RateCache::new(),
            seen_outbound_validators_requests: AssocMap::new(),
        }
    }

    /// Inserts a new timestamp for the given peer connection (its IPv4 address), returning the number of recent connection requests.
    pub fn insert_inbound_connection(&mut self, peer_ip: u32, interval_in_secs: i64) -> (r: usize)
        requires
            old(self).wf(),
        ensures
            final(self).wf(),
            final(self).validators_requests() == old(self).validators_requests(),
            exists|now: i64| #[trigger] recent(bumped(old(self).seen_inbound_connections@, now, peer_ip), now, interval_in_secs) == final(self).seen_inbound_connections@,
            r == (if total_hits(final(self).seen_inbound_connections@, peer_ip) > usize::MAX {
                usize::MAX as int
            } else {
                total_hits(final(self).seen_inbound_connections@, peer_ip)
            }),
    {
        self.seen_inbound_connections.retain_and_insert(peer_ip, interval_in_secs)
    }

    /// Inserts a new timestamp for the given peer, returning the number of recent events.
    pub fn insert_inbound_event(&mut self, peer_ip: PeerIp, interval_in_secs: i64) -> (r: usize)
        requires
            old(self).wf(),
        ensures
            final(self).wf(),
            final(self).validators_requests() == old(self).validators_requests(),
            exists|now: i64| #[trigger] recent(bumped(old(self).seen_inbound_events@, now, peer_ip), now, interval_in_secs) == final(self).seen_inbound_events@,
            r == (if total_hits(final(self).seen_inbound_events@, peer_ip) > usize::MAX {
                usize::MAX as int
            } else {
                total_hits(final(self).seen_inbound_events@, peer_ip)
            }),
    {
        self.seen_inbound_events.retain_and_insert(peer_ip, interval_in_secs)
    }

    /// Inserts a certificate ID into the cache, returning the number of recent events.
    pub fn insert_inbound_certificate(&mut self, key: Field, interval_in_secs: i64) -> (r: usize)
        requires
            old(self).wf(),
        ensures
            final(self).wf(),
            final(self).validators_requests() == old(self).validators_requests(),
            exists|now: i64| #[trigger] recent(bumped(old(self).seen_inbound_certificates@, now, key), now, interval_in_secs) == final(self).seen_inbound_certificates@,
            r == (if total_hits(final(self).seen_inbound_certificates@, key) > usize::MAX {
                usize::MAX as int
            } else {
                total_hits(final(self).seen_inbound_certificates@, key)
            }),
    {
        self.seen_inbound_certificates.retain_and_insert(key, interval_in_secs)
    }

    /// Inserts a transmission ID into the cache, returning the number of recent events.
    pub fn insert_inbound_transmission(&mut self, key: TransmissionID, interval_in_secs: i64) -> (r: usize)
        requires
            old(self).wf(),
        ensures
            final(self).wf(),
            final(self).validators_requests() == old(self).validators_requests(),
            exists|now: i64| #[trigger] recent(bumped(old(self).seen_inbound_transmissions@, now, key), now, interval_in_secs) == final(self).seen_inbound_transmissions@,
            r == (if total_hits(final(self).seen_inbound_transmissions@, key) > usize::MAX {
                usize::MAX as int
            } else {
                total_hits(final(self).seen_inbound_transmissions@, key)
            }),
    {
        self.seen_inbound_transmissions.retain_and_insert(key, interval_in_secs)
    }

    /// Inserts a new timestamp for the given peer, returning the number of recent events.
    pub fn insert_outbound_event(&mut self, peer_ip: PeerIp, interval_in_secs: i64) -> (r: usize)
        requires
            old(self).wf(),
        ensures
            final(self).wf(),
            final(self).validators_requests() == old(self).validators_requests(),
            exists|now: i64| #[trigger] recent(bumped(old(self).seen_outbound_events@, now, peer_ip), now, interval_in_secs) == final(self).seen_outbound_events@,
            r == (if total_hits(final(self).seen_outbound_events@, peer_ip) > usize::MAX {
                usize::MAX as int
            } else {
                total_hits(final(self).seen_outbound_events@, peer_ip)
            }),
    {
        self.seen_outbound_events.retain_and_insert(peer_ip, interval_in_secs)
    }

    /// Inserts a new timestamp for the given peer's certificate requests, returning the number of recent ones.
    pub fn insert_outbound_certificate(&mut self, peer_ip: PeerIp, interval_in_secs: i64) -> (r: usize)
        requires
            old(self).wf(),
        ensures
            final(self).wf(),
            final(self).validators_requests() == old(self).validators_requests(),
            exists|now: i64| #[trigger] recent(bumped(old(self).seen_outbound_certificates@, now, peer_ip), now, interval_in_secs) == final(self).seen_outbound_certificates@,
            r == (if total_hits(final(self).seen_outbound_certificates@, peer_ip) > usize::MAX {
                usize::MAX as int
            } else {
                total_hits(final(self).seen_outbound_certificates@, peer_ip)
            }),
    {
        self.seen_outbound_certificates.retain_and_insert(peer_ip, interval_in_secs)
    }

    /// Inserts a new timestamp for the given peer's transmission requests, returning the number of recent ones.
    pub fn insert_outbound_transmission(&mut self, peer_ip: PeerIp, interval_in_secs: i64) -> (r: usize)
        requires
            old(self).wf(),
        ensures
            final(self).wf(),
            final(self).validators_requests() == old(self).validators_requests(),
            exists|now: i64| #[trigger] recent(bumped(old(self).seen_outbound_transmissions@, now, peer_ip), now, interval_in_secs) == final(self).seen_outbound_transmissions@,
            r == (if total_hits(final(self).seen_outbound_transmissions@, peer_ip) > usize::MAX {
                usize::MAX as int
            } else {
                total_hits(final(self).seen_outbound_transmissions@, peer_ip)
            }),
    {
        self.seen_outbound_transmissions.retain_and_insert(peer_ip, interval_in_secs)
    }

    /// Returns `true` if the cache contains a validators request from the given peer.
    pub fn contains_outbound_validators_request(&self, peer_ip: PeerIp) -> (r: bool)
        requires
            self.wf(),
        ensures
            r == (self.validators_requests().contains_key(peer_ip) && self.validators_requests()[peer_ip] > 0),
    {
        match self.seen_outbound_validators_requests.get(&peer_ip) {
            Some(r) => *r > 0,
            None => false,
        }
    }

    /// Increments the peer's number of validators requests (saturating), returning the
    /// updated number.
    pub fn increment_outbound_validators_requests(&mut self, peer_ip: PeerIp) -> (r: u32)
        requires
            old(self).wf(),
        ensures
            final(self).wf(),
            old(self).same_rates(final(self)),
            final(self).validators_requests() == spec_increment(old(self).validators_requests(), peer_ip),
            r == spec_increment(old(self).validators_requests(), peer_ip)[peer_ip],
    {
        let count = match self.seen_outbound_validators_requests.get(&peer_ip) {
            Some(c) => *c,
            None => 0,
        };
        let updated = count.saturating_add(1);
        self.seen_outbound_validators_requests.insert(peer_ip, updated);
        updated
    }

    /// Decrements the peer's number of validators requests (saturating), returning the
    /// updated number; a peer whose count was zero leaves the map.
    pub fn decrement_outbound_validators_requests(&mut self, peer_ip: PeerIp) -> (r: u32)
        requires
            old(self).wf(),
        ensures
            final(self).wf(),
            old(self).same_rates(final(self)),
            final(self).validators_requests() == spec_decrement(old(self).validators_requests(), peer_ip),
            r == (if old(self).validators_requests().contains_key(peer_ip) && old(self).validators_requests()[peer_ip] > 0 {
                old(self).validators_requests()[peer_ip] - 1
            } else {
                0
            }),
    {
        let count = match self.seen_outbound_validators_requests.get(&peer_ip) {
            Some(c) => *c,
            None => 0,
        };
        let value = count.saturating_sub(1);
        if count == 0 {
            self.seen_outbound_validators_requests.remove(&peer_ip);
        } else {
            self.seen_outbound_validators_requests.insert(peer_ip, value);
        }
        value
    }

    /// Clears the peer's number of validators requests.
    pub fn clear_outbound_validators_requests(&mut self, peer_ip: PeerIp)
        requires
            old(self).wf(),
        ensures
            final(self).wf(),
            old(self).same_rates(final(self)),
            final(self).validators_requests() == old(self).validators_requests().remove(peer_ip),
    {
        self.seen_outbound_validators_requests.remove(&peer_ip);
    }
}

} // verus!
