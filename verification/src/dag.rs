//! The DAG of batch certificates that the BFT orders: the uncommitted certificates by round
//! and author, the recently committed certificate IDs, and the last committed round.
use vstd::prelude::*;
use crate::assoc::{AssocMap, KeyEq, lemma_index_lookup, has_key};
use crate::types::{Address, BatchCertificate, BatchCertificateView, Field};

verus! {

/// A position in the DAG: a round and an author.
#[derive(Clone, Copy, Debug, PartialEq, Eq, Hash, Structural)]
pub struct RoundAuthor {
    pub round: u64,
    pub author: Address,
}

impl KeyEq for RoundAuthor {
    fn key_eq(&self, other: &Self) -> (r: bool) {
        *self == *other
    }
}

/// A committed certificate ID, with its round.
#[derive(Clone, Copy, Debug, PartialEq, Eq, Hash, Structural)]
pub struct RoundId {
    pub round: u64,
    pub id: Field,
}

impl KeyEq for RoundId {
    fn key_eq(&self, other: &Self) -> (r: bool) {
        *self == *other
    }
}

/// What the DAG holds, as the logic sees it.
pub struct DagView {
    /// The uncommitted certificates, by round and author.
    pub graph: Map<RoundAuthor, BatchCertificateView>,
    /// The recently committed certificate IDs, with their rounds.
    pub committed: Set<RoundId>,
    /// The last committed round.
    pub last_committed_round: u64,
    /// The last committed round of each author.
    pub last_committed_authors: Map<Address, u64>,
}

/// `true` if a round is kept after garbage collection at `last_committed_round`.
pub open spec fn above_gc(round: u64, max_gc_rounds: u64, last_committed_round: u64) -> bool {
    round + max_gc_rounds > last_committed_round
}

/// The DAG after `certificate` is inserted: a certificate that was recently committed is
/// not inserted; otherwise it takes the place of its author's certificate in its round.
pub open spec fn spec_insert(d: DagView, c: BatchCertificateView) -> DagView {
    if d.committed.contains(RoundId { round: c.header.round, id: c.id }) {
        d
    } else {
        DagView {
            graph: d.graph.insert(RoundAuthor { round: c.header.round, author: c.header.author }, c),
            ..d
        }
    }
}

/// The DAG after `certificate` is committed with `max_gc_rounds` rounds kept: its ID is
/// recorded, the last committed rounds advance, the rounds below the garbage collection
/// round are dropped, and so are its author's certificates up to its round.
pub open spec fn spec_commit(d: DagView, c: BatchCertificateView, max_gc_rounds: u64) -> DagView {
    let r = c.header.round;
    let a = c.header.author;
    if d.committed.contains(RoundId { round: r, id: c.id }) {
        d
    } else {
        let lcr = if r > d.last_committed_round {
            r
        } else {
            d.last_committed_round
        };
        let author_round = if d.last_committed_authors.contains_key(a)
            && d.last_committed_authors[a] > r {
            d.last_committed_authors[a]
        } else {
            r
        };
        DagView {
            graph: d.graph.restrict(
                d.graph.dom().filter(
                    |k: RoundAuthor| above_gc(k.round, max_gc_rounds, lcr) && (k.round > r || k.author != a),
                ),
            ),
            committed: d.committed.insert(RoundId { round: r, id: c.id }).filter(
                |k: RoundId| above_gc(k.round, max_gc_rounds, lcr),
            ),
            last_committed_round: lcr,
            last_committed_authors: d.last_committed_authors.insert(a, author_round),
        }
    }
}

/// The key under which the DAG holds a certificate: its round and author.
pub open spec fn graph_key(c: BatchCertificateView) -> RoundAuthor {
    RoundAuthor { round: c.header.round, author: c.header.author }
}

/// The key under which a committed certificate is recorded: its round and ID.
pub open spec fn committed_key(c: BatchCertificateView) -> RoundId {
    RoundId { round: c.header.round, id: c.id }
}

/// Committing never lowers the last committed round: it rises to the committed
/// certificate's round if that is higher.
pub proof fn law_commit_never_lowers_last_committed_round(d: DagView, c: BatchCertificateView, max_gc_rounds: u64)
    ensures
        spec_commit(d, c, max_gc_rounds).last_committed_round >= d.last_committed_round,
        !d.committed.contains(committed_key(c)) ==> spec_commit(d, c, max_gc_rounds).last_committed_round
            >= c.header.round,
{
}

/// A certificate that was just committed, in a round that garbage collection keeps, is not
/// inserted back into the DAG, and no certificate of its author up to its round is left.
pub proof fn law_committed_certificate_is_not_reinserted(d: DagView, c: BatchCertificateView, max_gc_rounds: u64)
    requires
        above_gc(c.header.round, max_gc_rounds, spec_commit(d, c, max_gc_rounds).last_committed_round)
            || d.committed.contains(committed_key(c)),
    ensures
        spec_insert(spec_commit(d, c, max_gc_rounds), c) == spec_commit(d, c, max_gc_rounds),
        !d.committed.contains(committed_key(c)) ==> forall|k: RoundAuthor|
            #[trigger] spec_commit(d, c, max_gc_rounds).graph.contains_key(k) ==> k.round > c.header.round || k.author
                != c.header.author,
{
    let d1 = spec_commit(d, c, max_gc_rounds);
    let id = committed_key(c);
    if !d.committed.contains(id) {
        assert(d1.committed.contains(id));
    }
}

/// An inserted certificate that was not recently committed is what the DAG holds for its
/// round and author; the other entries are unchanged.
pub proof fn law_insert_then_lookup(d: DagView, c: BatchCertificateView)
    requires
        !d.committed.contains(committed_key(c)),
    ensures
        spec_insert(d, c).graph.contains_key(graph_key(c)),
        spec_insert(d, c).graph[graph_key(c)] == c,
        forall|k: RoundAuthor| k != graph_key(c) ==> (
        #[trigger] spec_insert(d, c).graph.contains_key(k) == d.graph.contains_key(k)),
{
}

/// The DAG of certificates.
pub struct DAG {
    graph: AssocMap<RoundAuthor, BatchCertificate>,
    recent_committed_ids: AssocMap<RoundId, ()>,
    last_committed_round: u64,
    last_committed_authors: AssocMap<Address, u64>,
}

impl View for DAG {
    type V = DagView;

    closed spec fn view(&self) -> DagView {
        DagView {
            graph: Map::new(|k: RoundAuthor| self.graph@.contains_key(k), |k: RoundAuthor| self.graph@[k]@),
            committed: self.recent_committed_ids@.dom(),
            last_committed_round: self.last_committed_round,
            last_committed_authors: self.last_committed_authors@,
        }
    }
}

/// `true` if each certificate sits at its own round and author.
pub open spec fn graph_consistent(g: Map<RoundAuthor, BatchCertificateView>) -> bool {
    forall|k: RoundAuthor|
        #[trigger] g.contains_key(k) ==> g[k].header.round == k.round && g[k].header.author
            == k.author
}

impl DAG {
    /// The maps are well formed.
    pub closed spec fn inner_wf(&self) -> bool {
        &&& self.graph.wf()
        &&& self.recent_committed_ids.wf()
        &&& self.last_committed_authors.wf()
    }

    /// The DAG is well formed: each certificate sits at its own round and author.
    pub open spec fn wf(&self) -> bool {
        self.inner_wf() && graph_consistent(self@.graph)
    }

    /// Initializes an empty DAG.
    pub fn new() -> (r: DAG)
        ensures
            r.wf(),
            r@.graph == Map::<RoundAuthor, BatchCertificateView>::empty(),
            r@.committed == Set::<RoundId>::empty(),
            r@.last_committed_round == 0,
            r@.last_committed_authors == Map::<Address, u64>::empty(),
    {
        Self::with_last_committed_round(0)
    }

    /// Initializes an empty DAG whose last committed round is `round`.
    pub fn with_last_committed_round(round: u64) -> (r: DAG)
        ensures
            r.wf(),
            r@.graph == Map::<RoundAuthor, BatchCertificateView>::empty(),
            r@.committed == Set::<RoundId>::empty(),
            r@.last_committed_round == round,
            r@.last_committed_authors == Map::<Address, u64>::empty(),
    {
        let r = DAG {
            graph: AssocMap::new(),
            recent_committed_ids: AssocMap::new(),
            last_committed_round: round,
            last_committed_authors: AssocMap::new(),
        };
        assert(r@.graph =~= Map::<RoundAuthor, BatchCertificateView>::empty());
        r
    }

    /// Returns the last committed round.
    pub fn last_committed_round(&self) -> (r: u64)
        ensures
            r == self@.last_committed_round,
    {
        self.last_committed_round
    }

    /// Returns the last committed round of the author, if it has one.
    pub fn last_committed_round_of(&self, author: Address) -> (r: Option<u64>)
        requires
            self.wf(),
        ensures
            r is Some <==> self@.last_committed_authors.contains_key(author),
            r matches Some(x) ==> x == self@.last_committed_authors[author],
    {
        match self.last_committed_authors.get(&author) {
            Some(x) => Some(*x),
            None => None,
        }
    }

    /// Returns `true` if the certificate ID was recently committed in the round.
    pub fn is_recently_committed(&self, round: u64, certificate_id: Field) -> (r: bool)
        requires
            self.wf(),
        ensures
            r == self@.committed.contains(RoundId { round, id: certificate_id }),
    {
        self.recent_committed_ids.contains_key(&RoundId { round, id: certificate_id })
    }

    /// Returns the certificate of the author in the round, if it is in the DAG.
    pub fn get_certificate_for_round_with_author(&self, round: u64, author: Address) -> (r: Option<
        BatchCertificate,
    >)
        requires
            self.wf(),
        ensures
            r is Some <==> self@.graph.contains_key(RoundAuthor { round, author }),
            r matches Some(c) ==> c@ == self@.graph[RoundAuthor { round, author }],
    {
        match self.graph.get(&RoundAuthor { round, author }) {
            Some(c) => Some(c.duplicate()),
            None => None,
        }
    }

    /// Returns the certificates in the round, in the order in which they are held.
    fn round_certificates(&self, round: u64) -> (r: Vec<BatchCertificate>)
        requires
            self.wf(),
        ensures
            forall|i: int|
                0 <= i < r@.len() ==> self@.graph.contains_key(
                    RoundAuthor { round, author: #[trigger] r@[i]@.header.author },
                ) && r@[i]@ == self@.graph[RoundAuthor { round, author: r@[i]@.header.author }],
            forall|k: RoundAuthor|
                #[trigger] self@.graph.contains_key(k) && k.round == round ==> exists|i: int|
                    0 <= i < r@.len() && r@[i]@.header.author == k.author,
            forall|i: int, j: int|
                0 <= i < j < r@.len() ==> r@[i]@.header.author != r@[j]@.header.author,
    {
        proof {
            self.graph.lemma_view();
        }
        let ghost s = self.graph.seq();
        let n = self.graph.len();
        let mut out: Vec<BatchCertificate> = Vec::new();
        let ghost mut pos: Seq<int> = Seq::empty();
        let mut i: usize = 0;
        while i < n
            invariant
                self.wf(),
                s == self.graph.seq(),
                n == s.len(),
                i <= n,
                pos.len() == out@.len(),
                forall|t: int| 0 <= t < pos.len() ==> 0 <= #[trigger] pos[t] < i,
                forall|t: int| 0 <= t < pos.len() ==> s[#[trigger] pos[t]].0.round == round && out@[t]@
                    == s[pos[t]].1@ && out@[t]@.header.author == s[pos[t]].0.author,
                forall|t: int, u: int| 0 <= t < u < pos.len() ==> pos[t] < pos[u],
                forall|j: int| 0 <= j < i && #[trigger] s[j].0.round == round ==> exists|t: int|
                    0 <= t < pos.len() && pos[t] == j,
            decreases n - i,
        {
            let ghost pos0 = pos;
            let entry = self.graph.get_index(i);
            if entry.0.round == round {
                proof {
                    self.graph.lemma_view();
                    assert(self.graph@.contains_key(s[i as int].0));
                    assert(self@.graph.contains_key(s[i as int].0));
                }
                out.push(entry.1.duplicate());
                proof {
                    pos = pos.push(i as int);
                }
            }
            proof {
                assert forall|j: int| 0 <= j < i + 1 && #[trigger] s[j].0.round == round implies exists|t: int|
                    0 <= t < pos.len() && pos[t] == j by {
                    if j == i {
                        assert(pos[pos.len() - 1] == j);
                    } else {
                        let t = choose|t: int| 0 <= t < pos0.len() && pos0[t] == j;
                        assert(pos[t] == j);
                    }
                }
            }
            i = i + 1;
        }
        proof {
            self.graph.lemma_view();
            assert forall|t: int| 0 <= t < out@.len() implies self@.graph.contains_key(
                RoundAuthor { round, author: #[trigger] out@[t]@.header.author },
            ) && out@[t]@ == self@.graph[RoundAuthor { round, author: out@[t]@.header.author }] by {
                let j = pos[t];
                assert(s[j].0 == RoundAuthor { round, author: out@[t]@.header.author });
                assert(self.graph@.contains_key(s[j].0));
            }
            assert forall|k: RoundAuthor| #[trigger]
                self@.graph.contains_key(k) && k.round == round implies exists|t: int|
                0 <= t < out@.len() && out@[t]@.header.author == k.author by {
                assert(self.graph@.contains_key(k));
                let j = choose|j: int| 0 <= j < s.len() && s[j].0 == k;
                assert(s[j].0.round == round);
                let t = choose|t: int| 0 <= t < pos.len() && pos[t] == j;
                assert(out@[t]@.header.author == k.author);
            }
            assert forall|t: int, u: int| 0 <= t < u < out@.len() implies out@[t]@.header.author
                != out@[u]@.header.author by {
                assert(pos[t] < pos[u]);
                assert(s[pos[t]].0 != s[pos[u]].0);
            }
        }
        out
    }

    /// Returns all the certificates of the DAG.
    pub fn certificates(&self) -> (r: Vec<BatchCertificate>)
        requires
            self.wf(),
        ensures
            forall|k: RoundAuthor|
                #[trigger] self@.graph.contains_key(k) ==> exists|i: int| 0 <= i < r@.len() && r@[i]@ == self@.graph[k],
    {
        proof {
            self.graph.lemma_view();
        }
        let ghost s = self.graph.seq();
        let n = self.graph.len();
        let mut out: Vec<BatchCertificate> = Vec::new();
        let mut i: usize = 0;
        while i < n
            invariant
                self.wf(),
                s == self.graph.seq(),
                n == s.len(),
                i <= n,
                out@.len() == i,
                forall|j: int| 0 <= j < i ==> out@[j]@ == s[j].1@,
            decreases n - i,
        {
            out.push(self.graph.get_index(i).1.duplicate());
            i = i + 1;
        }
        proof {
            self.graph.lemma_view();
            assert forall|k: RoundAuthor| #[trigger] self@.graph.contains_key(k) implies exists|i: int|
                0 <= i < out@.len() && out@[i]@ == self@.graph[k] by {
                assert(self.graph@.contains_key(k));
                let j = choose|j: int| 0 <= j < s.len() && s[j].0 == k;
                assert(out@[j]@ == self@.graph[k]);
            }
        }
        out
    }

    /// Returns the certificates in the round, or `None` if the round holds none. Each author
    /// occurs once.
    pub fn get_certificates_for_round(&self, round: u64) -> (r: Option<Vec<BatchCertificate>>)
        requires
            self.wf(),
        ensures
            r is None <==> !(exists|k: RoundAuthor| #[trigger] self@.graph.contains_key(k) && k.round == round),
            r matches Some(v) ==> {
                &&& forall|i: int|
                    0 <= i < v@.len() ==> self@.graph.contains_key(
                        RoundAuthor { round, author: #[trigger] v@[i]@.header.author },
                    ) && v@[i]@ == self@.graph[RoundAuthor { round, author: v@[i]@.header.author }]
                &&& forall|k: RoundAuthor|
                    #[trigger] self@.graph.contains_key(k) && k.round == round ==> exists|i: int|
                        0 <= i < v@.len() && v@[i]@.header.author == k.author
                &&& forall|i: int, j: int|
                    0 <= i < j < v@.len() ==> v@[i]@.header.author != v@[j]@.header.author
            },
    {
        let v = self.round_certificates(round);
        if v.len() == 0 {
            proof {
                if exists|k: RoundAuthor| #[trigger] self@.graph.contains_key(k) && k.round == round {
                    let k = choose|k: RoundAuthor| #[trigger] self@.graph.contains_key(k) && k.round == round;
                    assert(exists|i: int| 0 <= i < v@.len() && v@[i]@.header.author == k.author);
                }
            }
            None
        } else {
            proof {
                let c = v@[0]@;
                assert(self@.graph.contains_key(RoundAuthor { round, author: c.header.author }));
            }
            Some(v)
        }
    }

    /// Returns the certificate with the ID in the round, if it is in the DAG.
    pub fn get_certificate_for_round_with_id(&self, round: u64, certificate_id: Field) -> (r: Option<
        BatchCertificate,
    >)
        requires
            self.wf(),
        ensures
            r is Some <==> exists|k: RoundAuthor|
                #[trigger] self@.graph.contains_key(k) && k.round == round && self@.graph[k].id
                    == certificate_id,
            r matches Some(c) ==> c@.id == certificate_id && self@.graph.contains_key(
                RoundAuthor { round, author: c@.header.author },
            ) && self@.graph[RoundAuthor { round, author: c@.header.author }] == c@,
    {
        let v = self.round_certificates(round);
        let mut i: usize = 0;
        while i < v.len()
            invariant
                i <= v@.len(),
                forall|j: int| 0 <= j < i ==> v@[j]@.id != certificate_id,
                forall|j: int|
                    0 <= j < v@.len() ==> self@.graph.contains_key(
                        RoundAuthor { round, author: #[trigger] v@[j]@.header.author },
                    ) && v@[j]@ == self@.graph[RoundAuthor { round, author: v@[j]@.header.author }],
            decreases v@.len() - i,
        {
            if v[i].id() == certificate_id {
                proof {
                    let k = RoundAuthor { round, author: v@[i as int]@.header.author };
                    assert(self@.graph.contains_key(k) && k.round == round && self@.graph[k].id
                        == certificate_id);
                }
                return Some(v[i].duplicate());
            }
            i = i + 1;
        }
        proof {
            if exists|k: RoundAuthor|
                #[trigger] self@.graph.contains_key(k) && k.round == round && self@.graph[k].id
                    == certificate_id {
                let k = choose|k: RoundAuthor|
                    #[trigger] self@.graph.contains_key(k) && k.round == round && self@.graph[k].id
                        == certificate_id;
                let j = choose|j: int| 0 <= j < v@.len() && v@[j]@.header.author == k.author;
                assert(v@[j]@ == self@.graph[k]);
            }
        }
        None
    }

    /// Returns `true` if the certificate ID is in the DAG in the round.
    pub fn contains_certificate_in_round(&self, round: u64, certificate_id: Field) -> (r: bool)
        requires
            self.wf(),
        ensures
            r == exists|k: RoundAuthor|
                #[trigger] self@.graph.contains_key(k) && k.round == round && self@.graph[k].id
                    == certificate_id,
    {
        self.get_certificate_for_round_with_id(round, certificate_id).is_some()
    }

    /// Inserts the certificate into the DAG, unless it was recently committed.
    pub fn insert(&mut self, certificate: BatchCertificate)
        requires
            old(self).wf(),
        ensures
            final(self).wf(),
            final(self)@ == spec_insert(old(self)@, certificate@),
    {
        let ghost d0 = self@;
        let round = certificate.round();
        let author = certificate.author();
        if !self.recent_committed_ids.contains_key(&RoundId { round, id: certificate.id() }) {
            self.graph.insert(RoundAuthor { round, author }, certificate);
            assert(self@.graph =~= spec_insert(d0, certificate@).graph);
        }
    }

    /// Commits the certificate, keeping `max_gc_rounds` rounds below the last committed round.
    pub fn commit(&mut self, certificate: &BatchCertificate, max_gc_rounds: u64)
        requires
            old(self).wf(),
        ensures
            final(self).wf(),
            final(self)@ == spec_commit(old(self)@, certificate@, max_gc_rounds),
    {
        let ghost d0 = self@;
        let certificate_id = certificate.id();
        let author = certificate.author();
        let certificate_round = certificate.round();
        // Record the certificate ID, unless it was already recorded.
        let key = RoundId { round: certificate_round, id: certificate_id };
        if self.recent_committed_ids.contains_key(&key) {
            return;
        }
        self.recent_committed_ids.insert(key, ());
        // Update the last committed round of the author.
        let author_round = match self.last_committed_authors.get(&author) {
            Some(r) => if *r > certificate_round {
                *r
            } else {
                certificate_round
            },
            None => certificate_round,
        };
        self.last_committed_authors.insert(author, author_round);
        // Update the last committed round.
        if certificate_round > self.last_committed_round {
            self.last_committed_round = certificate_round;
        }
        let lcr = self.last_committed_round;
        // Remove the rounds below the garbage collection round, and the certificates of the
        // author at or below the committed round.
        let mut ids = AssocMap::new();
        std::mem::swap(&mut ids, &mut self.recent_committed_ids);
        self.recent_committed_ids = retain_committed(ids, lcr, max_gc_rounds);
        let mut graph = AssocMap::new();
        std::mem::swap(&mut graph, &mut self.graph);
        self.graph = retain_graph(graph, lcr, max_gc_rounds, author, certificate_round);
        proof {
            let e = spec_commit(d0, certificate@, max_gc_rounds);
            assert(self@.committed =~= e.committed);
            assert(self@.graph =~= e.graph);
        }
    }
}

/// Keeps the committed IDs whose round is above the garbage collection round.
fn retain_committed(m: AssocMap<RoundId, ()>, lcr: u64, max_gc_rounds: u64) -> (r: AssocMap<
    RoundId,
    (),
>)
    requires
        m.wf(),
    ensures
        r.wf(),
        r@.dom() == m@.dom().filter(|k: RoundId| above_gc(k.round, max_gc_rounds, lcr)),
{
    proof {
        m.lemma_view();
    }
    let ghost s = m.seq();
    let ghost m0 = m@;
    let mut rest = m.into_entries();
    let _n: usize = rest.len();
    let mut out: AssocMap<RoundId, ()> = AssocMap::new();
    let mut i: usize = 0;
    while rest.len() > 0
        invariant
            crate::assoc::keys_distinct(s),
            m0 == crate::assoc::seq_to_map(s),
            i <= s.len(),
            s.len() <= usize::MAX,
            rest@ == s.subrange(i as int, s.len() as int),
            out.wf(),
            forall|k: RoundId|
                #[trigger] out@.contains_key(k) <==> (exists|j: int| 0 <= j < i && s[j].0 == k)
                    && above_gc(k.round, max_gc_rounds, lcr),
        decreases rest.len(),
    {
        let (k, v) = rest.remove(0);
        assert(s[i as int] == (k, v));
        let keep = (k.round as u128) + (max_gc_rounds as u128) > (lcr as u128);
        if keep {
            out.insert(k, v);
        }
        proof {
            assert forall|x: RoundId| #[trigger] out@.contains_key(x) <==> (exists|j: int|
                0 <= j < i + 1 && s[j].0 == x) && above_gc(x.round, max_gc_rounds, lcr) by {
                if exists|j: int| 0 <= j < i + 1 && s[j].0 == x {
                    let j = choose|j: int| 0 <= j < i + 1 && s[j].0 == x;
                    if j < i {
                        assert(exists|j2: int| 0 <= j2 < i && s[j2].0 == x);
                    }
                }
                if exists|j: int| 0 <= j < i && s[j].0 == x {
                    let j = choose|j: int| 0 <= j < i && s[j].0 == x;
                    assert(0 <= j < i + 1 && s[j].0 == x);
                }
            }
        }
        i = i + 1;
    }
    proof {
        assert forall|k: RoundId| #[trigger] out@.dom().contains(k) <==> m0.dom().filter(
            |k: RoundId| above_gc(k.round, max_gc_rounds, lcr),
        ).contains(k) by {
            if out@.contains_key(k) {
                let j = choose|j: int| 0 <= j < i && s[j].0 == k;
                assert(has_key(s, k));
            }
            if m0.dom().contains(k) {
                assert(has_key(s, k));
            }
        }
        assert(out@.dom() =~= m0.dom().filter(|k: RoundId| above_gc(k.round, max_gc_rounds, lcr)));
    }
    out
}

/// Keeps the certificates whose round is above the garbage collection round, except those
/// of `author` at or below `upto_round`.
fn retain_graph(
    m: AssocMap<RoundAuthor, BatchCertificate>,
    lcr: u64,
    max_gc_rounds: u64,
    author: Address,
    upto_round: u64,
) -> (r: AssocMap<RoundAuthor, BatchCertificate>)
    requires
        m.wf(),
    ensures
        r.wf(),
        r@ == m@.restrict(
            m@.dom().filter(
                |k: RoundAuthor|
                    above_gc(k.round, max_gc_rounds, lcr) && (k.round > upto_round || k.author
                        != author),
            ),
        ),
{
    proof {
        m.lemma_view();
    }
    let ghost s = m.seq();
    let ghost m0 = m@;
    let ghost keep_key = |k: RoundAuthor|
        above_gc(k.round, max_gc_rounds, lcr) && (k.round > upto_round || k.author != author);
    let mut rest = m.into_entries();
    let _n: usize = rest.len();
    let mut out: AssocMap<RoundAuthor, BatchCertificate> = AssocMap::new();
    let mut i: usize = 0;
    while rest.len() > 0
        invariant
            crate::assoc::keys_distinct(s),
            m0 == crate::assoc::seq_to_map(s),
            i <= s.len(),
            s.len() <= usize::MAX,
            rest@ == s.subrange(i as int, s.len() as int),
            out.wf(),
            keep_key == (|k: RoundAuthor|
                above_gc(k.round, max_gc_rounds, lcr) && (k.round > upto_round || k.author
                    != author)),
            forall|k: RoundAuthor|
                #[trigger] out@.contains_key(k) <==> (exists|j: int| 0 <= j < i && s[j].0 == k)
                    && keep_key(k),
            forall|k: RoundAuthor| #[trigger] out@.contains_key(k) ==> out@[k] == m0[k],
        decreases rest.len(),
    {
        let (k, v) = rest.remove(0);
        assert(s[i as int] == (k, v));
        proof {
            lemma_index_lookup(s, i as int);
        }
        let keep = (k.round as u128) + (max_gc_rounds as u128) > (lcr as u128) && (k.round
            > upto_round || k.author != author);
        if keep {
            out.insert(k, v);
        }
        proof {
            assert forall|x: RoundAuthor| #[trigger] out@.contains_key(x) <==> (exists|j: int|
                0 <= j < i + 1 && s[j].0 == x) && keep_key(x) by {
                if exists|j: int| 0 <= j < i + 1 && s[j].0 == x {
                    let j = choose|j: int| 0 <= j < i + 1 && s[j].0 == x;
                    if j < i {
                        assert(exists|j2: int| 0 <= j2 < i && s[j2].0 == x);
                    }
                }
                if exists|j: int| 0 <= j < i && s[j].0 == x {
                    let j = choose|j: int| 0 <= j < i && s[j].0 == x;
                    assert(0 <= j < i + 1 && s[j].0 == x);
                }
            }
        }
        i = i + 1;
    }
    proof {
        let e = m0.restrict(m0.dom().filter(keep_key));
        assert forall|k: RoundAuthor| #[trigger] out@.dom().contains(k) <==> e.dom().contains(k) by {
            if out@.contains_key(k) {
                let j = choose|j: int| 0 <= j < i && s[j].0 == k;
                assert(has_key(s, k));
            }
            if m0.dom().contains(k) {
                assert(has_key(s, k));
            }
        }
        assert(out@ =~= e);
    }
    out
}

} // verus!
