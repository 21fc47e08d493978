//! The order in which a committed leader certificate brings its subDAG: a depth-first
//! search from the leader through previous-certificate links, down to the garbage
//! collection round, sorted by round.
use vstd::prelude::*;
use crate::bft::{BftError, holds_view, in_round, views, contains_certificate};
use crate::dag::{DAG, DagView, RoundAuthor, RoundId, above_gc};
use crate::types::{BatchCertificate, BatchCertificateView, Field, contains_field};

verus! {

/// The round below the round of `c` (zero for round zero).
pub open spec fn prev_round(c: BatchCertificateView) -> int {
    if c.header.round >= 1 {
        c.header.round - 1
    } else {
        0
    }
}

/// `true` if the ordering looks at the previous certificates of `c`: its previous round is
/// above the garbage collection round.
pub open spec fn expands(c: BatchCertificateView, max_gc_rounds: u64, last_committed_round: u64) -> bool {
    prev_round(c) + max_gc_rounds > last_committed_round
}

/// `true` if the ordering passes over the previous certificate `p` of round `r`: it was
/// recently committed, or (with ledger access) the ledger holds it.
pub open spec fn skipped(d: DagView, ledger_ids: Seq<Field>, allow_ledger_access: bool, p: Field, r: int) -> bool {
    d.committed.contains(RoundId { round: r as u64, id: p }) || (allow_ledger_access && ledger_ids.contains(p))
}

/// `true` if `c` is the first certificate of storage with the ID.
pub open spec fn first_in_storage(storage: Seq<BatchCertificateView>, p: Field, c: BatchCertificateView) -> bool {
    exists|i: int|
        0 <= i < storage.len() && #[trigger] storage[i] == c && c.id == p && forall|j: int|
            0 <= j < i ==> #[trigger] storage[j].id != p
}

/// `true` if storage holds a certificate with the ID.
pub open spec fn in_storage(storage: Seq<BatchCertificateView>, p: Field) -> bool {
    exists|i: int| 0 <= i < storage.len() && #[trigger] storage[i].id == p
}

/// `true` if the DAG holds a certificate with the ID in round `r`.
pub open spec fn in_dag(d: DagView, p: Field, r: int) -> bool {
    exists|k: RoundAuthor| #[trigger] d.graph.contains_key(k) && k.round == r && d.graph[k].id == p
}

/// `true` if `c` is what the previous certificate `p` of round `r` resolves to: a
/// certificate of the DAG in that round with the ID, or else the first certificate of
/// storage with the ID.
pub open spec fn resolves(d: DagView, storage: Seq<BatchCertificateView>, p: Field, r: int, c: BatchCertificateView) -> bool {
    if in_dag(d, p, r) {
        in_round(d.graph, r, c) && c.id == p
    } else {
        first_in_storage(storage, p, c)
    }
}

/// `true` if neither the DAG (in round `r`) nor storage holds the previous certificate `p`.
pub open spec fn unresolvable(d: DagView, storage: Seq<BatchCertificateView>, p: Field, r: int) -> bool {
    !in_dag(d, p, r) && !in_storage(storage, p)
}

/// `true` if `p` is a previous certificate of `c` that the ordering must find.
pub open spec fn needed(
    d: DagView,
    ledger_ids: Seq<Field>,
    allow_ledger_access: bool,
    max_gc_rounds: u64,
    c: BatchCertificateView,
    p: Field,
) -> bool {
    expands(c, max_gc_rounds, d.last_committed_round) && c.header.previous_certificate_ids.contains(p)
        && !skipped(d, ledger_ids, allow_ledger_access, p, prev_round(c))
}

/// `true` if every needed previous certificate of a certificate of `e` is in `e`.
pub open spec fn closed(
    e: Seq<BatchCertificateView>,
    d: DagView,
    ledger_ids: Seq<Field>,
    allow_ledger_access: bool,
    max_gc_rounds: u64,
) -> bool {
    forall|j: int, p: Field|
        0 <= j < e.len() && #[trigger] needed(d, ledger_ids, allow_ledger_access, max_gc_rounds, e[j], p)
            ==> exists|i: int| 0 <= i < e.len() && e[i].id == p
}

/// `true` if no two certificates hold the same values.
pub open spec fn distinct_views(v: Seq<BatchCertificate>) -> bool {
    forall|i: int, j: int| 0 <= i < j < v.len() ==> v[i]@ != v[j]@
}

/// `true` if the rounds of the certificates do not decrease.
pub open spec fn sorted_by_round(v: Seq<BatchCertificate>) -> bool {
    forall|i: int, j: int| 0 <= i < j < v.len() ==> v[i]@.header.round <= v[j]@.header.round
}

/// The predicate of the certificates of round `rd`.
pub open spec fn round_is(rd: u64) -> spec_fn(BatchCertificateView) -> bool {
    |c: BatchCertificateView| c.header.round == rd
}

/// The certificates of `o` in round `rd`, in order, where that round is above the garbage
/// collection round, and none otherwise.
pub open spec fn round_part(o: Seq<BatchCertificateView>, rd: u64, max_gc_rounds: u64, last_committed_round: u64) -> Seq<
    BatchCertificateView,
> {
    if above_gc(rd, max_gc_rounds, last_committed_round) {
        o.filter(round_is(rd))
    } else {
        Seq::empty()
    }
}

/// A filter that no element passes keeps nothing.
proof fn lemma_filter_none<A>(s: Seq<A>, p: spec_fn(A) -> bool)
    requires
        forall|i: int| 0 <= i < s.len() ==> !p(#[trigger] s[i]),
    ensures
        s.filter(p) == Seq::<A>::empty(),
    decreases s.len(),
{
    reveal(Seq::filter);
    if s.len() > 0 {
        lemma_filter_none(s.drop_last(), p);
    }
    assert(s.filter(p) =~= Seq::<A>::empty());
}

/// Inserting `x` after the certificates of rounds up to its own and before those of later
/// rounds appends it to its round, and leaves the other rounds as they were.
proof fn lemma_insert_round_filter(v: Seq<BatchCertificateView>, pos: int, x: BatchCertificateView, rd: u64)
    requires
        0 <= pos <= v.len(),
        forall|j: int| pos <= j < v.len() ==> (#[trigger] v[j]).header.round > x.header.round,
    ensures
        v.insert(pos, x).filter(round_is(rd)) == if x.header.round == rd {
            v.filter(round_is(rd)).push(x)
        } else {
            v.filter(round_is(rd))
        },
{
    let a = v.take(pos);
    let b = v.skip(pos);
    assert(v =~= a + b);
    assert(v.insert(pos, x) =~= a + seq![x] + b);
    Seq::filter_distributes_over_add(a, b, round_is(rd));
    Seq::filter_distributes_over_add(a + seq![x], b, round_is(rd));
    Seq::filter_distributes_over_add(a, seq![x], round_is(rd));
    assert(seq![x] =~= Seq::<BatchCertificateView>::empty().push(x));
    Seq::<BatchCertificateView>::empty().lemma_filter_push(x, round_is(rd));
    assert(Seq::<BatchCertificateView>::empty().filter(round_is(rd)) =~= Seq::<BatchCertificateView>::empty()) by {
        reveal(Seq::filter);
    }
    if x.header.round == rd {
        assert forall|i: int| 0 <= i < b.len() implies !round_is(rd)(#[trigger] b[i]) by {
            assert(b[i] == v[pos + i]);
        }
        lemma_filter_none(b, round_is(rd));
        assert(seq![x].filter(round_is(rd)) =~= seq![x]);
        assert(a.filter(round_is(rd)) + b.filter(round_is(rd)) =~= a.filter(round_is(rd)));
        assert(a.filter(round_is(rd)) + seq![x] =~= a.filter(round_is(rd)).push(x));
    } else {
        assert(seq![x].filter(round_is(rd)) =~= Seq::<BatchCertificateView>::empty());
        assert(a.filter(round_is(rd)) + Seq::<BatchCertificateView>::empty() =~= a.filter(round_is(rd)));
    }
}

/// Resolves the previous certificate `p` of round `round`: from the DAG, or else from the
/// certificates of storage.
fn resolve_previous(dag: &DAG, storage: &Vec<BatchCertificate>, p: Field, round: u64) -> (r: Option<BatchCertificate>)
    requires
        dag.wf(),
    ensures
        match r {
            Some(c) => resolves(dag@, views(storage@), p, round as int, c@),
            None => unresolvable(dag@, views(storage@), p, round as int),
        },
{
    match dag.get_certificate_for_round_with_id(round, p) {
        Some(c) => {
            proof {
                let k = RoundAuthor { round, author: c@.header.author };
                assert(dag@.graph.contains_key(k) && k.round == round && dag@.graph[k].id == p);
                assert(in_dag(dag@, p, round as int));
                assert(in_round(dag@.graph, round as int, c@));
            }
            Some(c)
        },
        None => {
            let ghost vs = views(storage@);
            let mut i: usize = 0;
            while i < storage.len()
                invariant
                    vs == views(storage@),
                    !in_dag(dag@, p, round as int),
                    i <= storage@.len(),
                    forall|j: int| 0 <= j < i ==> vs[j].id != p,
                decreases storage@.len() - i,
            {
                if storage[i].id() == p {
                    let c = storage[i].duplicate();
                    proof {
                        assert(vs[i as int] == c@);
                        assert(first_in_storage(vs, p, c@));
                    }
                    return Some(c);
                }
                i = i + 1;
            }
            None
        },
    }
}

/// Keeps the certificates above the garbage collection round, ordered by round; the order
/// within a round is kept.
fn sort_above_gc(v: Vec<BatchCertificate>, max_gc_rounds: u64, last_committed_round: u64) -> (r: Vec<BatchCertificate>)
    requires
        distinct_views(v@),
    ensures
        sorted_by_round(r@),
        distinct_views(r@),
        forall|rd: u64| #[trigger] views(r@).filter(round_is(rd)) == round_part(views(v@), rd, max_gc_rounds, last_committed_round),
        forall|c: BatchCertificateView|
            #![trigger holds_view(r@, c)]
            #![trigger holds_view(v@, c)]
            holds_view(r@, c) <==> (holds_view(v@, c) && above_gc(c.header.round, max_gc_rounds, last_committed_round)),
{
    let ghost s = v@;
    let _n: usize = v.len();
    let mut rest = v;
    let mut out: Vec<BatchCertificate> = Vec::new();
    let mut i: usize = 0;
    while rest.len() > 0
        invariant
            i <= s.len(),
            s.len() <= usize::MAX,
            distinct_views(s),
            rest@ == s.subrange(i as int, s.len() as int),
            sorted_by_round(out@),
            distinct_views(out@),
            forall|c: BatchCertificateView|
                #![trigger holds_view(out@, c)]
                holds_view(out@, c) <==> (holds_view(s.subrange(0, i as int), c) && above_gc(c.header.round, max_gc_rounds, last_committed_round)),
            forall|rd: u64| #[trigger] views(out@).filter(round_is(rd)) == round_part(views(s.subrange(0, i as int)), rd, max_gc_rounds, last_committed_round),
        decreases rest.len(),
    {
        let x = rest.remove(0);
        let ghost vout0 = views(out@);
        assert(x == s[i as int]);
        let ghost out0 = out@;
        let ghost mut ins: int = 0;
        let keep = (x.round() as u128) + (max_gc_rounds as u128) > (last_committed_round as u128);
        if keep {
            // Insert after the certificates of the same or lower rounds.
            let mut pos: usize = 0;
            while pos < out.len() && out[pos].round() <= x.round()
                invariant
                    pos <= out@.len(),
                    forall|t: int| 0 <= t < pos ==> out@[t]@.header.round <= x@.header.round,
                decreases out@.len() - pos,
            {
                pos = pos + 1;
            }
            proof {
                // `x` is not yet in `out`, as the certificates of `v` are distinct.
                if holds_view(out0, x@) {
                    let t = choose|t: int| 0 <= t < s.subrange(0, i as int).len() && s.subrange(0, i as int)[t]@ == x@;
                    assert(s[t]@ == s[i as int]@);
                }
            }
            out.insert(pos, x);
            proof {
                ins = pos as int;
                assert(out@ == out0.insert(pos as int, s[i as int]));
                assert forall|a: int, b: int| 0 <= a < b < out@.len() implies out@[a]@.header.round <= out@[b]@.header.round by {
                    if a < pos && b > pos {
                        assert(out@[b] == out0[b - 1]);
                        if pos < out0.len() {
                            assert(out0[pos as int]@.header.round > x@.header.round);
                            assert(out0[a]@.header.round <= out0[b - 1]@.header.round);
                        }
                    } else if a == pos {
                        assert(out@[b] == out0[b - 1]);
                        assert(out0[pos as int]@.header.round <= out0[b - 1]@.header.round);
                    } else if b == pos {
                    } else if a > pos {
                        assert(out@[a] == out0[a - 1]);
                        assert(out@[b] == out0[b - 1]);
                    }
                }
                assert forall|a: int, b: int| 0 <= a < b < out@.len() implies out@[a]@ != out@[b]@ by {
                    if a == pos {
                        assert(out@[b] == out0[b - 1]);
                        assert(holds_view(out0, out0[b - 1]@));
                    } else if b == pos {
                        assert(holds_view(out0, out0[a]@));
                    } else {
                        let a0 = if a < pos { a } else { a - 1 };
                        let b0 = if b < pos { b } else { b - 1 };
                        assert(out@[a] == out0[a0]);
                        assert(out@[b] == out0[b0]);
                    }
                }
            }
        }
        proof {
            let s0 = s.subrange(0, i as int);
            let s1 = s.subrange(0, i as int + 1);
            assert(views(s1) =~= views(s0).push(x@));
            assert forall|rd: u64| #[trigger] views(out@).filter(round_is(rd)) == round_part(views(s1), rd, max_gc_rounds, last_committed_round) by {
                views(s0).lemma_filter_push(x@, round_is(rd));
                if keep {
                    assert(views(out@) =~= vout0.insert(ins, x@));
                    assert forall|j: int| ins <= j < vout0.len() implies (#[trigger] vout0[j]).header.round > x@.header.round by {
                        assert(out0[ins] == out@[ins + 1]);
                        assert(vout0[ins] == out0[ins]@);
                        assert(vout0[j] == out0[j]@);
                        if ins < vout0.len() {
                            assert(out0[ins]@.header.round > x@.header.round);
                            assert(out0[ins]@.header.round <= out0[j]@.header.round);
                        }
                    }
                    lemma_insert_round_filter(vout0, ins, x@, rd);
                } else {
                    assert(views(out@) =~= vout0);
                }
            }
            assert forall|c: BatchCertificateView|
                #![trigger holds_view(out@, c)]
                holds_view(out@, c) <==> (holds_view(s1, c) && above_gc(c.header.round, max_gc_rounds, last_committed_round)) by {
                if holds_view(out@, c) {
                    let t = choose|t: int| 0 <= t < out@.len() && out@[t]@ == c;
                    if keep && t == ins {
                        assert(s1[i as int]@ == c);
                    } else {
                        if keep {
                            if t < ins {
                                assert(out0[t] == out@[t]);
                            } else {
                                assert(out0[t - 1] == out@[t]);
                            }
                        }
                        assert(holds_view(out0, c));
                        let t2 = choose|t2: int| 0 <= t2 < s0.len() && s0[t2]@ == c;
                        assert(s1[t2]@ == c);
                    }
                }
                if holds_view(s1, c) && above_gc(c.header.round, max_gc_rounds, last_committed_round) {
                    let t = choose|t: int| 0 <= t < s1.len() && s1[t]@ == c;
                    if t == i {
                        assert(keep);
                        assert(out@[ins]@ == c);
                    } else {
                        assert(s0[t]@ == c);
                        assert(holds_view(s0, c));
                        assert(holds_view(out0, c));
                        let t2 = choose|t2: int| 0 <= t2 < out0.len() && out0[t2]@ == c;
                        if keep {
                            if t2 < ins {
                                assert(out@[t2] == out0[t2]);
                            } else {
                                assert(out@[t2 + 1] == out0[t2]);
                            }
                        } else {
                            assert(out@[t2] == out0[t2]);
                        }
                    }
                }
            }
        }
        i = i + 1;
    }
    proof {
        assert(s.subrange(0, s.len() as int) =~= s);
    }
    out
}

/// What the search reads: the DAG, the certificates of storage, the certificate IDs that the
/// ledger holds, whether it may look at them, and the garbage collection depth.
pub struct DfsEnv {
    pub d: DagView,
    pub storage: Seq<BatchCertificateView>,
    pub ledger_ids: Seq<Field>,
    pub allow_ledger_access: bool,
    pub max_gc_rounds: u64,
}

/// The search's stack, the previous certificate IDs found so far, and `picks`: the
/// certificates that the previous certificates still to be found resolve to, in the order
/// in which they are found.
pub struct DfsFrontier {
    pub stack: Seq<BatchCertificateView>,
    pub already: Seq<Field>,
    pub picks: Seq<BatchCertificateView>,
}

/// The search's reading of a DAG, storage and ledger.
pub open spec fn dfs_env(d: DagView, storage: Seq<BatchCertificateView>, ledger_ids: Seq<Field>, allow_ledger_access: bool, max_gc_rounds: u64) -> DfsEnv {
    DfsEnv { d, storage, ledger_ids, allow_ledger_access, max_gc_rounds }
}

/// The ID and round that an error reports missing (none for other errors).
pub open spec fn missing_of(err: BftError) -> (Field, u64) {
    match err {
        BftError::MissingPreviousCertificate(p, r) => (p, r),
        _ => (0, 0),
    }
}

/// How a search ends: with the certificates in the order in which they were taken off the
/// stack; on a needed previous certificate (ID and round) that neither the DAG nor storage
/// holds; or stuck, where the fuel ran out or a pick does not resolve the certificate it
/// stands for.
pub enum DfsOutcome {
    Ordered(Seq<BatchCertificateView>),
    Missing(Field, u64),
    Stuck,
}

/// Looks at the previous certificates `0..k` of `c`, from the last to the first: one that
/// was already found, recently committed or (with ledger access) in the ledger is passed
/// over; one that cannot be resolved ends the search with its ID and round; otherwise the
/// next pick, which must resolve it, is pushed on the stack and its ID recorded. Ends with
/// the new frontier, or `Err(Some((id, round)))` for the missing certificate, or
/// `Err(None)` for a pick that does not resolve.
pub open spec fn expand_spec(env: DfsEnv, c: BatchCertificateView, k: int, f: DfsFrontier) -> Result<
    DfsFrontier,
    Option<(Field, u64)>,
>
    decreases k,
{
    if k <= 0 {
        Ok(f)
    } else {
        let p = c.header.previous_certificate_ids[k - 1];
        let r = prev_round(c);
        if f.already.contains(p) || skipped(env.d, env.ledger_ids, env.allow_ledger_access, p, r) {
            expand_spec(env, c, k - 1, f)
        } else if unresolvable(env.d, env.storage, p, r) {
            Err(Some((p, r as u64)))
        } else if f.picks.len() > 0 && resolves(env.d, env.storage, p, r, f.picks[0]) {
            expand_spec(
                env,
                c,
                k - 1,
                DfsFrontier { stack: f.stack.push(f.picks[0]), already: f.already.push(p), picks: f.picks.drop_first() },
            )
        } else {
            Err(None)
        }
    }
}

/// One step of the search: the top certificate is taken off the stack and ordered (once),
/// and its previous certificates are looked at where its previous round is above the
/// garbage collection round.
pub open spec fn dfs_step(env: DfsEnv, f: DfsFrontier, ordered: Seq<BatchCertificateView>) -> Result<
    (DfsFrontier, Seq<BatchCertificateView>),
    Option<(Field, u64)>,
> {
    let c = f.stack.last();
    let f1 = DfsFrontier { stack: f.stack.drop_last(), already: f.already, picks: f.picks };
    let o1 = if ordered.contains(c) { ordered } else { ordered.push(c) };
    if expands(c, env.max_gc_rounds, env.d.last_committed_round) {
        match expand_spec(env, c, c.header.previous_certificate_ids.len() as int, f1) {
            Ok(f2) => Ok((f2, o1)),
            Err(e) => Err(e),
        }
    } else {
        Ok((f1, o1))
    }
}

/// The search run for at most `fuel` steps from the frontier, with `ordered` taken off the
/// stack so far.
pub open spec fn dfs_run(env: DfsEnv, fuel: nat, f: DfsFrontier, ordered: Seq<BatchCertificateView>) -> DfsOutcome
    decreases fuel,
{
    if f.stack.len() == 0 {
        DfsOutcome::Ordered(ordered)
    } else if fuel == 0 {
        DfsOutcome::Stuck
    } else {
        match dfs_step(env, f, ordered) {
            Ok((f2, o2)) => dfs_run(env, (fuel - 1) as nat, f2, o2),
            Err(Some((p, r))) => DfsOutcome::Missing(p, r),
            Err(None) => DfsOutcome::Stuck,
        }
    }
}

/// The certificates of a search that ended in order (none otherwise).
pub open spec fn ordered_of(o: DfsOutcome) -> Seq<BatchCertificateView> {
    match o {
        DfsOutcome::Ordered(v) => v,
        _ => Seq::empty(),
    }
}

/// `true` if `v` is the subDAG of the leader certificate: sorted by round, and in each
/// round above the garbage collection round it holds the certificates of that round in
/// the order in which the search (for some fuel and picks) took them off the stack.
pub open spec fn is_ordered_subdag(
    d: DagView,
    leader: BatchCertificateView,
    storage: Seq<BatchCertificateView>,
    ledger_ids: Seq<Field>,
    allow_ledger_access: bool,
    max_gc_rounds: u64,
    v: Seq<BatchCertificate>,
) -> bool {
    &&& sorted_by_round(v)
    &&& exists|picks: Seq<BatchCertificateView>, fuel: nat| {
        let o = #[trigger] dfs_order(dfs_env(d, storage, ledger_ids, allow_ledger_access, max_gc_rounds), leader, picks, fuel);
        &&& o is Ordered
        &&& forall|rd: u64| #[trigger] views(v).filter(round_is(rd)) == round_part(ordered_of(o), rd, max_gc_rounds, d.last_committed_round)
    }
}

/// `true` if the search from the leader certificate (for some fuel and picks) stops at the
/// missing previous certificate that `err` names.
pub open spec fn is_failed_order(
    d: DagView,
    leader: BatchCertificateView,
    storage: Seq<BatchCertificateView>,
    ledger_ids: Seq<Field>,
    allow_ledger_access: bool,
    max_gc_rounds: u64,
    err: BftError,
) -> bool {
    exists|picks: Seq<BatchCertificateView>, fuel: nat|
        #[trigger] dfs_order(dfs_env(d, storage, ledger_ids, allow_ledger_access, max_gc_rounds), leader, picks, fuel)
            == DfsOutcome::Missing(missing_of(err).0, missing_of(err).1)
}

/// The depth-first search from the leader certificate, resolving the previous
/// certificates it finds to `picks` in turn, run for at most `fuel` steps.
pub open spec fn dfs_order(env: DfsEnv, leader: BatchCertificateView, picks: Seq<BatchCertificateView>, fuel: nat) -> DfsOutcome {
    dfs_run(env, fuel, DfsFrontier { stack: seq![leader], already: Seq::empty(), picks }, Seq::empty())
}

/// `true` if no two certificates of one round of the DAG share an ID.
pub open spec fn round_ids_unique(d: DagView) -> bool {
    forall|k1: RoundAuthor, k2: RoundAuthor|
        #[trigger] d.graph.contains_key(k1) && #[trigger] d.graph.contains_key(k2) && k1.round == k2.round
            && d.graph[k1].id == d.graph[k2].id ==> k1 == k2
}

/// Where no two certificates of a round of the DAG share an ID, a previous certificate
/// resolves to at most one certificate.
proof fn lemma_resolves_unique(
    d: DagView,
    st: Seq<BatchCertificateView>,
    p: Field,
    r: int,
    c1: BatchCertificateView,
    c2: BatchCertificateView,
)
    requires
        round_ids_unique(d),
        resolves(d, st, p, r, c1),
        resolves(d, st, p, r, c2),
    ensures
        c1 == c2,
{
    if in_dag(d, p, r) {
        let k1 = choose|k: RoundAuthor| #[trigger] d.graph.contains_key(k) && k.round == r && d.graph[k] == c1;
        let k2 = choose|k: RoundAuthor| #[trigger] d.graph.contains_key(k) && k.round == r && d.graph[k] == c2;
        assert(k1 == k2);
    } else {
        let i1 = choose|i: int|
            0 <= i < st.len() && #[trigger] st[i] == c1 && c1.id == p && forall|j: int| 0 <= j < i ==> #[trigger] st[j].id != p;
        let i2 = choose|i: int|
            0 <= i < st.len() && #[trigger] st[i] == c2 && c2.id == p && forall|j: int| 0 <= j < i ==> #[trigger] st[j].id != p;
        if i1 < i2 {
            assert(st[i1].id == p);
        } else if i2 < i1 {
            assert(st[i2].id == p);
        }
    }
}

/// Two expansions from the same stack and found IDs, with picks that resolve, end alike
/// but for the picks left over.
proof fn lemma_expand_picks(env: DfsEnv, c: BatchCertificateView, k: int, f1: DfsFrontier, f2: DfsFrontier)
    requires
        round_ids_unique(env.d),
        f1.stack == f2.stack,
        f1.already == f2.already,
        expand_spec(env, c, k, f1) != Err::<DfsFrontier, Option<(Field, u64)>>(None),
        expand_spec(env, c, k, f2) != Err::<DfsFrontier, Option<(Field, u64)>>(None),
    ensures
        (expand_spec(env, c, k, f1) is Ok) == (expand_spec(env, c, k, f2) is Ok),
        expand_spec(env, c, k, f1) is Err ==> expand_spec(env, c, k, f1) == expand_spec(env, c, k, f2),
        expand_spec(env, c, k, f1) matches Ok(g1) ==> (expand_spec(env, c, k, f2) matches Ok(g2) && g1.stack == g2.stack
            && g1.already == g2.already),
    decreases k,
{
    if k > 0 {
        let p = c.header.previous_certificate_ids[k - 1];
        let r = prev_round(c);
        if f1.already.contains(p) || skipped(env.d, env.ledger_ids, env.allow_ledger_access, p, r) {
            lemma_expand_picks(env, c, k - 1, f1, f2);
        } else if !unresolvable(env.d, env.storage, p, r) {
            lemma_resolves_unique(env.d, env.storage, p, r, f1.picks[0], f2.picks[0]);
            lemma_expand_picks(
                env,
                c,
                k - 1,
                DfsFrontier { stack: f1.stack.push(f1.picks[0]), already: f1.already.push(p), picks: f1.picks.drop_first() },
                DfsFrontier { stack: f2.stack.push(f2.picks[0]), already: f2.already.push(p), picks: f2.picks.drop_first() },
            );
        }
    }
}

/// Where no two certificates of a round of the DAG share an ID, the search ends alike
/// whatever the fuel and the picks (where it does not get stuck): the order of the subDAG
/// is determined.
pub proof fn law_dfs_determined(
    env: DfsEnv,
    fuel1: nat,
    fuel2: nat,
    f1: DfsFrontier,
    f2: DfsFrontier,
    ordered: Seq<BatchCertificateView>,
)
    requires
        round_ids_unique(env.d),
        f1.stack == f2.stack,
        f1.already == f2.already,
        !(dfs_run(env, fuel1, f1, ordered) is Stuck),
        !(dfs_run(env, fuel2, f2, ordered) is Stuck),
    ensures
        dfs_run(env, fuel1, f1, ordered) == dfs_run(env, fuel2, f2, ordered),
    decreases fuel1,
{
    if f1.stack.len() > 0 && fuel1 > 0 && fuel2 > 0 {
        let c = f1.stack.last();
        let g1 = DfsFrontier { stack: f1.stack.drop_last(), already: f1.already, picks: f1.picks };
        let g2 = DfsFrontier { stack: f2.stack.drop_last(), already: f2.already, picks: f2.picks };
        if expands(c, env.max_gc_rounds, env.d.last_committed_round) {
            let n = c.header.previous_certificate_ids.len() as int;
            lemma_expand_picks(env, c, n, g1, g2);
            match (expand_spec(env, c, n, g1), expand_spec(env, c, n, g2)) {
                (Ok(h1), Ok(h2)) => {
                    let o1 = if ordered.contains(c) { ordered } else { ordered.push(c) };
                    law_dfs_determined(env, (fuel1 - 1) as nat, (fuel2 - 1) as nat, h1, h2, o1);
                },
                _ => {},
            }
        } else {
            let o1 = if ordered.contains(c) { ordered } else { ordered.push(c) };
            law_dfs_determined(env, (fuel1 - 1) as nat, (fuel2 - 1) as nat, g1, g2, o1);
        }
    }
}

/// `true` if `e` is an exploration from the leader certificate: it starts at the leader,
/// and `par` gives for each later certificate the earlier one and the needed previous
/// certificate ID of it that the certificate resolves.
pub open spec fn explored_from(
    e: Seq<BatchCertificateView>,
    par: Seq<(int, Field)>,
    leader: BatchCertificateView,
    d: DagView,
    storage: Seq<BatchCertificateView>,
    ledger_ids: Seq<Field>,
    allow_ledger_access: bool,
    max_gc_rounds: u64,
) -> bool {
    &&& e.len() > 0
    &&& e[0] == leader
    &&& par.len() == e.len()
    &&& forall|i: int|
        0 < i < e.len() ==> #[trigger] step_ok(e, par, i, d, storage, ledger_ids, allow_ledger_access, max_gc_rounds)
}

/// `true` if the `i`-th certificate of the exploration resolves the needed previous
/// certificate `par[i].1` of the earlier certificate `e[par[i].0]`.
pub open spec fn step_ok(
    e: Seq<BatchCertificateView>,
    par: Seq<(int, Field)>,
    i: int,
    d: DagView,
    storage: Seq<BatchCertificateView>,
    ledger_ids: Seq<Field>,
    allow_ledger_access: bool,
    max_gc_rounds: u64,
) -> bool {
    &&& 0 <= par[i].0 < i
    &&& needed(d, ledger_ids, allow_ledger_access, max_gc_rounds, e[par[i].0], par[i].1)
    &&& resolves(d, storage, par[i].1, prev_round(e[par[i].0]), e[i])
}

/// `true` if every certificate ID of the DAG and of storage is among the candidates.
pub open spec fn covers(cand: Seq<Field>, d: DagView, storage: Seq<BatchCertificateView>) -> bool {
    &&& forall|k: RoundAuthor| #[trigger] d.graph.contains_key(k) ==> cand.contains(d.graph[k].id)
    &&& forall|i: int| 0 <= i < storage.len() ==> cand.contains(#[trigger] storage[i].id)
}

/// A resolved certificate has the ID it was resolved by, and that ID is a candidate.
proof fn lemma_resolved_id(
    cand: Seq<Field>,
    d: DagView,
    storage: Seq<BatchCertificateView>,
    p: Field,
    r: int,
    c: BatchCertificateView,
)
    requires
        covers(cand, d, storage),
        resolves(d, storage, p, r, c),
    ensures
        c.id == p,
        cand.contains(p),
{
    if in_dag(d, p, r) {
        let k = choose|k: RoundAuthor| #[trigger] d.graph.contains_key(k) && k.round == r && d.graph[k] == c;
        assert(cand.contains(d.graph[k].id));
    } else {
        let i = choose|i: int|
            0 <= i < storage.len() && #[trigger] storage[i] == c && c.id == p && forall|j: int|
                0 <= j < i ==> #[trigger] storage[j].id != p;
        assert(cand.contains(storage[i].id));
    }
}

/// Extending an exploration by a certificate that resolves a needed previous certificate of
/// one of its members keeps it an exploration.
proof fn lemma_explored_push(
    e: Seq<BatchCertificateView>,
    par: Seq<(int, Field)>,
    leader: BatchCertificateView,
    d: DagView,
    st: Seq<BatchCertificateView>,
    lid: Seq<Field>,
    allow: bool,
    gc: u64,
    ci: int,
    p: Field,
    pv: BatchCertificateView,
)
    requires
        explored_from(e, par, leader, d, st, lid, allow, gc),
        0 <= ci < e.len(),
        needed(d, lid, allow, gc, e[ci], p),
        resolves(d, st, p, prev_round(e[ci]), pv),
    ensures
        explored_from(e.push(pv), par.push((ci, p)), leader, d, st, lid, allow, gc),
{
    let e1 = e.push(pv);
    let par1 = par.push((ci, p));
    assert forall|i: int| 0 < i < e1.len() implies #[trigger] step_ok(e1, par1, i, d, st, lid, allow, gc) by {
        if i < e.len() {
            assert(step_ok(e, par, i, d, st, lid, allow, gc));
            assert(e1[i] == e[i]);
            assert(par1[i] == par[i]);
            assert(e1[par[i].0] == e[par[i].0]);
        } else {
            assert(e1[ci] == e[ci]);
        }
    }
    assert(e1[0] == e[0]);
    assert(e1.len() > 0);
    assert(e1[0] == leader);
    assert(par1.len() == e1.len());
}

/// A sequence without duplicates whose items are candidates is no longer than the
/// candidates.
proof fn lemma_distinct_bounded(a: Seq<Field>, cand: Seq<Field>)
    requires
        a.no_duplicates(),
        forall|i: int| 0 <= i < a.len() ==> cand.contains(#[trigger] a[i]),
    ensures
        a.len() <= cand.len(),
{
    a.unique_seq_to_set();
    cand.lemma_cardinality_of_set();
    assert(a.to_set().subset_of(cand.to_set())) by {
        assert forall|x: Field| a.to_set().contains(x) implies cand.to_set().contains(x) by {
            let i = choose|i: int| 0 <= i < a.len() && a[i] == x;
            assert(cand.contains(a[i]));
        }
    }
    vstd::set_lib::lemma_len_subset(a.to_set(), cand.to_set());
}

/// `true` if `already` lists the IDs of the certificates of `e` after the first.
pub open spec fn ids_after_first(already: Seq<Field>, e: Seq<BatchCertificateView>) -> bool {
    &&& already.len() + 1 == e.len()
    &&& forall|i: int| 0 <= i < already.len() ==> #[trigger] already[i] == e[i + 1].id
}

/// Looks at the previous certificates of `certificate` (the `ci`-th of the exploration `e0`),
/// from the last to the first: each one that is needed and not yet found is resolved,
/// pushed on the stack and recorded. Returns the extended exploration, or the failure to
/// resolve a needed previous certificate.
#[verifier::rlimit(50)]
#[verifier::spinoff_prover]
fn expand<const ALLOW_LEDGER_ACCESS: bool>(
    dag: &DAG,
    storage: &Vec<BatchCertificate>,
    ledger_ids: &Vec<Field>,
    max_gc_rounds: u64,
    certificate: &BatchCertificate,
    stack: &mut Vec<BatchCertificate>,
    already: &mut Vec<Field>,
    Ghost(leader): Ghost<BatchCertificateView>,
    Ghost(e0): Ghost<Seq<BatchCertificateView>>,
    Ghost(par0): Ghost<Seq<(int, Field)>>,
    Ghost(ci): Ghost<int>,
    Ghost(cand): Ghost<Seq<Field>>,
) -> (r: Result<Ghost<(Seq<BatchCertificateView>, Seq<(int, Field)>)>, BftError>)
    requires
        dag.wf(),
        explored_from(e0, par0, leader, dag@, views(storage@), ledger_ids@, ALLOW_LEDGER_ACCESS, max_gc_rounds),
        ids_after_first(old(already)@, e0),
        old(already)@.no_duplicates(),
        forall|i: int| 0 <= i < old(already)@.len() ==> cand.contains(#[trigger] old(already)@[i]),
        covers(cand, dag@, views(storage@)),
        0 <= ci < e0.len(),
        e0[ci] == certificate@,
        expands(certificate@, max_gc_rounds, dag@.last_committed_round),
    ensures
        match r {
            Ok(g) => {
                let (e, par) = g@;
                &&& explored_from(e, par, leader, dag@, views(storage@), ledger_ids@, ALLOW_LEDGER_ACCESS, max_gc_rounds)
                &&& e.len() >= e0.len()
                &&& forall|i: int| 0 <= i < e0.len() ==> #[trigger] e[i] == e0[i]
                &&& ids_after_first(final(already)@, e)
                &&& final(already)@.no_duplicates()
                &&& forall|i: int| 0 <= i < final(already)@.len() ==> cand.contains(#[trigger] final(already)@[i])
                &&& final(stack)@.len() == old(stack)@.len() + (e.len() - e0.len())
                &&& forall|t: int| 0 <= t < old(stack)@.len() ==> #[trigger] final(stack)@[t] == old(stack)@[t]
                &&& forall|t: int|
                    0 <= t < e.len() - e0.len() ==> #[trigger] final(stack)@[old(stack)@.len() + t]@ == e[e0.len() + t]
                &&& forall|p: Field|
                    #[trigger] needed(dag@, ledger_ids@, ALLOW_LEDGER_ACCESS, max_gc_rounds, certificate@, p)
                        ==> final(already)@.contains(p)
                &&& forall|rest: Seq<BatchCertificateView>|
                    #[trigger] expand_spec(
                        dfs_env(dag@, views(storage@), ledger_ids@, ALLOW_LEDGER_ACCESS, max_gc_rounds),
                        certificate@,
                        certificate@.header.previous_certificate_ids.len() as int,
                        (DfsFrontier { stack: views(old(stack)@), already: old(already)@, picks: e.subrange(e0.len() as int, e.len() as int) + rest }),
                    ) == Ok::<DfsFrontier, Option<(Field, u64)>>(
                        (DfsFrontier { stack: views(final(stack)@), already: final(already)@, picks: rest }),
                    )
            },
            Err(err) => (exists|e: Seq<BatchCertificateView>, par: Seq<(int, Field)>, j: int, p: Field|
                #[trigger] explored_from(e, par, leader, dag@, views(storage@), ledger_ids@, ALLOW_LEDGER_ACCESS, max_gc_rounds)
                    && 0 <= j < e.len() && #[trigger] needed(dag@, ledger_ids@, ALLOW_LEDGER_ACCESS, max_gc_rounds, e[j], p)
                    && unresolvable(dag@, views(storage@), p, prev_round(e[j]))
                    && err == BftError::MissingPreviousCertificate(p, prev_round(e[j]) as u64))
                && exists|np: Seq<BatchCertificateView>|
                    #[trigger] expand_spec(
                        dfs_env(dag@, views(storage@), ledger_ids@, ALLOW_LEDGER_ACCESS, max_gc_rounds),
                        certificate@,
                        certificate@.header.previous_certificate_ids.len() as int,
                        (DfsFrontier { stack: views(old(stack)@), already: old(already)@, picks: np }),
                    ) == Err::<DfsFrontier, Option<(Field, u64)>>(Some(missing_of(err))),
        },
{
    let ghost d = dag@;
    let ghost st = views(storage@);
    let ghost lid = ledger_ids@;
    let ghost cv = certificate@;
    let ghost env = dfs_env(d, st, lid, ALLOW_LEDGER_ACCESS, max_gc_rounds);
    let ghost n = cv.header.previous_certificate_ids.len() as int;
    let ghost mut e = e0;
    let ghost mut par = par0;
    let ghost stack0 = stack@;
    let ghost already0 = already@;
    let previous_round = if certificate.round() >= 1 { certificate.round() - 1 } else { 0 };
    let prev_ids = certificate.previous_certificate_ids();
    let mut k: usize = prev_ids.len();
    proof {
        assert forall|rest: Seq<BatchCertificateView>|
            #[trigger] expand_spec(env, cv, n, (DfsFrontier { stack: views(stack0), already: already0, picks: e.subrange(e0.len() as int, e.len() as int) + rest }))
                == expand_spec(env, cv, k as int, (DfsFrontier { stack: views(stack@), already: already@, picks: rest })) by {
            assert(e.subrange(e0.len() as int, e.len() as int) + rest =~= rest);
        }
    }
    while k > 0
        invariant
            dag.wf(),
            d == dag@,
            st == views(storage@),
            lid == ledger_ids@,
            prev_ids@ == cv.header.previous_certificate_ids,
            previous_round == prev_round(cv),
            expands(cv, max_gc_rounds, d.last_committed_round),
            k <= prev_ids@.len(),
            explored_from(e, par, leader, d, st, lid, ALLOW_LEDGER_ACCESS, max_gc_rounds),
            e.len() >= e0.len(),
            forall|i: int| 0 <= i < e0.len() ==> #[trigger] e[i] == e0[i],
            0 <= ci < e0.len(),
            e0[ci] == cv,
            ids_after_first(already@, e),
            already@.no_duplicates(),
            forall|i: int| 0 <= i < already@.len() ==> cand.contains(#[trigger] already@[i]),
            covers(cand, d, st),
            stack@.len() == stack0.len() + (e.len() - e0.len()),
            forall|t: int| 0 <= t < stack0.len() ==> #[trigger] stack@[t] == stack0[t],
            forall|t: int| 0 <= t < e.len() - e0.len() ==> #[trigger] stack@[stack0.len() + t]@ == e[e0.len() + t],
            forall|t: int|
                k <= t < prev_ids@.len() && #[trigger] needed(d, lid, ALLOW_LEDGER_ACCESS, max_gc_rounds, cv, prev_ids@[t])
                    ==> already@.contains(prev_ids@[t]),
            env == dfs_env(d, st, lid, ALLOW_LEDGER_ACCESS, max_gc_rounds),
            n == prev_ids@.len(),
            cv == certificate@,
            stack0 == old(stack)@,
            already0 == old(already)@,
            forall|rest: Seq<BatchCertificateView>|
                #[trigger] expand_spec(env, cv, n, (DfsFrontier { stack: views(stack0), already: already0, picks: e.subrange(e0.len() as int, e.len() as int) + rest }))
                    == expand_spec(env, cv, k as int, (DfsFrontier { stack: views(stack@), already: already@, picks: rest })),
        decreases k,
    {
        k = k - 1;
        let p = prev_ids[k];
        let ghost a1 = already@;
        let ghost s1 = stack@;
        let ghost np = e.subrange(e0.len() as int, e.len() as int);
        proof {
            assert(cv.header.previous_certificate_ids[k as int] == p);
        }
        // If the previous certificate is already ordered, continue.
        if contains_field(already, p) {
            proof {
                assert forall|rest: Seq<BatchCertificateView>|
                    #[trigger] expand_spec(env, cv, n, (DfsFrontier { stack: views(stack0), already: already0, picks: np + rest }))
                        == expand_spec(env, cv, k as int, (DfsFrontier { stack: views(stack@), already: already@, picks: rest })) by {
                    assert(expand_spec(env, cv, k + 1, (DfsFrontier { stack: views(stack@), already: already@, picks: rest }))
                        == expand_spec(env, cv, k as int, (DfsFrontier { stack: views(stack@), already: already@, picks: rest })));
                }
            }
            continue;
        }
        // If the previous certificate was recently committed, continue.
        if dag.is_recently_committed(previous_round, p) {
            proof {
                assert forall|rest: Seq<BatchCertificateView>|
                    #[trigger] expand_spec(env, cv, n, (DfsFrontier { stack: views(stack0), already: already0, picks: np + rest }))
                        == expand_spec(env, cv, k as int, (DfsFrontier { stack: views(stack@), already: already@, picks: rest })) by {
                    assert(skipped(d, lid, ALLOW_LEDGER_ACCESS, p, prev_round(cv)));
                    assert(expand_spec(env, cv, k + 1, (DfsFrontier { stack: views(stack@), already: already@, picks: rest }))
                        == expand_spec(env, cv, k as int, (DfsFrontier { stack: views(stack@), already: already@, picks: rest })));
                }
            }
            continue;
        }
        // If the previous certificate already exists in the ledger, continue.
        if ALLOW_LEDGER_ACCESS && contains_field(ledger_ids, p) {
            proof {
                assert forall|rest: Seq<BatchCertificateView>|
                    #[trigger] expand_spec(env, cv, n, (DfsFrontier { stack: views(stack0), already: already0, picks: np + rest }))
                        == expand_spec(env, cv, k as int, (DfsFrontier { stack: views(stack@), already: already@, picks: rest })) by {
                    assert(skipped(d, lid, ALLOW_LEDGER_ACCESS, p, prev_round(cv)));
                    assert(expand_spec(env, cv, k + 1, (DfsFrontier { stack: views(stack@), already: already@, picks: rest }))
                        == expand_spec(env, cv, k as int, (DfsFrontier { stack: views(stack@), already: already@, picks: rest })));
                }
            }
            continue;
        }
        proof {
            assert(cv.header.previous_certificate_ids[k as int] == p);
            assert(needed(d, lid, ALLOW_LEDGER_ACCESS, max_gc_rounds, cv, p));
            assert(e[ci] == cv);
        }
        // Retrieve the previous certificate.
        let previous = match resolve_previous(dag, storage, p, previous_round) {
            Some(c) => c,
            None => {
                proof {
                    assert(needed(d, lid, ALLOW_LEDGER_ACCESS, max_gc_rounds, e[ci], p));
                    assert(unresolvable(d, st, p, prev_round(e[ci])));
                    let empty = Seq::<BatchCertificateView>::empty();
                    assert(np + empty =~= np);
                    assert(expand_spec(env, cv, k + 1, (DfsFrontier { stack: views(stack@), already: already@, picks: empty }))
                        == Err::<DfsFrontier, Option<(Field, u64)>>(Some((p, previous_round))));
                    assert(expand_spec(env, cv, n, (DfsFrontier { stack: views(stack0), already: already0, picks: np + empty }))
                        == Err::<DfsFrontier, Option<(Field, u64)>>(Some((p, previous_round))));
                }
                return Err(BftError::MissingPreviousCertificate(p, previous_round));
            },
        };
        let ghost pv = previous@;
        proof {
            lemma_resolved_id(cand, d, st, p, previous_round as int, pv);
            lemma_explored_push(e, par, leader, d, st, lid, ALLOW_LEDGER_ACCESS, max_gc_rounds, ci, p, pv);
            e = e.push(pv);
            par = par.push((ci, p));
        }
        already.push(p);
        stack.push(previous);
        proof {
            assert(e.subrange(e0.len() as int, e.len() as int) =~= np.push(pv));
            assert(views(stack@) =~= views(s1).push(pv));
            assert(!in_dag(d, p, previous_round as int) ==> in_storage(st, p)) by {
                if !in_dag(d, p, previous_round as int) {
                    let i = choose|i: int|
                        0 <= i < st.len() && #[trigger] st[i] == pv && pv.id == p && forall|j: int|
                            0 <= j < i ==> #[trigger] st[j].id != p;
                    assert(st[i].id == p);
                }
            }
            assert forall|rest: Seq<BatchCertificateView>|
                #[trigger] expand_spec(env, cv, n, (DfsFrontier { stack: views(stack0), already: already0, picks: np.push(pv) + rest }))
                    == expand_spec(env, cv, k as int, (DfsFrontier { stack: views(stack@), already: already@, picks: rest })) by {
                let rest2 = seq![pv] + rest;
                assert(np.push(pv) + rest =~= np + rest2);
                assert(rest2.drop_first() =~= rest);
                assert(rest2[0] == pv);
                assert(expand_spec(env, cv, k + 1, (DfsFrontier { stack: views(s1), already: a1, picks: rest2 }))
                    == expand_spec(env, cv, k as int, (DfsFrontier { stack: views(s1).push(pv), already: a1.push(p), picks: rest })));
            }
            assert forall|i: int| 0 <= i < already@.len() implies #[trigger] already@[i] == e[i + 1].id by {
                if i < a1.len() {
                    assert(already@[i] == a1[i]);
                }
            }
            assert(already@.no_duplicates()) by {
                assert forall|a: int, b: int| 0 <= a < b < already@.len() implies already@[a] != already@[b] by {
                    if b == already@.len() - 1 {
                        assert(a1.contains(already@[a]));
                    }
                }
            }
            assert forall|t: int| 0 <= t < e.len() - e0.len() implies #[trigger] stack@[stack0.len() + t]@ == e[e0.len() + t] by {
            }
            assert forall|t: int|
                k <= t < prev_ids@.len() && #[trigger] needed(d, lid, ALLOW_LEDGER_ACCESS, max_gc_rounds, cv, prev_ids@[t])
                    implies already@.contains(prev_ids@[t]) by {
                if t == k {
                    assert(already@[already@.len() - 1] == p);
                } else {
                    assert(a1.contains(prev_ids@[t]));
                    let q = choose|q: int| 0 <= q < a1.len() && a1[q] == prev_ids@[t];
                    assert(already@[q] == a1[q]);
                }
            }
        }
    }
    proof {
        assert forall|pp: Field| #[trigger] needed(d, lid, ALLOW_LEDGER_ACCESS, max_gc_rounds, cv, pp) implies already@.contains(pp) by {
            let t = choose|t: int| 0 <= t < cv.header.previous_certificate_ids.len() && cv.header.previous_certificate_ids[t] == pp;
            assert(prev_ids@[t] == pp);
        }
        assert forall|rest: Seq<BatchCertificateView>|
            #[trigger] expand_spec(env, cv, n, (DfsFrontier { stack: views(stack0), already: already0, picks: e.subrange(e0.len() as int, e.len() as int) + rest }))
                == Ok::<DfsFrontier, Option<(Field, u64)>>((DfsFrontier { stack: views(stack@), already: already@, picks: rest })) by {
            assert(expand_spec(env, cv, 0, (DfsFrontier { stack: views(stack@), already: already@, picks: rest }))
                == Ok::<DfsFrontier, Option<(Field, u64)>>((DfsFrontier { stack: views(stack@), already: already@, picks: rest })));
        }
    }
    Ok(Ghost((e, par)))
}

/// Popping the top of a stack of certificates drops the last view.
proof fn lemma_views_pop(s0: Seq<BatchCertificate>, s1: Seq<BatchCertificate>, c: BatchCertificate)
    requires
        s0.len() > 0,
        s1 == s0.drop_last(),
        c == s0.last(),
    ensures
        views(s0).len() > 0,
        views(s0).last() == c@,
        views(s0).drop_last() == views(s1),
{
    assert(views(s0).drop_last() =~= views(s1));
}

/// A sequence of certificates holds a view exactly when its views contain it.
proof fn lemma_holds_view_contains(o: Seq<BatchCertificate>, c: BatchCertificateView)
    ensures
        holds_view(o, c) <==> views(o).contains(c),
{
    if holds_view(o, c) {
        let i = choose|i: int| 0 <= i < o.len() && o[i]@ == c;
        assert(views(o)[i] == c);
    }
    if views(o).contains(c) {
        let i = choose|i: int| 0 <= i < views(o).len() && views(o)[i] == c;
        assert(o[i]@ == c);
    }
}

/// The IDs of the certificates.
pub open spec fn ids_of(v: Seq<BatchCertificate>) -> Seq<Field> {
    v.map_values(|c: BatchCertificate| c@.id)
}

/// `true` if the `i`-th certificate of the exploration was processed, or waits on the stack.
pub open spec fn tracked_index(done: Set<int>, sidx: Seq<int>, i: int) -> bool {
    done.contains(i) || exists|t: int| 0 <= t < sidx.len() && sidx[t] == i
}

/// `true` if a processed certificate of the exploration is `c`.
pub open spec fn done_view(done: Set<int>, e: Seq<BatchCertificateView>, c: BatchCertificateView) -> bool {
    exists|i: int| #[trigger] done.contains(i) && e[i] == c
}

/// Returns the subDAG of batch certificates to commit with the leader certificate, ordered
/// by round: the certificates that a depth-first search from the leader reaches through
/// previous-certificate links, down to the garbage collection round, passing over those
/// recently committed and (with ledger access) those the ledger holds. A previous
/// certificate that is not in the DAG is taken from `storage`; `ledger_ids` are the
/// certificate IDs that the ledger holds. The search fails on a needed previous
/// certificate that neither holds.
///
/// Exactly: the search is `dfs_order` (stack-based, looking at a certificate's previous
/// IDs from the last to the first), for some fuel and for picks that resolve the previous
/// certificates it needs. On success the result holds, round by round and in the order in
/// which the search took them off the stack, its certificates of the rounds above the
/// garbage collection round; on failure the error names the missing certificate that the
/// search stops at.
#[verifier::rlimit(60)]
#[verifier::spinoff_prover]
pub fn order_dag_with_dfs<const ALLOW_LEDGER_ACCESS: bool>(
    dag: &DAG,
    leader_certificate: BatchCertificate,
    max_gc_rounds: u64,
    storage: &Vec<BatchCertificate>,
    ledger_ids: &Vec<Field>,
) -> (r: Result<Vec<BatchCertificate>, BftError>)
    requires
        dag.wf(),
    ensures
        match r {
            Ok(v) => {
                &&& sorted_by_round(v@)
                &&& distinct_views(v@)
                &&& exists|e: Seq<BatchCertificateView>, par: Seq<(int, Field)>|
                    #[trigger] explored_from(e, par, leader_certificate@, dag@, views(storage@), ledger_ids@, ALLOW_LEDGER_ACCESS, max_gc_rounds)
                        && closed(e, dag@, ledger_ids@, ALLOW_LEDGER_ACCESS, max_gc_rounds)
                        && forall|c: BatchCertificateView|
                            #![trigger holds_view(v@, c)]
                            holds_view(v@, c) <==> (e.contains(c) && above_gc(c.header.round, max_gc_rounds, dag@.last_committed_round))
                &&& is_ordered_subdag(dag@, leader_certificate@, views(storage@), ledger_ids@, ALLOW_LEDGER_ACCESS, max_gc_rounds, v@)
            },
            Err(err) => (exists|e: Seq<BatchCertificateView>, par: Seq<(int, Field)>, j: int, p: Field|
                #[trigger] explored_from(e, par, leader_certificate@, dag@, views(storage@), ledger_ids@, ALLOW_LEDGER_ACCESS, max_gc_rounds)
                    && 0 <= j < e.len() && #[trigger] needed(dag@, ledger_ids@, ALLOW_LEDGER_ACCESS, max_gc_rounds, e[j], p)
                    && unresolvable(dag@, views(storage@), p, prev_round(e[j]))
                    && err == BftError::MissingPreviousCertificate(p, prev_round(e[j]) as u64))
                && is_failed_order(dag@, leader_certificate@, views(storage@), ledger_ids@, ALLOW_LEDGER_ACCESS, max_gc_rounds, err),
        },
{
    let ghost d = dag@;
    let ghost st = views(storage@);
    let ghost lid = ledger_ids@;
    let ghost leader = leader_certificate@;
    let lcr = dag.last_committed_round();
    // Every certificate that can be resolved has one of these IDs.
    let all = dag.certificates();
    let ghost cand: Seq<Field> = ids_of(all@) + ids_of(storage@);
    proof {
        assert forall|k: RoundAuthor| #[trigger] d.graph.contains_key(k) implies cand.contains(d.graph[k].id) by {
            let i = choose|i: int| 0 <= i < all@.len() && all@[i]@ == d.graph[k];
            assert(cand[i] == d.graph[k].id);
        }
        assert forall|i: int| 0 <= i < st.len() implies cand.contains(#[trigger] st[i].id) by {
            assert(st[i] == storage@[i]@);
            assert(cand[ids_of(all@).len() + i] == st[i].id);
        }
    }
    let mut ordered: Vec<BatchCertificate> = Vec::new();
    let mut already: Vec<Field> = Vec::new();
    let mut stack: Vec<BatchCertificate> = Vec::new();
    let ghost mut e: Seq<BatchCertificateView> = seq![leader];
    let ghost mut par: Seq<(int, Field)> = seq![(0int, 0u128)];
    let ghost mut sidx: Seq<int> = seq![0int];
    let ghost mut done: Set<int> = Set::empty();
    let ghost env = dfs_env(d, st, lid, ALLOW_LEDGER_ACCESS, max_gc_rounds);
    let ghost mut used: Seq<BatchCertificateView> = Seq::empty();
    let ghost mut it: nat = 0;
    stack.push(leader_certificate.duplicate());
    proof {
        assert(views(stack@) =~= seq![leader]);
        assert(views(ordered@) =~= Seq::<BatchCertificateView>::empty());
        assert forall|f: nat, rest: Seq<BatchCertificateView>|
            #[trigger] dfs_run(env, f, (DfsFrontier { stack: views(stack@), already: already@, picks: rest }), views(ordered@))
                == dfs_order(env, leader, used + rest, f + it) by {
            assert(used + rest =~= rest);
            assert(already@ =~= Seq::<Field>::empty());
        }
        assert(ids_after_first(already@, e));
        assert forall|i: int| 0 <= i < e.len() implies #[trigger] tracked_index(done, sidx, i) by {
            assert(sidx[0] == i);
        }
    }
    while stack.len() > 0
        invariant
            dag.wf(),
            d == dag@,
            st == views(storage@),
            lid == ledger_ids@,
            lcr == d.last_committed_round,
            leader == leader_certificate@,
            covers(cand, d, st),
            explored_from(e, par, leader, d, st, lid, ALLOW_LEDGER_ACCESS, max_gc_rounds),
            ids_after_first(already@, e),
            already@.no_duplicates(),
            forall|i: int| 0 <= i < already@.len() ==> cand.contains(#[trigger] already@[i]),
            sidx.len() == stack@.len(),
            forall|t: int| 0 <= t < sidx.len() ==> 0 <= #[trigger] sidx[t] < e.len() && stack@[t]@ == e[sidx[t]],
            forall|i: int| 0 <= i < e.len() ==> #[trigger] tracked_index(done, sidx, i),
            forall|i: int| #[trigger] done.contains(i) ==> 0 <= i < e.len(),
            forall|i: int, p: Field|
                done.contains(i) && #[trigger] needed(d, lid, ALLOW_LEDGER_ACCESS, max_gc_rounds, e[i], p)
                    ==> already@.contains(p),
            forall|c: BatchCertificateView|
                #![trigger holds_view(ordered@, c)]
                holds_view(ordered@, c) <==> done_view(done, e, c),
            distinct_views(ordered@),
            env == dfs_env(d, st, lid, ALLOW_LEDGER_ACCESS, max_gc_rounds),
            forall|f: nat, rest: Seq<BatchCertificateView>|
                #[trigger] dfs_run(env, f, (DfsFrontier { stack: views(stack@), already: already@, picks: rest }), views(ordered@))
                    == dfs_order(env, leader, used + rest, f + it),
        decreases cand.len() - already@.len(), stack@.len(),
    {
        proof {
            lemma_distinct_bounded(already@, cand);
        }
        let ghost stack0 = stack@;
        let ghost sidx0 = sidx;
        let ghost e0 = e;
        let ghost done0 = done;
        let ghost already0 = already@;
        let certificate = stack.pop().unwrap();
        let ghost stack1 = stack@;
        let ghost used0 = used;
        let ghost it0 = it;
        let ghost mut np: Seq<BatchCertificateView> = Seq::empty();
        let ghost ci = sidx0[sidx0.len() - 1];
        let ghost cv = certificate@;
        proof {
            assert(stack0[stack0.len() - 1] == certificate);
            assert(cv == e0[ci]);
            sidx = sidx0.drop_last();
            done = done0.insert(ci);
        }
        // Insert the certificate into the ordered set.
        let ghost o0 = ordered@;
        let present = contains_certificate(&ordered, &certificate);
        if !present {
            ordered.push(certificate.duplicate());
            proof {
                assert forall|a: int, b: int| 0 <= a < b < ordered@.len() implies ordered@[a]@ != ordered@[b]@ by {
                    if b == ordered@.len() - 1 {
                        assert(holds_view(o0, ordered@[a]@));
                    }
                }
            }
        }
        // Expand the previous certificates, unless they are below the GC round.
        let previous_round = if certificate.round() >= 1 { certificate.round() - 1 } else { 0 };
        if (previous_round as u128) + (max_gc_rounds as u128) > (lcr as u128) {
            match expand::<ALLOW_LEDGER_ACCESS>(
                dag,
                storage,
                ledger_ids,
                max_gc_rounds,
                &certificate,
                &mut stack,
                &mut already,
                Ghost(leader),
                Ghost(e),
                Ghost(par),
                Ghost(ci),
                Ghost(cand),
            ) {
                Err(err) => {
                    proof {
                        let np_err = choose|np_err: Seq<BatchCertificateView>|
                            #[trigger] expand_spec(env, certificate@, certificate@.header.previous_certificate_ids.len() as int,
                                (DfsFrontier { stack: views(stack1), already: already0, picks: np_err }))
                                == Err::<DfsFrontier, Option<(Field, u64)>>(Some(missing_of(err)));
                        lemma_views_pop(stack0, stack1, certificate);
                        let fr = DfsFrontier { stack: views(stack0), already: already0, picks: np_err };
                        assert(views(stack0).len() > 0);
                        assert(dfs_step(env, fr, views(o0)) == Err::<(DfsFrontier, Seq<BatchCertificateView>), Option<(Field, u64)>>(Some(missing_of(err))));
                        assert(dfs_run(env, 1, fr, views(o0)) == DfsOutcome::Missing(missing_of(err).0, missing_of(err).1));
                        assert(dfs_run(env, 1, fr, views(o0)) == dfs_order(env, leader, used0 + np_err, 1 + it0));
                    }
                    return Err(err);
                },
                Ok(g) => {
                    proof {
                        let (e1, par1) = g@;
                        np = e1.subrange(e0.len() as int, e1.len() as int);
                        sidx = sidx.add(Seq::new((e1.len() - e0.len()) as nat, |t: int| e0.len() + t));
                        e = e1;
                        par = par1;
                    }
                },
            }
        }
        proof {
            let n0 = stack0.len() - 1;
            // The stack and its indices.
            assert forall|t: int| 0 <= t < sidx.len() implies 0 <= #[trigger] sidx[t] < e.len() && stack@[t]@ == e[sidx[t]] by {
                if t < n0 {
                    assert(sidx[t] == sidx0[t]);
                    assert(stack@[t] == stack0[t]);
                    assert(e[sidx0[t]] == e0[sidx0[t]]);
                } else {
                    assert(sidx[t] == e0.len() + (t - n0));
                    assert(stack@[n0 + (t - n0)]@ == e[e0.len() + (t - n0)]);
                }
            }
            // Every certificate of the exploration was processed or waits on the stack.
            assert forall|i: int| 0 <= i < e.len() implies #[trigger] tracked_index(done, sidx, i) by {
                if i < e0.len() {
                    assert(tracked_index(done0, sidx0, i));
                    if !done0.contains(i) {
                        let t = choose|t: int| 0 <= t < sidx0.len() && sidx0[t] == i;
                        if t == sidx0.len() - 1 {
                            assert(done.contains(i));
                        } else {
                            assert(sidx[t] == i);
                        }
                    }
                } else {
                    let t = n0 + (i - e0.len());
                    assert(sidx[t] == i);
                }
            }
            // The needed previous certificates of the processed certificates were found.
            assert forall|i: int, p: Field|
                done.contains(i) && #[trigger] needed(d, lid, ALLOW_LEDGER_ACCESS, max_gc_rounds, e[i], p)
                    implies already@.contains(p) by {
                assert(e[i] == e0[i]);
                if i != ci {
                    assert(done0.contains(i));
                    assert(already0.contains(p));
                    let q = choose|q: int| 0 <= q < already0.len() && already0[q] == p;
                    assert(already0[q] == e0[q + 1].id);
                    assert(already@[q] == e[q + 1].id);
                }
            }
            // The ordered certificates are the processed ones.
            assert forall|c: BatchCertificateView|
                #![trigger holds_view(ordered@, c)]
                holds_view(ordered@, c) <==> done_view(done, e, c) by {
                if holds_view(ordered@, c) {
                    let t = choose|t: int| 0 <= t < ordered@.len() && ordered@[t]@ == c;
                    if !present && t == ordered@.len() - 1 {
                        assert(done.contains(ci) && e[ci] == c);
                    } else {
                        assert(ordered@[t] == o0[t]);
                        assert(holds_view(o0, c));
                        assert(done_view(done0, e0, c));
                        let i = choose|i: int| #[trigger] done0.contains(i) && e0[i] == c;
                        assert(done.contains(i) && e[i] == c);
                    }
                }
                if done_view(done, e, c) {
                    let i = choose|i: int| #[trigger] done.contains(i) && e[i] == c;
                    if i == ci {
                        if !present {
                            assert(ordered@[ordered@.len() - 1]@ == c);
                        } else {
                            let t = choose|t: int| 0 <= t < o0.len() && o0[t]@ == c;
                            assert(ordered@[t]@ == c);
                        }
                    } else {
                        assert(done0.contains(i));
                        assert(e0[i] == c);
                        assert(done_view(done0, e0, c));
                        assert(holds_view(o0, c));
                        let t = choose|t: int| 0 <= t < o0.len() && o0[t]@ == c;
                        assert(ordered@[t]@ == c);
                    }
                }
            }
            lemma_distinct_bounded(already@, cand);
        }
        proof {
            // The step of the search that this iteration took.
            lemma_views_pop(stack0, stack1, certificate);
            lemma_holds_view_contains(o0, certificate@);
            assert(views(ordered@) == (if views(o0).contains(certificate@) {
                views(o0)
            } else {
                views(o0).push(certificate@)
            })) by {
                if !present {
                    assert(views(ordered@) =~= views(o0).push(certificate@));
                } else {
                    assert(views(ordered@) =~= views(o0));
                }
            }
            assert forall|f: nat, rest: Seq<BatchCertificateView>|
                #[trigger] dfs_run(env, f, (DfsFrontier { stack: views(stack@), already: already@, picks: rest }), views(ordered@))
                    == dfs_order(env, leader, (used0 + np) + rest, f + (it0 + 1)) by {
                let fr = DfsFrontier { stack: views(stack0), already: already0, picks: np + rest };
                assert((used0 + np) + rest =~= used0 + (np + rest));
                assert(dfs_run(env, f + 1, fr, views(o0)) == dfs_order(env, leader, used0 + (np + rest), (f + 1) + it0));
                if !expands(certificate@, max_gc_rounds, lcr) {
                    assert(np + rest =~= rest);
                }
                assert(dfs_step(env, fr, views(o0)) == Ok::<(DfsFrontier, Seq<BatchCertificateView>), Option<(Field, u64)>>(
                    ((DfsFrontier { stack: views(stack@), already: already@, picks: rest }), views(ordered@)),
                ));
            }
            used = used0 + np;
            it = it0 + 1;
        }
    }
    proof {
        assert forall|j: int, p: Field|
            0 <= j < e.len() && #[trigger] needed(d, lid, ALLOW_LEDGER_ACCESS, max_gc_rounds, e[j], p)
                implies exists|i: int| 0 <= i < e.len() && e[i].id == p by {
            assert(tracked_index(done, sidx, j));
            assert(already@.contains(p));
            let q = choose|q: int| 0 <= q < already@.len() && already@[q] == p;
            assert(e[q + 1].id == p);
        }
    }
    proof {
        let empty = Seq::<BatchCertificateView>::empty();
        assert(used + empty =~= used);
        assert(views(stack@).len() == 0);
        assert(dfs_run(env, 0, (DfsFrontier { stack: views(stack@), already: already@, picks: empty }), views(ordered@))
            == DfsOutcome::Ordered(views(ordered@)));
        assert(dfs_order(env, leader, used, 0 + it) == DfsOutcome::Ordered(views(ordered@)));
    }
    let ghost vo = views(ordered@);
    let result = sort_above_gc(ordered, max_gc_rounds, lcr);
    proof {
        assert(dfs_order(env, leader, used, it) == DfsOutcome::Ordered(vo));
        assert(ordered_of(dfs_order(env, leader, used, it)) == vo);
        assert(closed(e, d, lid, ALLOW_LEDGER_ACCESS, max_gc_rounds));
        assert forall|c: BatchCertificateView|
            #![trigger holds_view(result@, c)]
            holds_view(result@, c) <==> (e.contains(c) && above_gc(c.header.round, max_gc_rounds, lcr)) by {
            if e.contains(c) {
                let i = choose|i: int| 0 <= i < e.len() && e[i] == c;
                assert(tracked_index(done, sidx, i));
                assert(done_view(done, e, c));
            }
            if holds_view(result@, c) {
                assert(holds_view(ordered@, c));
                let i = choose|i: int| #[trigger] done.contains(i) && e[i] == c;
            }
        }
    }
    Ok(result)
}

} // verus!
