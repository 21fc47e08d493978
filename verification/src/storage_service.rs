//! The transmission store of the BFT: each stored transmission with the certificates that
//! reference it, and each aborted transmission ID with the certificates that reference it.
//! A transmission leaves the store when no certificate references it any more.
use vstd::prelude::*;
use crate::assoc::AssocMap;
use crate::types::{Field, Transmission, TransmissionData, TransmissionID};

use crate::text::{push_transmission_id, transmission_id_text};
use vstd::string::StringExecFns;

verus! {

/// What the store holds, as the logic sees it.
pub struct StoreView {
    /// The stored transmissions, each with the IDs of the certificates that reference it.
    pub transmissions: Map<TransmissionID, (TransmissionData, Set<Field>)>,
    /// The aborted transmission IDs, each with the IDs of the certificates that reference it.
    pub aborted: Map<TransmissionID, Set<Field>>,
}

/// The failures of the transmission store.
#[derive(Clone, Copy, Debug, PartialEq, Eq, Structural)]
pub enum StorageError {
    /// A transmission that the store lacks was neither provided nor aborted.
    MissingTransmission(TransmissionID),
}

/// The view of a map of provided transmissions.
pub open spec fn provided_view(m: Map<TransmissionID, Transmission>) -> Map<TransmissionID, TransmissionData> {
    Map::new(|k: TransmissionID| m.contains_key(k), |k: TransmissionID| m[k]@)
}

/// The views of the found transmissions.
pub open spec fn found_view(v: Seq<(TransmissionID, Transmission)>) -> Seq<(TransmissionID, TransmissionData)> {
    v.map_values(|e: (TransmissionID, Transmission)| (e.0, e.1@))
}

/// `true` if the store holds the transmission ID, stored or aborted.
pub open spec fn spec_contains(s: StoreView, id: TransmissionID) -> bool {
    s.transmissions.contains_key(id) || s.aborted.contains_key(id)
}

/// The transmissions that the store lacks among `ids`, taken from `provided` in order, or
/// the first one that is neither provided nor aborted.
pub open spec fn spec_find_missing(
    s: StoreView,
    ids: Seq<TransmissionID>,
    provided: Map<TransmissionID, TransmissionData>,
    aborted: Set<TransmissionID>,
) -> Result<(Map<TransmissionID, TransmissionData>, Seq<(TransmissionID, TransmissionData)>), StorageError>
    decreases ids.len(),
{
    if ids.len() == 0 {
        Ok((provided, Seq::empty()))
    } else {
        match spec_find_missing(s, ids.drop_last(), provided, aborted) {
            Err(e) => Err(e),
            Ok((rest, found)) => {
                let id = ids.last();
                if spec_contains(s, id) {
                    Ok((rest, found))
                } else if rest.contains_key(id) {
                    Ok((rest.remove(id), found.push((id, rest[id]))))
                } else if aborted.contains(id) {
                    Ok((rest, found))
                } else {
                    Err(StorageError::MissingTransmission(id))
                }
            },
        }
    }
}

/// The stored transmissions after `certificate_id` is recorded for `id`: a stored
/// transmission gains the certificate; a missing one is stored from `missing` with it.
pub open spec fn spec_insert_one(
    tm: Map<TransmissionID, (TransmissionData, Set<Field>)>,
    missing: Map<TransmissionID, TransmissionData>,
    certificate_id: Field,
    id: TransmissionID,
) -> (Map<TransmissionID, (TransmissionData, Set<Field>)>, Map<TransmissionID, TransmissionData>) {
    if tm.contains_key(id) {
        (tm.insert(id, (tm[id].0, tm[id].1.insert(certificate_id))), missing)
    } else if missing.contains_key(id) {
        (tm.insert(id, (missing[id], set![certificate_id])), missing.remove(id))
    } else {
        (tm, missing)
    }
}

/// The stored transmissions after `certificate_id` is recorded for each of `ids`, in order.
pub open spec fn spec_insert_all(
    tm: Map<TransmissionID, (TransmissionData, Set<Field>)>,
    missing: Map<TransmissionID, TransmissionData>,
    certificate_id: Field,
    ids: Seq<TransmissionID>,
) -> (Map<TransmissionID, (TransmissionData, Set<Field>)>, Map<TransmissionID, TransmissionData>)
    decreases ids.len(),
{
    if ids.len() == 0 {
        (tm, missing)
    } else {
        let (a, b) = spec_insert_all(tm, missing, certificate_id, ids.drop_last());
        spec_insert_one(a, b, certificate_id, ids.last())
    }
}

/// After a certificate's transmissions are inserted, each of its IDs that was stored or
/// provided is stored and records the certificate; nothing stored is lost, and a provided
/// transmission is either stored or still provided.
pub proof fn law_inserted_transmissions_are_stored(
    tm: Map<TransmissionID, (TransmissionData, Set<Field>)>,
    missing: Map<TransmissionID, TransmissionData>,
    certificate_id: Field,
    ids: Seq<TransmissionID>,
)
    ensures
        ({
            let (tm1, missing1) = spec_insert_all(tm, missing, certificate_id, ids);
            &&& forall|k: TransmissionID| #[trigger] tm.contains_key(k) ==> tm1.contains_key(k)
            &&& forall|k: TransmissionID| #[trigger] missing.contains_key(k) ==> tm1.contains_key(k) || missing1.contains_key(k)
            &&& forall|i: int| 0 <= i < ids.len() && (tm.contains_key(ids[i]) || missing.contains_key(ids[i]))
                ==> tm1.contains_key(#[trigger] ids[i]) && tm1[ids[i]].1.contains(certificate_id)
        }),
    decreases ids.len(),
{
    if ids.len() > 0 {
        let prefix = ids.drop_last();
        law_inserted_transmissions_are_stored(tm, missing, certificate_id, prefix);
        let (a, b) = spec_insert_all(tm, missing, certificate_id, prefix);
        let (tm1, missing1) = spec_insert_all(tm, missing, certificate_id, ids);
        assert((tm1, missing1) == spec_insert_one(a, b, certificate_id, ids.last()));
        assert forall|i: int| 0 <= i < ids.len() && (tm.contains_key(ids[i]) || missing.contains_key(ids[i]))
            implies tm1.contains_key(#[trigger] ids[i]) && tm1[ids[i]].1.contains(certificate_id) by {
            if i < ids.len() - 1 {
                assert(prefix[i] == ids[i]);
                assert(a.contains_key(prefix[i]) && a[prefix[i]].1.contains(certificate_id));
            }
        }
    }
}

/// The aborted transmission IDs after `certificate_id` is recorded for each of `ids`.
pub open spec fn spec_abort_all(
    am: Map<TransmissionID, Set<Field>>,
    certificate_id: Field,
    ids: Seq<TransmissionID>,
) -> Map<TransmissionID, Set<Field>>
    decreases ids.len(),
{
    if ids.len() == 0 {
        am
    } else {
        let a = spec_abort_all(am, certificate_id, ids.drop_last());
        let id = ids.last();
        a.insert(id, (if a.contains_key(id) { a[id] } else { Set::empty() }).insert(certificate_id))
    }
}

/// The store after `certificate_id` is dropped from the entries of each of `ids`; an entry
/// that no certificate references any more leaves the store.
pub open spec fn spec_remove_all(s: StoreView, certificate_id: Field, ids: Seq<TransmissionID>) -> StoreView
    decreases ids.len(),
{
    if ids.len() == 0 {
        s
    } else {
        let a = spec_remove_all(s, certificate_id, ids.drop_last());
        let id = ids.last();
        StoreView {
            transmissions: if a.transmissions.contains_key(id) {
                let left = a.transmissions[id].1.remove(certificate_id);
                if left.is_empty() {
                    a.transmissions.remove(id)
                } else {
                    a.transmissions.insert(id, (a.transmissions[id].0, left))
                }
            } else {
                a.transmissions
            },
            aborted: if a.aborted.contains_key(id) {
                let left = a.aborted[id].remove(certificate_id);
                if left.is_empty() {
                    a.aborted.remove(id)
                } else {
                    a.aborted.insert(id, left)
                }
            } else {
                a.aborted
            },
        }
    }
}

/// What inserting the transmissions of `ids` leaves for `k`: an ID among them gains the
/// certificate where it is stored, or is stored from the provided ones with it, or stays
/// absent; other IDs are left as they were.
pub open spec fn inserted_at(
    tm: Map<TransmissionID, (TransmissionData, Set<Field>)>,
    provided: Map<TransmissionID, TransmissionData>,
    certificate_id: Field,
    ids: Seq<TransmissionID>,
    k: TransmissionID,
) -> Option<(TransmissionData, Set<Field>)> {
    if ids.contains(k) && tm.contains_key(k) {
        Some((tm[k].0, tm[k].1.insert(certificate_id)))
    } else if ids.contains(k) && provided.contains_key(k) {
        Some((provided[k], set![certificate_id]))
    } else if tm.contains_key(k) {
        Some(tm[k])
    } else {
        None
    }
}

/// Inserting the transmissions of `ids` acts on each ID on its own.
proof fn lemma_insert_all_pointwise(
    tm: Map<TransmissionID, (TransmissionData, Set<Field>)>,
    provided: Map<TransmissionID, TransmissionData>,
    certificate_id: Field,
    ids: Seq<TransmissionID>,
)
    ensures
        ({
            let (t, m) = spec_insert_all(tm, provided, certificate_id, ids);
            &&& forall|k: TransmissionID| #[trigger] t.contains_key(k) == (inserted_at(tm, provided, certificate_id, ids, k) is Some)
            &&& forall|k: TransmissionID| #[trigger] t.contains_key(k) ==> Some(t[k]) == inserted_at(tm, provided, certificate_id, ids, k)
            &&& forall|k: TransmissionID| #[trigger] m.contains_key(k) == (provided.contains_key(k) && !(ids.contains(k) && !tm.contains_key(k)))
            &&& forall|k: TransmissionID| #[trigger] m.contains_key(k) ==> m[k] == provided[k]
        }),
    decreases ids.len(),
{
    if ids.len() > 0 {
        let p = ids.drop_last();
        let x = ids.last();
        lemma_insert_all_pointwise(tm, provided, certificate_id, p);
        assert(ids =~= p.push(x));
        assert forall|k: TransmissionID| #[trigger] ids.contains(k) == (p.contains(k) || k == x) by {
            if ids.contains(k) {
                let i = choose|i: int| 0 <= i < ids.len() && ids[i] == k;
                if i < p.len() {
                    assert(p[i] == k);
                }
            }
            if p.contains(k) {
                let i = choose|i: int| 0 <= i < p.len() && p[i] == k;
                assert(ids[i] == k);
            }
            if k == x {
                assert(ids[ids.len() - 1] == k);
            }
        }
        let (a, b) = spec_insert_all(tm, provided, certificate_id, p);
        if a.contains_key(x) {
            assert(a[x].1.insert(certificate_id).insert(certificate_id) =~= a[x].1.insert(certificate_id));
            assert(set![certificate_id].insert(certificate_id) =~= set![certificate_id]);
        }
    }
}

/// What recording the aborted IDs leaves for `k`.
pub open spec fn aborted_at(am: Map<TransmissionID, Set<Field>>, certificate_id: Field, ids: Seq<TransmissionID>, k: TransmissionID) -> Option<
    Set<Field>,
> {
    if ids.contains(k) {
        Some((if am.contains_key(k) { am[k] } else { Set::empty() }).insert(certificate_id))
    } else if am.contains_key(k) {
        Some(am[k])
    } else {
        None
    }
}

/// Recording the aborted IDs acts on each ID on its own.
proof fn lemma_abort_all_pointwise(am: Map<TransmissionID, Set<Field>>, certificate_id: Field, ids: Seq<TransmissionID>)
    ensures
        ({
            let a = spec_abort_all(am, certificate_id, ids);
            &&& forall|k: TransmissionID| #[trigger] a.contains_key(k) == (aborted_at(am, certificate_id, ids, k) is Some)
            &&& forall|k: TransmissionID| #[trigger] a.contains_key(k) ==> Some(a[k]) == aborted_at(am, certificate_id, ids, k)
        }),
    decreases ids.len(),
{
    if ids.len() > 0 {
        let p = ids.drop_last();
        let x = ids.last();
        lemma_abort_all_pointwise(am, certificate_id, p);
        assert(ids =~= p.push(x));
        assert forall|k: TransmissionID| #[trigger] ids.contains(k) == (p.contains(k) || k == x) by {
            if ids.contains(k) {
                let i = choose|i: int| 0 <= i < ids.len() && ids[i] == k;
                if i < p.len() {
                    assert(p[i] == k);
                }
            }
            if p.contains(k) {
                let i = choose|i: int| 0 <= i < p.len() && p[i] == k;
                assert(ids[i] == k);
            }
            if k == x {
                assert(ids[ids.len() - 1] == k);
            }
        }
        let a = spec_abort_all(am, certificate_id, p);
        if a.contains_key(x) {
            assert(a[x].insert(certificate_id).insert(certificate_id) =~= a[x].insert(certificate_id));
        }
    }
}

/// What dropping the certificate from the entries of `ids` leaves of an entry holding the
/// set `refs`: the set without the certificate, or nothing where it is left empty.
pub open spec fn dropped_ref(refs: Set<Field>, certificate_id: Field) -> Option<Set<Field>> {
    if refs.remove(certificate_id).is_empty() {
        None
    } else {
        Some(refs.remove(certificate_id))
    }
}

/// Dropping the certificate from the entries of `ids` acts on each ID on its own.
proof fn lemma_remove_all_pointwise(s: StoreView, certificate_id: Field, ids: Seq<TransmissionID>)
    ensures
        ({
            let r = spec_remove_all(s, certificate_id, ids);
            &&& forall|k: TransmissionID| #[trigger] r.transmissions.contains_key(k) == if ids.contains(k) {
                s.transmissions.contains_key(k) && dropped_ref(s.transmissions[k].1, certificate_id) is Some
            } else {
                s.transmissions.contains_key(k)
            }
            &&& forall|k: TransmissionID| #[trigger] r.transmissions.contains_key(k) ==> r.transmissions[k] == if ids.contains(k) {
                (s.transmissions[k].0, s.transmissions[k].1.remove(certificate_id))
            } else {
                s.transmissions[k]
            }
            &&& forall|k: TransmissionID| #[trigger] r.aborted.contains_key(k) == if ids.contains(k) {
                s.aborted.contains_key(k) && dropped_ref(s.aborted[k], certificate_id) is Some
            } else {
                s.aborted.contains_key(k)
            }
            &&& forall|k: TransmissionID| #[trigger] r.aborted.contains_key(k) ==> r.aborted[k] == if ids.contains(k) {
                s.aborted[k].remove(certificate_id)
            } else {
                s.aborted[k]
            }
        }),
    decreases ids.len(),
{
    if ids.len() > 0 {
        let p = ids.drop_last();
        let x = ids.last();
        lemma_remove_all_pointwise(s, certificate_id, p);
        assert(ids =~= p.push(x));
        assert forall|k: TransmissionID| #[trigger] ids.contains(k) == (p.contains(k) || k == x) by {
            if ids.contains(k) {
                let i = choose|i: int| 0 <= i < ids.len() && ids[i] == k;
                if i < p.len() {
                    assert(p[i] == k);
                }
            }
            if p.contains(k) {
                let i = choose|i: int| 0 <= i < p.len() && p[i] == k;
                assert(ids[i] == k);
            }
            if k == x {
                assert(ids[ids.len() - 1] == k);
            }
        }
        let a = spec_remove_all(s, certificate_id, p);
        if a.transmissions.contains_key(x) {
            assert(a.transmissions[x].1.remove(certificate_id).remove(certificate_id) =~= a.transmissions[x].1.remove(certificate_id));
        }
        if a.aborted.contains_key(x) {
            assert(a.aborted[x].remove(certificate_id).remove(certificate_id) =~= a.aborted[x].remove(certificate_id));
        }
    }
}

/// `true` if every entry of the store, stored or aborted, is referenced by a certificate:
/// the store's operations keep this (an entry leaves when its last reference goes).
pub open spec fn refs_nonempty(s: StoreView) -> bool {
    &&& forall|k: TransmissionID| #[trigger] s.transmissions.contains_key(k) ==> !s.transmissions[k].1.is_empty()
    &&& forall|k: TransmissionID| #[trigger] s.aborted.contains_key(k) ==> !s.aborted[k].is_empty()
}

/// Inserting a certificate's transmissions and then removing them gives the store back:
/// where no entry of the store references the certificate and each entry is referenced by
/// some certificate (as the store's operations keep), and the aborted IDs are among the certificate's IDs, inserting them
/// (with any provided transmissions) and then removing the certificate's IDs leaves every
/// entry as it was.
pub proof fn law_insert_then_remove_transmissions(
    s: StoreView,
    certificate_id: Field,
    ids: Seq<TransmissionID>,
    aborted_ids: Seq<TransmissionID>,
    provided: Map<TransmissionID, TransmissionData>,
)
    requires
        refs_nonempty(s),
        forall|k: TransmissionID| #[trigger] s.transmissions.contains_key(k) ==> !s.transmissions[k].1.contains(certificate_id),
        forall|k: TransmissionID| #[trigger] s.aborted.contains_key(k) ==> !s.aborted[k].contains(certificate_id),
        forall|k: TransmissionID| #[trigger] aborted_ids.contains(k) ==> ids.contains(k),
    ensures
        spec_remove_all(
            (StoreView {
                transmissions: spec_insert_all(s.transmissions, provided, certificate_id, ids).0,
                aborted: spec_abort_all(s.aborted, certificate_id, aborted_ids),
            }),
            certificate_id,
            ids,
        ) == s,
{
    let t1 = spec_insert_all(s.transmissions, provided, certificate_id, ids).0;
    let a1 = spec_abort_all(s.aborted, certificate_id, aborted_ids);
    let s1 = StoreView { transmissions: t1, aborted: a1 };
    let r = spec_remove_all(s1, certificate_id, ids);
    lemma_insert_all_pointwise(s.transmissions, provided, certificate_id, ids);
    lemma_abort_all_pointwise(s.aborted, certificate_id, aborted_ids);
    lemma_remove_all_pointwise(s1, certificate_id, ids);
    assert forall|k: TransmissionID| #[trigger] r.transmissions.contains_key(k) == s.transmissions.contains_key(k) by {
        if ids.contains(k) && s.transmissions.contains_key(k) {
            assert(s.transmissions[k].1.insert(certificate_id).remove(certificate_id) =~= s.transmissions[k].1);
        }
        if ids.contains(k) && !s.transmissions.contains_key(k) && provided.contains_key(k) {
            assert(set![certificate_id].remove(certificate_id) =~= Set::<Field>::empty());
        }
    }
    assert forall|k: TransmissionID| #[trigger] r.transmissions.contains_key(k) implies r.transmissions[k] == s.transmissions[k] by {
        if ids.contains(k) {
            assert(s.transmissions[k].1.insert(certificate_id).remove(certificate_id) =~= s.transmissions[k].1);
        }
    }
    assert forall|k: TransmissionID| #[trigger] r.aborted.contains_key(k) == s.aborted.contains_key(k) by {
        if ids.contains(k) && aborted_ids.contains(k) {
            if s.aborted.contains_key(k) {
                assert(s.aborted[k].insert(certificate_id).remove(certificate_id) =~= s.aborted[k]);
            } else {
                assert(Set::<Field>::empty().insert(certificate_id).remove(certificate_id) =~= Set::<Field>::empty());
            }
        }
        if ids.contains(k) && !aborted_ids.contains(k) && s.aborted.contains_key(k) {
            assert(s.aborted[k].remove(certificate_id) =~= s.aborted[k]);
        }
    }
    assert forall|k: TransmissionID| #[trigger] r.aborted.contains_key(k) implies r.aborted[k] == s.aborted[k] by {
        if ids.contains(k) && aborted_ids.contains(k) {
            assert(s.aborted[k].insert(certificate_id).remove(certificate_id) =~= s.aborted[k]);
        }
        if ids.contains(k) && !aborted_ids.contains(k) {
            assert(s.aborted[k].remove(certificate_id) =~= s.aborted[k]);
        }
    }
    assert(r.transmissions =~= s.transmissions);
    assert(r.aborted =~= s.aborted);
}

/// Adds the field to the vector, unless it holds it.
fn add_field(v: &mut Vec<Field>, f: Field)
    ensures
        final(v)@.to_set() == old(v)@.to_set().insert(f),
        final(v)@.len() > 0,
{
    if !crate::types::contains_field(v, f) {
        let ghost v0 = v@;
        v.push(f);
        proof {
            v0.lemma_push_to_set_commute(f);
        }
    } else {
        assert(v@.to_set() =~= v@.to_set().insert(f));
    }
}

/// Removes every occurrence of the field from the vector.
fn drop_field(v: Vec<Field>, f: Field) -> (r: Vec<Field>)
    ensures
        r@.to_set() == v@.to_set().remove(f),
        r@.len() == 0 <==> r@.to_set().is_empty(),
{
    let mut out: Vec<Field> = Vec::new();
    let mut i: usize = 0;
    while i < v.len()
        invariant
            i <= v@.len(),
            forall|x: Field| out@.contains(x) <==> (exists|j: int| 0 <= j < i && v@[j] == x) && x != f,
        decreases v@.len() - i,
    {
        let ghost o0 = out@;
        if v[i] != f {
            out.push(v[i]);
        }
        proof {
            assert forall|x: Field| out@.contains(x) <==> (exists|j: int| 0 <= j < i + 1 && v@[j] == x) && x != f by {
                if out@.contains(x) {
                    let q = choose|q: int| 0 <= q < out@.len() && out@[q] == x;
                    if q < o0.len() {
                        assert(o0[q] == x);
                        assert(o0.contains(x));
                    } else {
                        assert(v@[i as int] == x);
                    }
                }
                if (exists|j: int| 0 <= j < i + 1 && v@[j] == x) && x != f {
                    let j = choose|j: int| 0 <= j < i + 1 && v@[j] == x;
                    if j == i {
                        assert(out@[out@.len() - 1] == x);
                    } else {
                        assert(o0.contains(x));
                        let q = choose|q: int| 0 <= q < o0.len() && o0[q] == x;
                        assert(out@[q] == x);
                    }
                }
            }
        }
        i = i + 1;
    }
    proof {
        assert(out@.to_set() =~= v@.to_set().remove(f));
        if out@.len() > 0 {
            assert(out@.to_set().contains(out@[0]));
        }
    }
    out
}

/// The transmission store, held in memory.
pub struct BFTMemoryService {
    transmissions: AssocMap<TransmissionID, (Transmission, Vec<Field>)>,
    aborted_transmission_ids: AssocMap<TransmissionID, Vec<Field>>,
}

impl View for BFTMemoryService {
    type V = StoreView;

    closed spec fn view(&self) -> StoreView {
        StoreView {
            transmissions: Map::new(
                |k: TransmissionID| self.transmissions@.contains_key(k),
                |k: TransmissionID| (self.transmissions@[k].0@, self.transmissions@[k].1@.to_set()),
            ),
            aborted: Map::new(
                |k: TransmissionID| self.aborted_transmission_ids@.contains_key(k),
                |k: TransmissionID| self.aborted_transmission_ids@[k]@.to_set(),
            ),
        }
    }
}

impl BFTMemoryService {
    /// The maps are well formed.
    pub closed spec fn wf(&self) -> bool {
        self.transmissions.wf() && self.aborted_transmission_ids.wf()
    }

    /// Initializes an empty store.
    pub fn new() -> (r: BFTMemoryService)
        ensures
            r.wf(),
            r@.transmissions == Map::<TransmissionID, (TransmissionData, Set<Field>)>::empty(),
            r@.aborted == Map::<TransmissionID, Set<Field>>::empty(),
            refs_nonempty(r@),
    {
        let r = BFTMemoryService { transmissions: AssocMap::new(), aborted_transmission_ids: AssocMap::new() };
        assert(r@.transmissions =~= Map::<TransmissionID, (TransmissionData, Set<Field>)>::empty());
        assert(r@.aborted =~= Map::<TransmissionID, Set<Field>>::empty());
        r
    }

    /// Returns `true` if the storage contains the specified `transmission ID`, stored or
    /// aborted.
    pub fn contains_transmission(&self, transmission_id: TransmissionID) -> (r: bool)
        requires
            self.wf(),
        ensures
            r == spec_contains(self@, transmission_id),
    {
        self.transmissions.contains_key(&transmission_id) || self.aborted_transmission_ids.contains_key(
            &transmission_id,
        )
    }

    /// Returns the transmission for the given `transmission ID`, if it is stored.
    pub fn get_transmission(&self, transmission_id: TransmissionID) -> (r: Option<Transmission>)
        requires
            self.wf(),
        ensures
            r is Some <==> self@.transmissions.contains_key(transmission_id),
            r matches Some(t) ==> t@ == self@.transmissions[transmission_id].0,
    {
        match self.transmissions.get(&transmission_id) {
            Some(entry) => Some(entry.0.duplicate()),
            None => None,
        }
    }

    /// Returns the transmissions that the store lacks among `transmission_ids`, taken from
    /// `transmissions`, in order. Fails on a missing transmission that is neither provided
    /// nor among `aborted_transmissions`.
    pub fn find_missing_transmissions(
        &self,
        transmission_ids: &Vec<TransmissionID>,
        transmissions: AssocMap<TransmissionID, Transmission>,
        aborted_transmissions: &Vec<TransmissionID>,
    ) -> (r: Result<Vec<(TransmissionID, Transmission)>, StorageError>)
        requires
            self.wf(),
            transmissions.wf(),
        ensures
            match r {
                Ok(v) => spec_find_missing(self@, transmission_ids@, provided_view(transmissions@), aborted_transmissions@.to_set())
                    matches Ok((_, found)) && found == found_view(v@),
                Err(e) => spec_find_missing(self@, transmission_ids@, provided_view(transmissions@), aborted_transmissions@.to_set())
                    == Err::<(Map<TransmissionID, TransmissionData>, Seq<(TransmissionID, TransmissionData)>), StorageError>(e),
            },
    {
        let ghost provided0 = provided_view(transmissions@);
        let ghost aborted = aborted_transmissions@.to_set();
        let mut rest = transmissions;
        let mut missing: Vec<(TransmissionID, Transmission)> = Vec::new();
        let mut i: usize = 0;
        proof {
            assert(found_view(missing@) =~= Seq::<(TransmissionID, TransmissionData)>::empty());
            assert(transmission_ids@.subrange(0, 0) =~= Seq::<TransmissionID>::empty());
        }
        while i < transmission_ids.len()
            invariant
                self.wf(),
                provided0 == provided_view(transmissions@),
                rest.wf(),
                aborted == aborted_transmissions@.to_set(),
                i <= transmission_ids@.len(),
                spec_find_missing(self@, transmission_ids@.subrange(0, i as int), provided0, aborted) == Ok::<(Map<TransmissionID, TransmissionData>, Seq<(TransmissionID, TransmissionData)>), StorageError>(
                    (provided_view(rest@), found_view(missing@)),
                ),
            decreases transmission_ids@.len() - i,
        {
            let id = transmission_ids[i];
            proof {
                let pre = transmission_ids@.subrange(0, i as int + 1);
                assert(pre.drop_last() =~= transmission_ids@.subrange(0, i as int));
                assert(pre.last() == id);
            }
            if !self.contains_transmission(id) {
                let ghost r0 = rest@;
                let ghost m0 = missing@;
                match rest.remove(&id) {
                    Some(t) => {
                        missing.push((id, t));
                        proof {
                            assert(provided_view(rest@) =~= provided_view(r0).remove(id));
                            assert(found_view(missing@) =~= found_view(m0).push((id, provided_view(r0)[id])));
                        }
                    },
                    None => {
                        if !crate::types::contains_transmission_id(aborted_transmissions, id) {
                            proof {
                                lemma_find_missing_err_sticks(self@, transmission_ids@, provided0, aborted, i as int + 1);
                                assert(transmission_ids@.subrange(0, transmission_ids@.len() as int) =~= transmission_ids@);
                            }
                            return Err(StorageError::MissingTransmission(id));
                        }
                        proof {
                            assert(aborted.contains(id));
                            assert(rest@ == r0);
                        }
                    },
                }
            }
            i = i + 1;
        }
        assert(transmission_ids@.subrange(0, transmission_ids@.len() as int) =~= transmission_ids@);
        Ok(missing)
    }

    /// Records `certificate_id` for each of `transmission_ids`, in order: a stored transmission
    /// gains the certificate, and a missing one is stored from `missing_transmissions` with
    /// it (one provided by neither is passed over). Then each of
    /// `aborted_transmission_ids` is recorded as aborted, with the certificate.
    pub fn insert_transmissions(
        &mut self,
        certificate_id: Field,
        transmission_ids: &Vec<TransmissionID>,
        aborted_transmission_ids: &Vec<TransmissionID>,
        missing_transmissions: AssocMap<TransmissionID, Transmission>,
    )
        requires
            old(self).wf(),
            missing_transmissions.wf(),
        ensures
            final(self).wf(),
            final(self)@.transmissions == spec_insert_all(
                old(self)@.transmissions,
                provided_view(missing_transmissions@),
                certificate_id,
                transmission_ids@,
            ).0,
            final(self)@.aborted == spec_abort_all(old(self)@.aborted, certificate_id, aborted_transmission_ids@),
            refs_nonempty(old(self)@) ==> refs_nonempty(final(self)@),
    {
        let ghost t0 = self@.transmissions;
        let ghost a0 = self@.aborted;
        let ghost m0 = provided_view(missing_transmissions@);
        let mut missing = missing_transmissions;
        let mut i: usize = 0;
        while i < transmission_ids.len()
            invariant
                self.wf(),
                missing.wf(),
                i <= transmission_ids@.len(),
                self@.aborted == a0,
                (self@.transmissions, provided_view(missing@)) == spec_insert_all(
                    t0,
                    m0,
                    certificate_id,
                    transmission_ids@.subrange(0, i as int),
                ),
            decreases transmission_ids@.len() - i,
        {
            let id = transmission_ids[i];
            let ghost v0 = self@;
            let ghost mm0 = provided_view(missing@);
            proof {
                let pre = transmission_ids@.subrange(0, i as int + 1);
                assert(pre.drop_last() =~= transmission_ids@.subrange(0, i as int));
                assert(pre.last() == id);
            }
            match self.transmissions.remove(&id) {
                Some(entry) => {
                    let (t, mut certs) = entry;
                    add_field(&mut certs, certificate_id);
                    self.transmissions.insert(id, (t, certs));
                    proof {
                        assert(self@.transmissions =~= v0.transmissions.insert(
                            id,
                            (v0.transmissions[id].0, v0.transmissions[id].1.insert(certificate_id)),
                        ));
                        assert(self@.aborted =~= v0.aborted);
                    }
                },
                None => {
                    match missing.remove(&id) {
                        Some(t) => {
                            let mut certs: Vec<Field> = Vec::new();
                            certs.push(certificate_id);
                            let ghost cs = certs@;
                            proof {
                                assert(cs =~= seq![certificate_id]);
                                assert(cs[0] == certificate_id);
                                assert(cs.to_set() =~= set![certificate_id]) by {
                                    assert(cs.contains(certificate_id));
                                }
                            }
                            self.transmissions.insert(id, (t, certs));
                            proof {
                                assert(self@.transmissions =~= v0.transmissions.insert(id, (mm0[id], set![certificate_id])));
                                assert(provided_view(missing@) =~= mm0.remove(id));
                                assert(self@.aborted =~= v0.aborted);
                            }
                        },
                        None => {
                            proof {
                                assert(self@.transmissions =~= v0.transmissions);
                                assert(self@.aborted =~= v0.aborted);
                            }
                        },
                    }
                },
            }
            i = i + 1;
        }
        assert(transmission_ids@.subrange(0, transmission_ids@.len() as int) =~= transmission_ids@);
        let ghost t1 = self@.transmissions;
        let mut j: usize = 0;
        while j < aborted_transmission_ids.len()
            invariant
                self.wf(),
                j <= aborted_transmission_ids@.len(),
                self@.transmissions == t1,
                self@.aborted == spec_abort_all(a0, certificate_id, aborted_transmission_ids@.subrange(0, j as int)),
            decreases aborted_transmission_ids@.len() - j,
        {
            let id = aborted_transmission_ids[j];
            let ghost v0 = self@;
            proof {
                let pre = aborted_transmission_ids@.subrange(0, j as int + 1);
                assert(pre.drop_last() =~= aborted_transmission_ids@.subrange(0, j as int));
                assert(pre.last() == id);
            }
            let mut certs = match self.aborted_transmission_ids.remove(&id) {
                Some(c) => c,
                None => Vec::new(),
            };
            let ghost c0 = certs@;
            proof {
                if !v0.aborted.contains_key(id) {
                    assert(c0.to_set() =~= Set::<Field>::empty());
                }
            }
            add_field(&mut certs, certificate_id);
            self.aborted_transmission_ids.insert(id, certs);
            proof {
                assert(self@.aborted =~= v0.aborted.insert(
                    id,
                    (if v0.aborted.contains_key(id) { v0.aborted[id] } else { Set::empty() }).insert(certificate_id),
                ));
                assert(self@.transmissions =~= v0.transmissions);
            }
            j = j + 1;
        }
        assert(aborted_transmission_ids@.subrange(0, aborted_transmission_ids@.len() as int) =~= aborted_transmission_ids@);
        proof {
            lemma_insert_all_pointwise(t0, m0, certificate_id, transmission_ids@);
            lemma_abort_all_pointwise(a0, certificate_id, aborted_transmission_ids@);
            if refs_nonempty(old(self)@) {
                assert forall|k: TransmissionID| #[trigger] self@.transmissions.contains_key(k) implies !self@.transmissions[k].1.is_empty() by {
                    let tt = spec_insert_all(t0, m0, certificate_id, transmission_ids@).0;
                    assert(self@.transmissions == tt);
                    assert(tt.contains_key(k));
                    assert(Some(tt[k]) == inserted_at(t0, m0, certificate_id, transmission_ids@, k));
                    if inserted_at(t0, m0, certificate_id, transmission_ids@, k) == Some((m0[k], set![certificate_id])) {
                        assert(tt[k].1.contains(certificate_id));
                    }
                    assert(self@.transmissions[k].1.contains(certificate_id) || t0.contains_key(k));
                    if self@.transmissions[k].1.contains(certificate_id) {
                        assert(self@.transmissions[k].1 != Set::<Field>::empty());
                    } else {
                        assert(!t0[k].1.is_empty());
                    }
                }
                assert forall|k: TransmissionID| #[trigger] self@.aborted.contains_key(k) implies !self@.aborted[k].is_empty() by {
                    if self@.aborted[k].contains(certificate_id) {
                        assert(self@.aborted[k] != Set::<Field>::empty());
                    } else {
                        assert(!a0[k].is_empty());
                    }
                }
            }
        }
    }

    /// Drops `certificate_id` from the entries of each of `transmission_ids`, stored and
    /// aborted; an entry that no certificate references any more leaves the store.
    pub fn remove_transmissions(&mut self, certificate_id: Field, transmission_ids: &Vec<TransmissionID>)
        requires
            old(self).wf(),
        ensures
            final(self).wf(),
            final(self)@ == spec_remove_all(old(self)@, certificate_id, transmission_ids@),
            refs_nonempty(old(self)@) ==> refs_nonempty(final(self)@),
    {
        let ghost s0 = self@;
        let mut i: usize = 0;
        while i < transmission_ids.len()
            invariant
                self.wf(),
                i <= transmission_ids@.len(),
                self@ == spec_remove_all(s0, certificate_id, transmission_ids@.subrange(0, i as int)),
            decreases transmission_ids@.len() - i,
        {
            let id = transmission_ids[i];
            let ghost v0 = self@;
            proof {
                let pre = transmission_ids@.subrange(0, i as int + 1);
                assert(pre.drop_last() =~= transmission_ids@.subrange(0, i as int));
                assert(pre.last() == id);
            }
            match self.transmissions.remove(&id) {
                Some(entry) => {
                    let (t, certs) = entry;
                    let left = drop_field(certs, certificate_id);
                    if left.len() > 0 {
                        self.transmissions.insert(id, (t, left));
                    }
                },
                None => {},
            }
            let ghost v1 = self@;
            match self.aborted_transmission_ids.remove(&id) {
                Some(certs) => {
                    let left = drop_field(certs, certificate_id);
                    if left.len() > 0 {
                        self.aborted_transmission_ids.insert(id, left);
                    }
                },
                None => {},
            }
            proof {
                let e = spec_remove_all(s0, certificate_id, transmission_ids@.subrange(0, i as int + 1));
                assert(self@.transmissions =~= e.transmissions);
                assert(self@.aborted =~= e.aborted);
            }
            i = i + 1;
        }
        assert(transmission_ids@.subrange(0, transmission_ids@.len() as int) =~= transmission_ids@);
        proof {
            lemma_remove_all_pointwise(s0, certificate_id, transmission_ids@);
            if refs_nonempty(s0) {
                assert forall|k: TransmissionID| #[trigger] self@.transmissions.contains_key(k) implies !self@.transmissions[k].1.is_empty() by {
                    if transmission_ids@.contains(k) {
                        assert(dropped_ref(s0.transmissions[k].1, certificate_id) is Some);
                    }
                }
                assert forall|k: TransmissionID| #[trigger] self@.aborted.contains_key(k) implies !self@.aborted[k].is_empty() by {
                    if transmission_ids@.contains(k) {
                        assert(dropped_ref(s0.aborted[k], certificate_id) is Some);
                    }
                }
            }
        }
    }
}

/// Once finding the missing transmissions of a prefix fails, so does it for every longer
/// prefix.
proof fn lemma_find_missing_err_sticks(
    s: StoreView,
    ids: Seq<TransmissionID>,
    provided: Map<TransmissionID, TransmissionData>,
    aborted: Set<TransmissionID>,
    n: int,
)
    requires
        0 <= n <= ids.len(),
        spec_find_missing(s, ids.subrange(0, n), provided, aborted) is Err,
    ensures
        spec_find_missing(s, ids, provided, aborted) == spec_find_missing(s, ids.subrange(0, n), provided, aborted),
    decreases ids.len() - n,
{
    if n < ids.len() {
        assert(ids.subrange(0, n + 1).drop_last() =~= ids.subrange(0, n));
        lemma_find_missing_err_sticks(s, ids, provided, aborted, n + 1);
    } else {
        assert(ids.subrange(0, n) =~= ids);
    }
}

/// The text of a storage error.
pub open spec fn spec_storage_message(e: StorageError) -> Seq<char> {
    match e {
        StorageError::MissingTransmission(id) => "Missing transmission "@ + transmission_id_text(id),
    }
}

impl StorageError {
    /// The error's message.
    pub fn message(&self) -> (r: String)
        ensures
            r@ == spec_storage_message(*self),
    {
        let mut s = String::new();
        match self {
            StorageError::MissingTransmission(id) => {
                s.append("Missing transmission ");
                push_transmission_id(&mut s, *id);
            },
        }
        s
    }
}

} // verus!
