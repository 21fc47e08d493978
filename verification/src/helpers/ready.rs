//! The ready queue: the transmissions a worker holds for its next batch, in arrival order.
use vstd::prelude::*;
use indexmap::IndexMap;
use crate::assoc::{index_of, keys_distinct, lemma_index_lookup};
use crate::collections::{
    has_transmission, transmission_map_contains_key, transmission_map_drain_front,
    transmission_map_get, transmission_map_get_index, transmission_map_insert, transmission_map_len,
    transmission_map_new, transmission_map_retain_non_solutions, transmissions_in,
};
use crate::types::{Field, Transmission, TransmissionData, TransmissionID};

verus! {

/// The entries after inserting `(k, v)`: a held key keeps its position and takes the value,
/// a new key is appended.
pub open spec fn spec_insert_entry(
    s: Seq<(TransmissionID, TransmissionData)>,
    k: TransmissionID,
    v: TransmissionData,
) -> Seq<(TransmissionID, TransmissionData)> {
    if has_transmission(s, k) {
        s.update(index_of(s, k), (k, v))
    } else {
        s.push((k, v))
    }
}

/// The value held for the key, if any.
pub open spec fn spec_lookup(s: Seq<(TransmissionID, TransmissionData)>, k: TransmissionID) -> Option<TransmissionData> {
    if has_transmission(s, k) {
        Some(s[index_of(s, k)].1)
    } else {
        None
    }
}

/// The solutions among the entries: the solution ID and bytes of each entry whose ID and
/// transmission are both solutions, in order.
pub open spec fn spec_solutions(s: Seq<(TransmissionID, TransmissionData)>) -> Seq<(u64, Seq<u8>)>
    decreases s.len(),
{
    if s.len() == 0 {
        Seq::empty()
    } else {
        let rest = spec_solutions(s.drop_last());
        match s.last() {
            (TransmissionID::Solution(id, _), TransmissionData::Solution(b)) => rest.push((id, b)),
            _ => rest,
        }
    }
}

/// The transactions among the entries: the transaction ID and bytes of each entry whose ID
/// and transmission are both transactions, in order.
pub open spec fn spec_transactions(s: Seq<(TransmissionID, TransmissionData)>) -> Seq<(Field, Seq<u8>)>
    decreases s.len(),
{
    if s.len() == 0 {
        Seq::empty()
    } else {
        let rest = spec_transactions(s.drop_last());
        match s.last() {
            (TransmissionID::Transaction(id, _), TransmissionData::Transaction(b)) => rest.push((id, b)),
            _ => rest,
        }
    }
}

/// The number of entries whose ID satisfies the kind: 0 ratification, 1 solution, 2 transaction.
pub open spec fn spec_count_kind(s: Seq<(TransmissionID, TransmissionData)>, kind: int) -> nat
    decreases s.len(),
{
    if s.len() == 0 {
        0
    } else {
        spec_count_kind(s.drop_last(), kind) + if spec_kind_of(s.last().0) == kind { 1nat } else { 0nat }
    }
}

/// The kind of an ID: 0 ratification, 1 solution, 2 transaction.
pub open spec fn spec_kind_of(id: TransmissionID) -> int {
    match id {
        TransmissionID::Ratification => 0,
        TransmissionID::Solution(..) => 1,
        TransmissionID::Transaction(..) => 2,
    }
}

proof fn lemma_count_kind_bound(s: Seq<(TransmissionID, TransmissionData)>, kind: int)
    ensures
        spec_count_kind(s, kind) <= s.len(),
    decreases s.len(),
{
    if s.len() > 0 {
        lemma_count_kind_bound(s.drop_last(), kind);
    }
}

/// The ready queue.
#[derive(Debug)]
pub struct Ready {
    transmissions: IndexMap<TransmissionID, Transmission>,
}

impl Ready {
    /// The entries, in order.
    pub closed spec fn contents(&self) -> Seq<(TransmissionID, TransmissionData)> {
        transmissions_in(self.transmissions)
    }

    /// No transmission ID occurs twice.
    pub closed spec fn wf(&self) -> bool {
        keys_distinct(self.contents())
    }

    /// Initializes a new instance of the ready queue.
    pub fn new() -> (r: Ready)
        ensures
            r.wf(),
            r.contents() == Seq::<(TransmissionID, TransmissionData)>::empty(),
    {
        Ready { transmissions: transmission_map_new() }
    }

    /// No transmission ID occurs twice among the IDs of the entries.
    pub proof fn lemma_ids_distinct(&self)
        requires
            self.wf(),
        ensures
            self.contents().map_values(|e: (TransmissionID, TransmissionData)| e.0).no_duplicates(),
    {
        let s = self.contents();
        let ids = s.map_values(|e: (TransmissionID, TransmissionData)| e.0);
        assert forall|a: int, b: int| 0 <= a < ids.len() && 0 <= b < ids.len() && a != b implies ids[a] != ids[b] by {
            assert(ids[a] == s[a].0 && ids[b] == s[b].0);
        }
    }

    /// Returns `true` if the ready queue is empty.
    pub fn is_empty(&self) -> (r: bool)
        ensures
            r == (self.contents().len() == 0),
    {
        transmission_map_len(&self.transmissions) == 0
    }

    /// Returns the number of transmissions in the ready queue.
    pub fn num_transmissions(&self) -> (r: usize)
        ensures
            r == self.contents().len(),
    {
        transmission_map_len(&self.transmissions)
    }

    /// Counts the transmissions of one kind: 0 ratification, 1 solution, 2 transaction.
    fn count_kind(&self, kind: u8) -> (r: usize)
        ensures
            r == spec_count_kind(self.contents(), kind as int),
    {
        let n = transmission_map_len(&self.transmissions);
        let mut count: usize = 0;
        let mut i: usize = 0;
        while i < n
            invariant
                n == self.contents().len(),
                i <= n,
                count == spec_count_kind(self.contents().take(i as int), kind as int),
            decreases n - i,
        {
            let (id, _) = transmission_map_get_index(&self.transmissions, i);
            let k: u8 = match id {
                TransmissionID::Ratification => 0,
                TransmissionID::Solution(..) => 1,
                TransmissionID::Transaction(..) => 2,
            };
            proof {
                assert(self.contents().take(i + 1).drop_last() =~= self.contents().take(i as int));
                lemma_count_kind_bound(self.contents().take(i as int), kind as int);
            }
            if k == kind {
                count = count + 1;
            }
            i = i + 1;
        }
        assert(self.contents().take(n as int) =~= self.contents());
        count
    }

    /// Returns the number of ratifications in the ready queue.
    pub fn num_ratifications(&self) -> (r: usize)
        ensures
            r == spec_count_kind(self.contents(), 0),
    {
        self.count_kind(0)
    }

    /// Returns the number of solutions in the ready queue.
    pub fn num_solutions(&self) -> (r: usize)
        ensures
            r == spec_count_kind(self.contents(), 1),
    {
        self.count_kind(1)
    }

    /// Returns the number of transactions in the ready queue.
    pub fn num_transactions(&self) -> (r: usize)
        ensures
            r == spec_count_kind(self.contents(), 2),
    {
        self.count_kind(2)
    }

    /// Returns the transmission IDs in the ready queue, in order.
    pub fn transmission_ids(&self) -> (r: Vec<TransmissionID>)
        ensures
            r@ == self.contents().map_values(|e: (TransmissionID, TransmissionData)| e.0),
    {
        let n = transmission_map_len(&self.transmissions);
        let mut out: Vec<TransmissionID> = Vec::new();
        let mut i: usize = 0;
        while i < n
            invariant
                n == self.contents().len(),
                i <= n,
                out@ == self.contents().take(i as int).map_values(|e: (TransmissionID, TransmissionData)| e.0),
            decreases n - i,
        {
            let (id, _) = transmission_map_get_index(&self.transmissions, i);
            out.push(*id);
            i = i + 1;
            assert(out@ =~= self.contents().take(i as int).map_values(|e: (TransmissionID, TransmissionData)| e.0));
        }
        assert(self.contents().take(n as int) =~= self.contents());
        out
    }

    /// Returns the transmissions in the ready queue, in order.
    pub fn transmissions(&self) -> (r: Vec<(TransmissionID, Transmission)>)
        ensures
            r@.len() == self.contents().len(),
            forall|i: int| 0 <= i < r@.len() ==> (#[trigger] r@[i]).0 == self.contents()[i].0 && r@[i].1@ == self.contents()[i].1,
    {
        let n = transmission_map_len(&self.transmissions);
        let mut out: Vec<(TransmissionID, Transmission)> = Vec::new();
        let mut i: usize = 0;
        while i < n
            invariant
                n == self.contents().len(),
                i <= n,
                out@.len() == i,
                forall|j: int| 0 <= j < i ==> (#[trigger] out@[j]).0 == self.contents()[j].0 && out@[j].1@ == self.contents()[j].1,
            decreases n - i,
        {
            let (id, t) = transmission_map_get_index(&self.transmissions, i);
            out.push((*id, t.duplicate()));
            i = i + 1;
        }
        out
    }

    /// Returns the solutions in the ready queue, in order.
    pub fn solutions(&self) -> (r: Vec<(u64, Vec<u8>)>)
        ensures
            r@.map_values(|p: (u64, Vec<u8>)| (p.0, p.1@)) == spec_solutions(self.contents()),
    {
        let n = transmission_map_len(&self.transmissions);
        let mut out: Vec<(u64, Vec<u8>)> = Vec::new();
        let mut i: usize = 0;
        while i < n
            invariant
                n == self.contents().len(),
                i <= n,
                out@.map_values(|p: (u64, Vec<u8>)| (p.0, p.1@)) == spec_solutions(self.contents().take(i as int)),
            decreases n - i,
        {
            let (id, t) = transmission_map_get_index(&self.transmissions, i);
            let ghost before = out@;
            proof {
                assert(self.contents().take(i + 1).drop_last() =~= self.contents().take(i as int));
            }
            match (id, t) {
                (TransmissionID::Solution(sid, _), Transmission::Solution(bytes)) => {
                    out.push((*sid, crate::types::copy_bytes(bytes)));
                    assert(out@.map_values(|p: (u64, Vec<u8>)| (p.0, p.1@)) =~= before.map_values(|p: (u64, Vec<u8>)| (p.0, p.1@)).push((*sid, bytes@)));
                },
                _ => {},
            }
            i = i + 1;
        }
        assert(self.contents().take(n as int) =~= self.contents());
        out
    }

    /// Returns the transactions in the ready queue, in order.
    pub fn transactions(&self) -> (r: Vec<(Field, Vec<u8>)>)
        ensures
            r@.map_values(|p: (Field, Vec<u8>)| (p.0, p.1@)) == spec_transactions(self.contents()),
    {
        let n = transmission_map_len(&self.transmissions);
        let mut out: Vec<(Field, Vec<u8>)> = Vec::new();
        let mut i: usize = 0;
        while i < n
            invariant
                n == self.contents().len(),
                i <= n,
                out@.map_values(|p: (Field, Vec<u8>)| (p.0, p.1@)) == spec_transactions(self.contents().take(i as int)),
            decreases n - i,
        {
            let (id, t) = transmission_map_get_index(&self.transmissions, i);
            let ghost before = out@;
            proof {
                assert(self.contents().take(i + 1).drop_last() =~= self.contents().take(i as int));
            }
            match (id, t) {
                (TransmissionID::Transaction(tid, _), Transmission::Transaction(bytes)) => {
                    out.push((*tid, crate::types::copy_bytes(bytes)));
                    assert(out@.map_values(|p: (Field, Vec<u8>)| (p.0, p.1@)) =~= before.map_values(|p: (Field, Vec<u8>)| (p.0, p.1@)).push((*tid, bytes@)));
                },
                _ => {},
            }
            i = i + 1;
        }
        assert(self.contents().take(n as int) =~= self.contents());
        out
    }

    /// Returns `true` if the ready queue contains the specified transmission ID.
    pub fn contains(&self, transmission_id: TransmissionID) -> (r: bool)
        ensures
            r == has_transmission(self.contents(), transmission_id),
    {
        transmission_map_contains_key(&self.transmissions, &transmission_id)
    }

    /// Returns the transmission, given the specified transmission ID.
    pub fn get(&self, transmission_id: TransmissionID) -> (r: Option<Transmission>)
        requires
            self.wf(),
        ensures
            match r {
                Some(t) => spec_lookup(self.contents(), transmission_id) == Some(t@),
                None => spec_lookup(self.contents(), transmission_id) is None,
            },
    {
        match transmission_map_get(&self.transmissions, &transmission_id) {
            Some(t) => {
                proof {
                    let i = choose|i: int| 0 <= i < self.contents().len() && self.contents()[i].0 == transmission_id && self.contents()[i].1 == t@;
                    lemma_index_lookup(self.contents(), i);
                }
                Some(t.duplicate())
            },
            None => None,
        }
    }

    /// Inserts the transmission under its ID. Returns `true` if the ID is new, and was added
    /// to the ready queue; a held ID keeps its position and takes the new transmission.
    pub fn insert(&mut self, transmission_id: TransmissionID, transmission: Transmission) -> (r: bool)
        requires
            old(self).wf(),
        ensures
            final(self).wf(),
            r == !has_transmission(old(self).contents(), transmission_id),
            final(self).contents() == spec_insert_entry(old(self).contents(), transmission_id, transmission@),
    {
        let ghost s0 = self.contents();
        let ghost v = transmission@;
        let previous = transmission_map_insert(&mut self.transmissions, transmission_id, transmission);
        proof {
            let s1 = self.contents();
            match &previous {
                Some(o) => {
                    let i = choose|i: int| 0 <= i < s0.len() && s0[i].0 == transmission_id && s0[i].1 == o@ && s1 == s0.update(i, (transmission_id, v));
                    lemma_index_lookup(s0, i);
                    assert(keys_distinct(s1)) by {
                        assert forall|a: int, b: int| 0 <= a < s1.len() && 0 <= b < s1.len() && a != b implies s1[a].0 != s1[b].0 by {
                            assert(s1[a].0 == s0[a].0 && s1[b].0 == s0[b].0);
                        }
                    }
                },
                None => {
                    assert(keys_distinct(s1)) by {
                        assert forall|a: int, b: int| 0 <= a < s1.len() && 0 <= b < s1.len() && a != b implies s1[a].0 != s1[b].0 by {
                            if a == s0.len() {
                                assert(s1[b] == s0[b]);
                            } else if b == s0.len() {
                                assert(s1[a] == s0[a]);
                            } else {
                                assert(s1[a] == s0[a] && s1[b] == s0[b]);
                            }
                        }
                    }
                },
            }
        }
        previous.is_none()
    }

    /// Removes up to the specified number of transmissions from the front and returns them, in order.
    pub fn drain(&mut self, num_transmissions: usize) -> (r: Vec<(TransmissionID, Transmission)>)
        requires
            old(self).wf(),
        ensures
            final(self).wf(),
            ({
                let n = if num_transmissions < old(self).contents().len() { num_transmissions as int } else { old(self).contents().len() as int };
                &&& r@.len() == n
                &&& forall|i: int| 0 <= i < n ==> (#[trigger] r@[i]).0 == old(self).contents()[i].0 && r@[i].1@ == old(self).contents()[i].1
                &&& final(self).contents() == old(self).contents().skip(n)
            }),
    {
        let len = transmission_map_len(&self.transmissions);
        let n = if num_transmissions < len { num_transmissions } else { len };
        let ghost s0 = self.contents();
        let r = transmission_map_drain_front(&mut self.transmissions, n);
        proof {
            let s1 = self.contents();
            assert(keys_distinct(s1)) by {
                assert forall|a: int, b: int| 0 <= a < s1.len() && 0 <= b < s1.len() && a != b implies s1[a].0 != s1[b].0 by {
                    assert(s1[a] == s0[a + n] && s1[b] == s0[b + n]);
                }
            }
        }
        r
    }

    /// Clears all solutions from the ready queue, keeping the other transmissions in order.
    pub fn clear_solutions(&mut self)
        requires
            old(self).wf(),
        ensures
            final(self).wf(),
            final(self).contents() == old(self).contents().filter(|e: (TransmissionID, TransmissionData)| !(e.0 is Solution)),
    {
        let ghost s0 = self.contents();
        transmission_map_retain_non_solutions(&mut self.transmissions);
        proof {
            let f = |e: (TransmissionID, TransmissionData)| !(e.0 is Solution);
            lemma_filter_keys_distinct(s0, f);
        }
    }
}

/// Filtering keeps keys distinct.
proof fn lemma_filter_keys_distinct(
    s: Seq<(TransmissionID, TransmissionData)>,
    f: spec_fn((TransmissionID, TransmissionData)) -> bool,
)
    requires
        keys_distinct(s),
    ensures
        keys_distinct(s.filter(f)),
        forall|e: (TransmissionID, TransmissionData)| s.filter(f).contains(e) ==> s.contains(e),
    decreases s.len(),
{
    reveal(Seq::filter);
    if s.len() > 0 {
        let t = s.drop_last();
        assert(keys_distinct(t)) by {
            assert forall|a: int, b: int| 0 <= a < t.len() && 0 <= b < t.len() && a != b implies t[a].0 != t[b].0 by {
                assert(t[a] == s[a] && t[b] == s[b]);
            }
        }
        lemma_filter_keys_distinct(t, f);
        let ft = t.filter(f);
        if f(s.last()) {
            let fs = ft.push(s.last());
            assert(s.filter(f) == fs);
            assert forall|a: int, b: int| 0 <= a < fs.len() && 0 <= b < fs.len() && a != b implies fs[a].0 != fs[b].0 by {
                if a == ft.len() || b == ft.len() {
                    let other = if a == ft.len() { b } else { a };
                    assert(ft.contains(fs[other]));
                    assert(t.contains(fs[other]));
                    let j = choose|j: int| 0 <= j < t.len() && t[j] == fs[other];
                    assert(s[j] == t[j]);
                    assert(s[j].0 != s[s.len() - 1].0);
                } else {
                    assert(fs[a] == ft[a] && fs[b] == ft[b]);
                }
            }
            assert forall|e: (TransmissionID, TransmissionData)| s.filter(f).contains(e) implies s.contains(e) by {
                let j = choose|j: int| 0 <= j < fs.len() && fs[j] == e;
                if j == ft.len() {
                    assert(s[s.len() - 1] == e);
                } else {
                    assert(fs[j] == ft[j]);
                    assert(ft.contains(e));
                    assert(t.filter(f).contains(e));
                    assert(t.contains(e));
                    let k = choose|k: int| 0 <= k < t.len() && t[k] == e;
                    assert(s[k] == e);
                }
            }
        } else {
            assert(s.filter(f) == ft);
            assert forall|e: (TransmissionID, TransmissionData)| s.filter(f).contains(e) implies s.contains(e) by {
                assert(t.filter(f).contains(e));
                assert(t.contains(e));
                let k = choose|k: int| 0 <= k < t.len() && t[k] == e;
                assert(s[k] == e);
            }
        }
    }
}

/// Inserting a transmission makes it what the ready queue holds for its ID; an ID that was
/// already held keeps its place, so the queue does not grow; a new ID goes to the back.
pub proof fn law_insert_then_lookup(s: Seq<(TransmissionID, TransmissionData)>, k: TransmissionID, v: TransmissionData)
    requires
        keys_distinct(s),
    ensures
        keys_distinct(spec_insert_entry(s, k, v)),
        spec_lookup(spec_insert_entry(s, k, v), k) == Some(v),
        has_transmission(s, k) ==> spec_insert_entry(s, k, v).len() == s.len(),
        !has_transmission(s, k) ==> spec_insert_entry(s, k, v) == s.push((k, v)),
        forall|j: TransmissionID| j != k ==> spec_lookup(spec_insert_entry(s, k, v), j) == spec_lookup(s, j),
{
    let t = spec_insert_entry(s, k, v);
    if has_transmission(s, k) {
        let i = index_of(s, k);
        assert(t == s.update(i, (k, v)));
        assert(keys_distinct(t)) by {
            assert forall|a: int, b: int| 0 <= a < t.len() && 0 <= b < t.len() && a != b implies t[a].0 != t[b].0 by {
                assert(t[a].0 == s[a].0 && t[b].0 == s[b].0);
            }
        }
        assert(t[i] == (k, v));
        lemma_index_lookup(t, i);
        assert forall|j: TransmissionID| j != k implies spec_lookup(t, j) == spec_lookup(s, j) by {
            if has_transmission(s, j) {
                let q = index_of(s, j);
                assert(t[q] == s[q]);
                lemma_index_lookup(t, q);
            }
            if has_transmission(t, j) {
                let q = index_of(t, j);
                assert(t[q] == s[q]);
                lemma_index_lookup(s, q);
            }
        }
    } else {
        assert(keys_distinct(t)) by {
            assert forall|a: int, b: int| 0 <= a < t.len() && 0 <= b < t.len() && a != b implies t[a].0 != t[b].0 by {
                if a == s.len() {
                    assert(t[b] == s[b]);
                } else if b == s.len() {
                    assert(t[a] == s[a]);
                } else {
                    assert(t[a] == s[a] && t[b] == s[b]);
                }
            }
        }
        assert(t[s.len() as int] == (k, v));
        lemma_index_lookup(t, s.len() as int);
        assert forall|j: TransmissionID| j != k implies spec_lookup(t, j) == spec_lookup(s, j) by {
            if has_transmission(s, j) {
                let q = index_of(s, j);
                assert(t[q] == s[q]);
                lemma_index_lookup(t, q);
            }
            if has_transmission(t, j) {
                let q = index_of(t, j);
                if q < s.len() {
                    assert(t[q] == s[q]);
                    lemma_index_lookup(s, q);
                }
            }
        }
    }
}

} // verus!
