//! The insertion-ordered collections of the `indexmap` crate that hold transmissions and
//! signatures, with the contracts their source shows.
//!
//! The keys are `TransmissionID` and `Signature`, whose `Hash` and `Eq` are derived and
//! compare the fields; the contracts below rest on that.
use vstd::prelude::*;
use indexmap::{IndexMap, IndexSet};
use crate::types::{Signature, Transmission, TransmissionData, TransmissionID};

verus! {

#[verifier::external_type_specification]
#[verifier::external_body]
#[verifier::reject_recursive_types(K)]
#[verifier::reject_recursive_types(V)]
#[verifier::reject_recursive_types(S)]
pub struct ExIndexMap<K, V, S>(IndexMap<K, V, S>);

#[verifier::external_type_specification]
#[verifier::external_body]
#[verifier::reject_recursive_types(T)]
#[verifier::reject_recursive_types(S)]
pub struct ExIndexSet<T, S>(IndexSet<T, S>);

/// The entries of a map of transmissions, in their order in the map.
pub uninterp spec fn transmissions_in(m: IndexMap<TransmissionID, Transmission>) -> Seq<(TransmissionID, TransmissionData)>;

/// The signatures of a set of signatures, in their order in the set.
pub uninterp spec fn signatures_in(s: IndexSet<Signature>) -> Seq<Signature>;

/// `true` if the key occurs among the entries.
pub open spec fn has_transmission(s: Seq<(TransmissionID, TransmissionData)>, k: TransmissionID) -> bool {
    exists|i: int| 0 <= i < s.len() && s[i].0 == k
}

/// Calls `IndexMap::new`: the map is empty.
#[verifier::external_body]
pub(crate) fn transmission_map_new() -> (r: IndexMap<TransmissionID, Transmission>)
    ensures
        transmissions_in(r) == Seq::<(TransmissionID, TransmissionData)>::empty(),
{
    IndexMap::new()
}

/// Calls `IndexMap::len`: the number of entries.
#[verifier::external_body]
pub(crate) fn transmission_map_len(m: &IndexMap<TransmissionID, Transmission>) -> (r: usize)
    ensures
        r == transmissions_in(*m).len(),
{
    m.len()
}

/// Calls `IndexMap::contains_key`: `true` if an entry has the key.
#[verifier::external_body]
pub(crate) fn transmission_map_contains_key(m: &IndexMap<TransmissionID, Transmission>, k: &TransmissionID) -> (r: bool)
    ensures
        r == has_transmission(transmissions_in(*m), *k),
{
    m.contains_key(k)
}

/// Calls `IndexMap::get_index`: the entry at the position.
#[verifier::external_body]
pub(crate) fn transmission_map_get_index(m: &IndexMap<TransmissionID, Transmission>, i: usize) -> (r: (&TransmissionID, &Transmission))
    requires
        i < transmissions_in(*m).len(),
    ensures
        *r.0 == transmissions_in(*m)[i as int].0,
        r.1@ == transmissions_in(*m)[i as int].1,
{
    m.get_index(i).unwrap()
}

/// Calls `IndexMap::get`: the value of the entry with the key, if there is one.
#[verifier::external_body]
pub(crate) fn transmission_map_get<'a>(m: &'a IndexMap<TransmissionID, Transmission>, k: &TransmissionID) -> (r: Option<&'a Transmission>)
    ensures
        match r {
            Some(v) => exists|i: int|
                0 <= i < transmissions_in(*m).len() && transmissions_in(*m)[i].0 == *k
                    && transmissions_in(*m)[i].1 == v@,
            None => !has_transmission(transmissions_in(*m), *k),
        },
{
    m.get(k)
}

/// Calls `IndexMap::insert`: an entry with the key keeps its position and takes the new
/// value, and the old value is returned; otherwise the entry is appended and `None` is returned.
#[verifier::external_body]
pub(crate) fn transmission_map_insert(m: &mut IndexMap<TransmissionID, Transmission>, k: TransmissionID, v: Transmission) -> (r: Option<Transmission>)
    ensures
        match r {
            Some(o) => exists|i: int|
                0 <= i < transmissions_in(*old(m)).len() && transmissions_in(*old(m))[i].0 == k
                    && transmissions_in(*old(m))[i].1 == o@
                    && transmissions_in(*final(m)) == transmissions_in(*old(m)).update(i, (k, v@)),
            None => !has_transmission(transmissions_in(*old(m)), k)
                && transmissions_in(*final(m)) == transmissions_in(*old(m)).push((k, v@)),
        },
{
    m.insert(k, v)
}

/// Calls `IndexMap::drain` on the first `n` entries: they are removed and returned in order,
/// and the remaining entries keep their order.
#[verifier::external_body]
pub(crate) fn transmission_map_drain_front(m: &mut IndexMap<TransmissionID, Transmission>, n: usize) -> (r: Vec<(TransmissionID, Transmission)>)
    requires
        n <= transmissions_in(*old(m)).len(),
    ensures
        r@.len() == n,
        forall|i: int| 0 <= i < n ==> (#[trigger] r@[i]).0 == transmissions_in(*old(m))[i].0
            && r@[i].1@ == transmissions_in(*old(m))[i].1,
        transmissions_in(*final(m)) == transmissions_in(*old(m)).skip(n as int),
{
    m.drain(0..n).collect()
}

/// Calls `IndexMap::retain` to keep the entries that are not solutions, in order.
#[verifier::external_body]
pub(crate) fn transmission_map_retain_non_solutions(m: &mut IndexMap<TransmissionID, Transmission>)
    ensures
        transmissions_in(*final(m)) == transmissions_in(*old(m)).filter(
            |e: (TransmissionID, TransmissionData)| !(e.0 is Solution),
        ),
{
    m.retain(|id, _| !id.is_solution())
}

/// Calls `IndexSet::new`: the set is empty.
#[verifier::external_body]
pub(crate) fn signature_set_new() -> (r: IndexSet<Signature>)
    ensures
        signatures_in(r) == Seq::<Signature>::empty(),
{
    IndexSet::new()
}

/// Calls `IndexSet::len`: the number of signatures.
#[verifier::external_body]
pub(crate) fn signature_set_len(s: &IndexSet<Signature>) -> (r: usize)
    ensures
        r == signatures_in(*s).len(),
{
    s.len()
}

/// Calls `IndexSet::get_index`: the signature at the position.
#[verifier::external_body]
pub(crate) fn signature_set_get_index(s: &IndexSet<Signature>, i: usize) -> (r: Signature)
    requires
        i < signatures_in(*s).len(),
    ensures
        r == signatures_in(*s)[i as int],
{
    *s.get_index(i).unwrap()
}

/// Calls `IndexSet::insert`: a new signature is appended and `true` is returned; a present
/// one leaves the set as it was and `false` is returned.
#[verifier::external_body]
pub(crate) fn signature_set_insert(s: &mut IndexSet<Signature>, sig: Signature) -> (r: bool)
    ensures
        r == !signatures_in(*old(s)).contains(sig),
        r ==> signatures_in(*final(s)) == signatures_in(*old(s)).push(sig),
        !r ==> signatures_in(*final(s)) == signatures_in(*old(s)),
{
    s.insert(sig)
}

} // verus!
