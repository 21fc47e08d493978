//! The round cache: the highest round seen from each validator, and the highest round
//! that a stake-weighted quorum of validators has moved past.
use vstd::prelude::*;
use crate::assoc::{has_key, index_of, key_set, keys_distinct, lemma_index_lookup, lemma_key_set_len, seq_to_map};
use crate::committee::{
    lemma_stake_in_bounds, lemma_stake_in_empty, spec_is_member, Committee,
};
use crate::types::Address;

use vstd::string::StringExecFns;

verus! {

/// The addresses are strictly increasing.
pub open spec fn sorted_addresses(ar: Seq<(Address, u64)>) -> bool {
    forall|i: int, j: int| 0 <= i < j < ar.len() ==> ar[i].0 < ar[j].0
}

/// The rounds are strictly increasing.
pub open spec fn sorted_rounds(hr: Seq<(u64, Seq<Address>)>) -> bool {
    forall|i: int, j: int| 0 <= i < j < hr.len() ==> hr[i].0 < hr[j].0
}

/// Every group is non-empty and holds no address twice.
pub open spec fn groups_ok(hr: Seq<(u64, Seq<Address>)>) -> bool {
    forall|i: int| 0 <= i < hr.len() ==> (#[trigger] hr[i]).1.len() > 0 && hr[i].1.no_duplicates()
}

/// The entry `(a, r)` occurs in the address list.
pub open spec fn pair_in(ar: Seq<(Address, u64)>, a: Address, r: u64) -> bool {
    exists|j: int| 0 <= j < ar.len() && ar[j].0 == a && ar[j].1 == r
}

/// The address occurs in the group of round `r`.
pub open spec fn in_group(hr: Seq<(u64, Seq<Address>)>, a: Address, r: u64) -> bool {
    exists|i: int| 0 <= i < hr.len() && hr[i].0 == r && hr[i].1.contains(a)
}

/// Each address of a group is listed with the group's round, and each listed address is in the group of its round.
pub open spec fn groups_match(ar: Seq<(Address, u64)>, hr: Seq<(u64, Seq<Address>)>) -> bool {
    &&& forall|i: int, k: int|
        0 <= i < hr.len() && 0 <= k < hr[i].1.len() ==> pair_in(ar, #[trigger] hr[i].1[k], hr[i].0)
    &&& forall|j: int| 0 <= j < ar.len() ==> in_group(hr, (#[trigger] ar[j]).0, ar[j].1)
}

/// The number of addresses over all groups.
pub open spec fn group_total(hr: Seq<(u64, Seq<Address>)>) -> int
    decreases hr.len(),
{
    if hr.len() == 0 {
        0
    } else {
        group_total(hr.drop_last()) + hr.last().1.len()
    }
}

/// The validators whose highest seen round is above `l`.
pub open spec fn spec_support(m: Map<Address, u64>, l: int) -> Set<Address> {
    m.dom().filter(|a: Address| m[a] > l)
}

/// The round that quorum has reached, starting from `l`, over the highest rounds `m`:
/// the first `r >= l` at which the validators above `r` no longer reach quorum.
pub open spec fn spec_is_quorum_round(c: Committee, m: Map<Address, u64>, l: int, r: int) -> bool {
    &&& l <= r
    &&& !c.spec_is_quorum(spec_support(m, r))
    &&& forall|x: int| l <= x < r ==> c.spec_is_quorum(#[trigger] spec_support(m, x))
}

/// The addresses of the map that are members of the committee.
pub open spec fn spec_members_only(c: Committee, m: Map<Address, u64>) -> Map<Address, u64> {
    m.restrict(m.dom().filter(|a: Address| spec_is_member(c.spec_members(), a)))
}

proof fn lemma_group_total_update(hr: Seq<(u64, Seq<Address>)>, i: int, g: (u64, Seq<Address>))
    requires
        0 <= i < hr.len(),
    ensures
        group_total(hr.update(i, g)) == group_total(hr) - hr[i].1.len() + g.1.len(),
    decreases hr.len(),
{
    if i < hr.len() - 1 {
        assert(hr.update(i, g).drop_last() =~= hr.drop_last().update(i, g));
        lemma_group_total_update(hr.drop_last(), i, g);
    } else {
        assert(hr.update(i, g).drop_last() =~= hr.drop_last());
    }
}

proof fn lemma_group_total_insert(hr: Seq<(u64, Seq<Address>)>, i: int, g: (u64, Seq<Address>))
    requires
        0 <= i <= hr.len(),
    ensures
        group_total(hr.insert(i, g)) == group_total(hr) + g.1.len(),
    decreases hr.len(),
{
    if i < hr.len() {
        assert(hr.insert(i, g).drop_last() =~= hr.drop_last().insert(i, g));
        lemma_group_total_insert(hr.drop_last(), i, g);
    } else {
        assert(hr.insert(i, g).drop_last() =~= hr);
    }
}

proof fn lemma_group_total_remove(hr: Seq<(u64, Seq<Address>)>, i: int)
    requires
        0 <= i < hr.len(),
    ensures
        group_total(hr.remove(i)) == group_total(hr) - hr[i].1.len(),
    decreases hr.len(),
{
    if i < hr.len() - 1 {
        assert(hr.remove(i).drop_last() =~= hr.drop_last().remove(i));
        lemma_group_total_remove(hr.drop_last(), i);
    } else {
        assert(hr.remove(i) =~= hr.drop_last());
    }
}

/// Sorted addresses are distinct keys.
proof fn lemma_sorted_distinct(ar: Seq<(Address, u64)>)
    requires
        sorted_addresses(ar),
    ensures
        keys_distinct(ar),
{
    assert forall|i: int, j: int| 0 <= i < ar.len() && 0 <= j < ar.len() && i != j implies ar[i].0 != ar[j].0 by {
        if i < j {
            assert(ar[i].0 < ar[j].0);
        } else {
            assert(ar[j].0 < ar[i].0);
        }
    }
}

/// In a list with distinct addresses, `pair_in` is the map's entry.
proof fn lemma_pair_in_map(ar: Seq<(Address, u64)>, a: Address, r: u64)
    requires
        keys_distinct(ar),
    ensures
        pair_in(ar, a, r) <==> (seq_to_map(ar).contains_key(a) && seq_to_map(ar)[a] == r),
{
    if pair_in(ar, a, r) {
        let j = choose|j: int| 0 <= j < ar.len() && ar[j].0 == a && ar[j].1 == r;
        lemma_index_lookup(ar, j);
    }
    if seq_to_map(ar).contains_key(a) && seq_to_map(ar)[a] == r {
        let j = index_of(ar, a);
        assert(has_key(ar, a));
        assert(ar[j].0 == a);
        lemma_index_lookup(ar, j);
    }
}

/// A count of distinct members is at most the committee size.
proof fn lemma_members_bound(c: Committee, ar: Seq<(Address, u64)>)
    requires
        c.wf(),
        keys_distinct(ar),
        forall|j: int| 0 <= j < ar.len() ==> spec_is_member(c.spec_members(), #[trigger] ar[j].0),
    ensures
        ar.len() <= c.spec_members().len(),
{
    let ms = c.spec_members();
    let keys = ar.map_values(|p: (Address, u64)| p.0);
    let addrs = ms.map_values(|p: (Address, u64)| p.0);
    assert(keys.no_duplicates()) by {
        assert forall|i: int, j: int| 0 <= i < keys.len() && 0 <= j < keys.len() && i != j implies keys[i] != keys[j] by {
            assert(keys[i] == ar[i].0 && keys[j] == ar[j].0);
        }
    }
    assert(keys.to_set().subset_of(addrs.to_set())) by {
        assert forall|a: Address| keys.to_set().contains(a) implies addrs.to_set().contains(a) by {
            let j = choose|j: int| 0 <= j < keys.len() && keys[j] == a;
            assert(spec_is_member(ms, ar[j].0));
            let i = choose|i: int| 0 <= i < ms.len() && ms[i].0 == a;
            assert(addrs[i] == a);
        }
    }
    keys.unique_seq_to_set();
    addrs.lemma_cardinality_of_set();
    vstd::set_lib::lemma_len_subset(keys.to_set(), addrs.to_set());
}

/// Inserting `(v, round)` into the address list adds exactly that entry.
proof fn lemma_pair_in_insert(ar0: Seq<(Address, u64)>, pos: int, v: Address, round: u64)
    requires
        0 <= pos <= ar0.len(),
    ensures
        forall|a: Address, r: u64|
            #[trigger] pair_in(ar0.insert(pos, (v, round)), a, r) <==> (pair_in(ar0, a, r) || (a == v && r == round)),
{
    let ar1 = ar0.insert(pos, (v, round));
    assert forall|a: Address, r: u64|
        #[trigger] pair_in(ar1, a, r) <==> (pair_in(ar0, a, r) || (a == v && r == round)) by {
        if pair_in(ar1, a, r) {
            let j = choose|j: int| 0 <= j < ar1.len() && ar1[j].0 == a && ar1[j].1 == r;
            if j < pos {
                assert(ar0[j] == ar1[j]);
            } else if j > pos {
                assert(ar0[j - 1] == ar1[j]);
            }
        }
        if pair_in(ar0, a, r) {
            let j = choose|j: int| 0 <= j < ar0.len() && ar0[j].0 == a && ar0[j].1 == r;
            let j1 = if j < pos { j } else { j + 1 };
            assert(ar1[j1] == ar0[j]);
        }
        if a == v && r == round {
            assert(ar1[pos] == (v, round));
        }
    }
}

/// Groups that gain exactly the address `v` in round `round` (and nothing else) keep matching
/// an address list that gains exactly the entry `(v, round)`.
proof fn lemma_match_after_add(
    ar0: Seq<(Address, u64)>,
    hr0: Seq<(u64, Seq<Address>)>,
    ar1: Seq<(Address, u64)>,
    hr1: Seq<(u64, Seq<Address>)>,
    v: Address,
    round: u64,
)
    requires
        groups_match(ar0, hr0),
        forall|a: Address, r: u64| #[trigger] pair_in(ar1, a, r) <==> (pair_in(ar0, a, r) || (a == v && r == round)),
        forall|i: int, k: int|
            0 <= i < hr1.len() && 0 <= k < hr1[i].1.len() ==> (#[trigger] hr1[i].1[k] == v && hr1[i].0 == round)
                || in_group(hr0, hr1[i].1[k], hr1[i].0),
        forall|a: Address, r: u64| #[trigger] in_group(hr0, a, r) ==> in_group(hr1, a, r),
        in_group(hr1, v, round),
        forall|j: int| 0 <= j < ar1.len() ==> pair_in(ar0, (#[trigger] ar1[j]).0, ar1[j].1) || (ar1[j].0 == v && ar1[j].1 == round),
    ensures
        groups_match(ar1, hr1),
{
    assert forall|i: int, k: int| 0 <= i < hr1.len() && 0 <= k < hr1[i].1.len() implies pair_in(ar1, #[trigger] hr1[i].1[k], hr1[i].0) by {
        let a = hr1[i].1[k];
        let r = hr1[i].0;
        if !(a == v && r == round) {
            assert(in_group(hr0, a, r));
            let i0 = choose|i0: int| 0 <= i0 < hr0.len() && hr0[i0].0 == r && hr0[i0].1.contains(a);
            let k0 = choose|k0: int| 0 <= k0 < hr0[i0].1.len() && hr0[i0].1[k0] == a;
            assert(pair_in(ar0, hr0[i0].1[k0], hr0[i0].0));
        }
        assert(pair_in(ar1, a, r));
    }
    assert forall|j: int| 0 <= j < ar1.len() implies in_group(hr1, (#[trigger] ar1[j]).0, ar1[j].1) by {
        let a = ar1[j].0;
        let r = ar1[j].1;
        if !(a == v && r == round) {
            assert(pair_in(ar0, a, r));
            let j0 = choose|j0: int| 0 <= j0 < ar0.len() && ar0[j0].0 == a && ar0[j0].1 == r;
            assert(in_group(hr0, ar0[j0].0, ar0[j0].1));
        }
    }
}

/// The position of the address in the group, if it occurs.
fn position_in_group(group: &Vec<Address>, v: Address) -> (r: Option<usize>)
    ensures
        match r {
            Some(k) => k < group@.len() && group@[k as int] == v,
            None => !group@.contains(v),
        },
{
    let mut k: usize = 0;
    while k < group.len()
        invariant
            k <= group@.len(),
            forall|x: int| 0 <= x < k ==> group@[x] != v,
        decreases group@.len() - k,
    {
        if group[k] == v {
            return Some(k);
        }
        k = k + 1;
    }
    None
}

/// The round cache.
#[derive(Debug)]
pub struct RoundCache {
    /// The current highest round which has (stake-weighted) quorum.
    last_highest_round_with_quorum: u64,
    /// The groups of validators by their highest seen round, in increasing round order.
    highest_rounds: Vec<(u64, Vec<Address>)>,
    /// The highest seen round of each validator, in increasing address order.
    address_rounds: Vec<(Address, u64)>,
}

/// The reasons an update of the round cache is refused.
#[derive(Clone, Copy, Debug, PartialEq, Eq, Structural)]
pub enum RoundCacheError {
    /// The address is not a member of the committee.
    NotCommitteeMember,
}

impl RoundCache {
    /// The address list.
    pub closed spec fn ar(&self) -> Seq<(Address, u64)> {
        self.address_rounds@
    }

    /// The groups, with their addresses as sequences.
    pub closed spec fn hr(&self) -> Seq<(u64, Seq<Address>)> {
        self.highest_rounds@.map_values(|p: (u64, Vec<Address>)| (p.0, p.1@))
    }

    /// The highest round seen from each cached validator.
    pub closed spec fn rounds(&self) -> Map<Address, u64> {
        seq_to_map(self.address_rounds@)
    }

    /// The highest round that has reached quorum.
    pub closed spec fn last(&self) -> u64 {
        self.last_highest_round_with_quorum
    }

    /// The groups and the address list agree.
    pub closed spec fn wf(&self) -> bool {
        &&& sorted_addresses(self.ar())
        &&& sorted_rounds(self.hr())
        &&& groups_ok(self.hr())
        &&& groups_match(self.ar(), self.hr())
        &&& group_total(self.hr()) == self.ar().len()
    }

    /// The cached rounds form a finite map whose size is the number of cached validators.
    pub proof fn lemma_rounds(&self)
        requires
            self.wf(),
        ensures
            self.rounds().dom().finite(),
            self.rounds().len() == self.ar().len(),
    {
        lemma_sorted_distinct(self.ar());
        lemma_key_set_len(self.ar());
        assert(self.rounds().dom() =~= key_set(self.ar()));
    }

    /// Initializes a new instance of the cache.
    pub fn new() -> (r: Self)
        ensures
            r.wf(),
            r.last() == 0,
            r.rounds() == Map::<Address, u64>::empty(),
    {
        let r = RoundCache {
            last_highest_round_with_quorum: 0,
            highest_rounds: Vec::new(),
            address_rounds: Vec::new(),
        };
        assert(r.hr() =~= Seq::<(u64, Seq<Address>)>::empty());
        assert(r.rounds() =~= Map::<Address, u64>::empty());
        r
    }

    /// Returns the highest round which has reached quorum.
    pub fn last_highest_round(&self) -> (r: u64)
        ensures
            r == self.last(),
    {
        self.last_highest_round_with_quorum
    }

    /// The position of the address in the address list, or where it would be inserted.
    fn search_address(&self, a: Address) -> (r: Result<usize, usize>)
        requires
            sorted_addresses(self.ar()),
        ensures
            match r {
                Ok(i) => i < self.ar().len() && self.ar()[i as int].0 == a,
                Err(i) => i <= self.ar().len() && (forall|j: int| 0 <= j < i ==> self.ar()[j].0 < a)
                    && (forall|j: int| i <= j < self.ar().len() ==> self.ar()[j].0 > a),
            },
    {
        let mut lo: usize = 0;
        let mut hi: usize = self.address_rounds.len();
        while lo < hi
            invariant
                sorted_addresses(self.ar()),
                lo <= hi <= self.ar().len(),
                forall|j: int| 0 <= j < lo ==> self.ar()[j].0 < a,
                forall|j: int| hi <= j < self.ar().len() ==> self.ar()[j].0 > a,
            decreases hi - lo,
        {
            let mid = lo + (hi - lo) / 2;
            let x = self.address_rounds[mid].0;
            if x == a {
                return Ok(mid);
            } else if x < a {
                lo = mid + 1;
            } else {
                hi = mid;
            }
        }
        Err(lo)
    }

    /// The position of the round's group, or where it would be inserted.
    fn search_round(&self, round: u64) -> (r: Result<usize, usize>)
        requires
            sorted_rounds(self.hr()),
        ensures
            match r {
                Ok(i) => i < self.hr().len() && self.hr()[i as int].0 == round,
                Err(i) => i <= self.hr().len() && (forall|j: int| 0 <= j < i ==> self.hr()[j].0 < round)
                    && (forall|j: int| i <= j < self.hr().len() ==> self.hr()[j].0 > round),
            },
    {
        let mut lo: usize = 0;
        let mut hi: usize = self.highest_rounds.len();
        while lo < hi
            invariant
                sorted_rounds(self.hr()),
                self.hr().len() == self.highest_rounds@.len(),
                lo <= hi <= self.hr().len(),
                forall|j: int| 0 <= j < lo ==> self.hr()[j].0 < round,
                forall|j: int| hi <= j < self.hr().len() ==> self.hr()[j].0 > round,
            decreases hi - lo,
        {
            let mid = lo + (hi - lo) / 2;
            let x = self.highest_rounds[mid].0;
            assert(x == self.hr()[mid as int].0);
            if x == round {
                return Ok(mid);
            } else if x < round {
                lo = mid + 1;
            } else {
                hi = mid;
            }
        }
        Err(lo)
    }

    /// Caches the validator at the round; the validator must not be cached yet.
    #[verifier::spinoff_prover]
    #[verifier::rlimit(50)]
    fn add_validator(&mut self, v: Address, round: u64)
        requires
            old(self).wf(),
            !old(self).rounds().contains_key(v),
        ensures
            final(self).wf(),
            final(self).rounds() == old(self).rounds().insert(v, round),
            final(self).last() == old(self).last(),
    {
        let ghost ar0 = self.ar();
        let ghost hr0 = self.hr();
        proof {
            lemma_sorted_distinct(ar0);
        }
        // Insert into the address list.
        let pos = match self.search_address(v) {
            Ok(i) => {
                proof {
                    lemma_index_lookup(ar0, i as int);
                }
                i
            },
            Err(i) => i,
        };
        self.address_rounds.insert(pos, (v, round));
        let ghost ar1 = self.ar();
        assert(ar1 =~= ar0.insert(pos as int, (v, round)));
        assert(sorted_addresses(ar1)) by {
            assert forall|i: int, j: int| 0 <= i < j < ar1.len() implies ar1[i].0 < ar1[j].0 by {
                if i < pos && j < pos {
                } else if i < pos && j == pos {
                } else if i < pos {
                    assert(ar1[j] == ar0[j - 1]);
                } else if i == pos {
                    assert(ar1[j] == ar0[j - 1]);
                } else {
                    assert(ar1[i] == ar0[i - 1] && ar1[j] == ar0[j - 1]);
                }
            }
        }
        // Insert into the groups.
        proof {
            lemma_pair_in_insert(ar0, pos as int, v, round);
            // The validator was in no group before.
            assert forall|i: int| 0 <= i < hr0.len() implies !hr0[i].1.contains(v) by {
                if hr0[i].1.contains(v) {
                    let k = choose|k: int| 0 <= k < hr0[i].1.len() && hr0[i].1[k] == v;
                    assert(pair_in(ar0, hr0[i].1[k], hr0[i].0));
                    let j = choose|j: int| 0 <= j < ar0.len() && ar0[j].0 == v && ar0[j].1 == hr0[i].0;
                    lemma_index_lookup(ar0, j);
                }
            }
            assert forall|j: int| 0 <= j < ar1.len() implies pair_in(ar0, (#[trigger] ar1[j]).0, ar1[j].1) || (ar1[j].0 == v && ar1[j].1 == round) by {
                if j < pos {
                    assert(ar1[j] == ar0[j]);
                } else if j > pos {
                    assert(ar1[j] == ar0[j - 1]);
                }
            }
        }
        match self.search_round(round) {
            Ok(gi) => {
                let (r, mut group) = self.highest_rounds.remove(gi);
                let ghost g0 = group@;
                group.push(v);
                self.highest_rounds.insert(gi, (r, group));
                proof {
                    let hr1 = self.hr();
                    let g1 = g0.push(v);
                    assert(hr1 =~= hr0.update(gi as int, (round, g1)));
                    lemma_group_total_update(hr0, gi as int, (round, g1));
                    assert(g0 == hr0[gi as int].1);
                    assert(sorted_rounds(hr1)) by {
                        assert forall|i: int, j: int| 0 <= i < j < hr1.len() implies hr1[i].0 < hr1[j].0 by {
                            assert(hr1[i].0 == hr0[i].0 && hr1[j].0 == hr0[j].0);
                        }
                    }
                    assert(groups_ok(hr1)) by {
                        assert forall|i: int| 0 <= i < hr1.len() implies (#[trigger] hr1[i]).1.len() > 0
                            && hr1[i].1.no_duplicates() by {
                            if i == gi {
                                assert forall|x: int, y: int| 0 <= x < g1.len() && 0 <= y < g1.len() && x != y implies g1[x] != g1[y] by {
                                    if x == g0.len() {
                                        assert(g1[y] == g0[y]);
                                    } else if y == g0.len() {
                                        assert(g1[x] == g0[x]);
                                    } else {
                                        assert(g1[x] == g0[x] && g1[y] == g0[y]);
                                    }
                                }
                            } else {
                                assert(hr1[i] == hr0[i]);
                            }
                        }
                    }
                    assert forall|i: int, k: int|
                        0 <= i < hr1.len() && 0 <= k < hr1[i].1.len() implies (#[trigger] hr1[i].1[k] == v && hr1[i].0 == round)
                            || in_group(hr0, hr1[i].1[k], hr1[i].0) by {
                        if i == gi {
                            if k < g0.len() {
                                assert(hr1[i].1[k] == hr0[i].1[k]);
                                assert(hr0[i].1.contains(hr0[i].1[k]));
                            }
                        } else {
                            assert(hr1[i] == hr0[i]);
                            assert(hr0[i].1.contains(hr0[i].1[k]));
                        }
                    }
                    assert forall|a: Address, r: u64| #[trigger] in_group(hr0, a, r) implies in_group(hr1, a, r) by {
                        let i0 = choose|i0: int| 0 <= i0 < hr0.len() && hr0[i0].0 == r && hr0[i0].1.contains(a);
                        let k0 = choose|k0: int| 0 <= k0 < hr0[i0].1.len() && hr0[i0].1[k0] == a;
                        if i0 == gi {
                            assert(g1[k0] == a);
                            assert(hr1[i0].1.contains(a));
                        } else {
                            assert(hr1[i0] == hr0[i0]);
                        }
                    }
                    assert(g1[g0.len() as int] == v);
                    assert(hr1[gi as int].1.contains(v));
                    assert(in_group(hr1, v, round));
                    lemma_match_after_add(ar0, hr0, ar1, hr1, v, round);
                }
            },
            Err(gi) => {
                let mut group: Vec<Address> = Vec::new();
                group.push(v);
                self.highest_rounds.insert(gi, (round, group));
                proof {
                    let hr1 = self.hr();
                    assert(hr1 =~= hr0.insert(gi as int, (round, seq![v])));
                    lemma_group_total_insert(hr0, gi as int, (round, seq![v]));
                    assert(sorted_rounds(hr1)) by {
                        assert forall|i: int, j: int| 0 <= i < j < hr1.len() implies hr1[i].0 < hr1[j].0 by {
                            if i < gi && j < gi {
                                assert(hr1[i] == hr0[i] && hr1[j] == hr0[j]);
                            } else if i < gi && j == gi {
                                assert(hr1[i] == hr0[i]);
                            } else if i < gi {
                                assert(hr1[i] == hr0[i] && hr1[j] == hr0[j - 1]);
                            } else if i == gi {
                                assert(hr1[j] == hr0[j - 1]);
                            } else {
                                assert(hr1[i] == hr0[i - 1] && hr1[j] == hr0[j - 1]);
                            }
                        }
                    }
                    assert(groups_ok(hr1)) by {
                        assert forall|i: int| 0 <= i < hr1.len() implies (#[trigger] hr1[i]).1.len() > 0
                            && hr1[i].1.no_duplicates() by {
                            if i < gi {
                                assert(hr1[i] == hr0[i]);
                            } else if i > gi {
                                assert(hr1[i] == hr0[i - 1]);
                            }
                        }
                    }
                    assert forall|i: int, k: int|
                        0 <= i < hr1.len() && 0 <= k < hr1[i].1.len() implies (#[trigger] hr1[i].1[k] == v && hr1[i].0 == round)
                            || in_group(hr0, hr1[i].1[k], hr1[i].0) by {
                        if i < gi {
                            assert(hr1[i] == hr0[i]);
                            assert(hr0[i].1.contains(hr0[i].1[k]));
                        } else if i > gi {
                            assert(hr1[i] == hr0[i - 1]);
                            assert(hr0[i - 1].1.contains(hr0[i - 1].1[k]));
                        }
                    }
                    assert forall|a: Address, r: u64| #[trigger] in_group(hr0, a, r) implies in_group(hr1, a, r) by {
                        let i0 = choose|i0: int| 0 <= i0 < hr0.len() && hr0[i0].0 == r && hr0[i0].1.contains(a);
                        let i1 = if i0 < gi { i0 } else { i0 + 1 };
                        assert(hr1[i1] == hr0[i0]);
                    }
                    assert(hr1[gi as int].1.contains(v)) by {
                        assert(hr1[gi as int].1[0] == v);
                    }
                    lemma_match_after_add(ar0, hr0, ar1, hr1, v, round);
                }
            },
        }
        proof {
            lemma_sorted_distinct(ar1);
            assert forall|x: Address| #[trigger] seq_to_map(ar1).contains_key(x) <==> seq_to_map(ar0).insert(v, round).contains_key(x) by {
                if has_key(ar1, x) {
                    let j = choose|j: int| 0 <= j < ar1.len() && ar1[j].0 == x;
                    if j != pos {
                        let j0 = if j < pos { j } else { j - 1 };
                        assert(ar0[j0].0 == x);
                    }
                }
                if has_key(ar0, x) {
                    let j = choose|j: int| 0 <= j < ar0.len() && ar0[j].0 == x;
                    let j1 = if j < pos { j } else { j + 1 };
                    assert(ar1[j1].0 == x);
                }
                if x == v {
                    assert(ar1[pos as int].0 == x);
                }
            }
            assert forall|x: Address| #[trigger] seq_to_map(ar1).contains_key(x) implies seq_to_map(ar1)[x] == seq_to_map(ar0).insert(v, round)[x] by {
                let j = choose|j: int| 0 <= j < ar1.len() && ar1[j].0 == x;
                lemma_index_lookup(ar1, j);
                if j != pos {
                    let j0 = if j < pos { j } else { j - 1 };
                    assert(ar1[j] == ar0[j0]);
                    lemma_index_lookup(ar0, j0);
                }
            }
            assert(seq_to_map(ar1) =~= seq_to_map(ar0).insert(v, round));
        }
    }

    /// Removes a cached validator.
    #[verifier::spinoff_prover]
    #[verifier::rlimit(50)]
    fn remove_validator(&mut self, v: Address)
        requires
            old(self).wf(),
            old(self).rounds().contains_key(v),
        ensures
            final(self).wf(),
            final(self).rounds() == old(self).rounds().remove(v),
            final(self).last() == old(self).last(),
    {
        let ghost ar0 = self.ar();
        let ghost hr0 = self.hr();
        proof {
            lemma_sorted_distinct(ar0);
        }
        let pos = match self.search_address(v) {
            Ok(i) => i,
            Err(i) => {
                proof {
                    let j = index_of(ar0, v);
                    assert(has_key(ar0, v));
                    assert(ar0[j].0 == v);
                    assert(j < i || j >= i);
                }
                return;
            },
        };
        let (_, round) = self.address_rounds.remove(pos);
        let ghost ar1 = self.ar();
        assert(ar1 =~= ar0.remove(pos as int));
        proof {
            assert(in_group(hr0, ar0[pos as int].0, ar0[pos as int].1));
        }
        let gi = match self.search_round(round) {
            Ok(gi) => gi,
            Err(gi) => {
                proof {
                    let i0 = choose|i0: int| 0 <= i0 < hr0.len() && hr0[i0].0 == round && hr0[i0].1.contains(v);
                    assert(i0 < gi || i0 >= gi);
                }
                return;
            },
        };
        let (r, mut group) = self.highest_rounds.remove(gi);
        let ghost g0 = group@;
        proof {
            let i0 = choose|i0: int| 0 <= i0 < hr0.len() && hr0[i0].0 == round && hr0[i0].1.contains(v);
            if i0 != gi {
                if i0 < gi {
                    assert(hr0[i0].0 < hr0[gi as int].0);
                } else {
                    assert(hr0[gi as int].0 < hr0[i0].0);
                }
            }
            assert(g0 == hr0[gi as int].1);
            assert(g0.contains(v));
        }
        // Find the validator in its group.
        let k = match position_in_group(&group, v) {
            Some(k) => k,
            None => {
                return;
            },
        };
        group.remove(k);
        let ghost g1 = group@;
        assert(g1 =~= g0.remove(k as int));
        if group.len() == 0 {
            proof {
                assert(self.hr() =~= hr0.remove(gi as int));
                lemma_group_total_remove(hr0, gi as int);
            }
        } else {
            self.highest_rounds.insert(gi, (r, group));
            proof {
                assert(self.hr() =~= hr0.update(gi as int, (r, g1)));
                lemma_group_total_update(hr0, gi as int, (r, g1));
            }
        }
        proof {
            let hr1 = self.hr();
            assert(sorted_addresses(ar1)) by {
                assert forall|i: int, j: int| 0 <= i < j < ar1.len() implies ar1[i].0 < ar1[j].0 by {
                    let i0 = if i < pos { i } else { i + 1 };
                    let j0 = if j < pos { j } else { j + 1 };
                    assert(ar1[i] == ar0[i0] && ar1[j] == ar0[j0]);
                }
            }
            assert(sorted_rounds(hr1)) by {
                assert forall|i: int, j: int| 0 <= i < j < hr1.len() implies hr1[i].0 < hr1[j].0 by {
                    if g1.len() == 0 {
                        let i0 = if i < gi { i } else { i + 1 };
                        let j0 = if j < gi { j } else { j + 1 };
                        assert(hr1[i] == hr0[i0] && hr1[j] == hr0[j0]);
                    } else {
                        assert(hr1[i].0 == hr0[i].0 && hr1[j].0 == hr0[j].0);
                    }
                }
            }
            assert(g1.no_duplicates()) by {
                assert forall|x: int, y: int| 0 <= x < g1.len() && 0 <= y < g1.len() && x != y implies g1[x] != g1[y] by {
                    let x0 = if x < k { x } else { x + 1 };
                    let y0 = if y < k { y } else { y + 1 };
                    assert(g1[x] == g0[x0] && g1[y] == g0[y0]);
                }
            }
            assert(!g1.contains(v)) by {
                if g1.contains(v) {
                    let x = choose|x: int| 0 <= x < g1.len() && g1[x] == v;
                    let x0 = if x < k { x } else { x + 1 };
                    assert(g0[x0] == v && g0[k as int] == v);
                }
            }
            assert(groups_ok(hr1)) by {
                assert forall|i: int| 0 <= i < hr1.len() implies (#[trigger] hr1[i]).1.len() > 0
                    && hr1[i].1.no_duplicates() by {
                    if g1.len() == 0 {
                        let i0 = if i < gi { i } else { i + 1 };
                        assert(hr1[i] == hr0[i0]);
                    } else if i != gi {
                        assert(hr1[i] == hr0[i]);
                    }
                }
            }
            // Each grouped address is still listed.
            assert forall|i: int, kk: int|
                0 <= i < hr1.len() && 0 <= kk < hr1[i].1.len() implies pair_in(ar1, #[trigger] hr1[i].1[kk], hr1[i].0) by {
                let a = hr1[i].1[kk];
                let i0 = if g1.len() == 0 && i >= gi { i + 1 } else { i };
                let k0 = if i0 == gi && kk >= k { kk + 1 } else { kk };
                assert(hr0[i0].0 == hr1[i].0);
                assert(hr0[i0].1[k0] == a);
                assert(pair_in(ar0, hr0[i0].1[k0], hr0[i0].0));
                let j = choose|j: int| 0 <= j < ar0.len() && ar0[j].0 == a && ar0[j].1 == hr0[i0].0;
                if j == pos {
                    // `a` would be `v`, which was in the group of `round` only.
                    assert(a == v);
                    if i0 == gi {
                        assert(g1.contains(v));
                    } else {
                        assert(hr0[i0].0 == round);
                        if i0 < gi {
                            assert(hr0[i0].0 < hr0[gi as int].0);
                        } else {
                            assert(hr0[gi as int].0 < hr0[i0].0);
                        }
                    }
                }
                let j1 = if j < pos { j } else { j - 1 };
                assert(ar1[j1] == ar0[j]);
            }
            // Each listed address is still grouped.
            assert forall|j: int| 0 <= j < ar1.len() implies in_group(hr1, (#[trigger] ar1[j]).0, ar1[j].1) by {
                let j0 = if j < pos { j } else { j + 1 };
                assert(ar1[j] == ar0[j0]);
                assert(ar0[j0].0 != v);
                assert(in_group(hr0, ar0[j0].0, ar0[j0].1));
                let i0 = choose|i0: int| 0 <= i0 < hr0.len() && hr0[i0].0 == ar0[j0].1 && hr0[i0].1.contains(ar0[j0].0);
                let a = ar0[j0].0;
                let kk = choose|kk: int| 0 <= kk < hr0[i0].1.len() && hr0[i0].1[kk] == a;
                if i0 == gi {
                    assert(kk != k);
                    let k1 = if kk < k { kk } else { kk - 1 };
                    assert(g1[k1] == a);
                    assert(g1.len() > 0);
                    assert(hr1[gi as int].1.contains(a));
                } else {
                    let i1 = if g1.len() == 0 && i0 > gi { i0 - 1 } else { i0 };
                    assert(hr1[i1] == hr0[i0]);
                    assert(hr1[i1].1.contains(a));
                }
            }
            lemma_sorted_distinct(ar1);
            assert forall|x: Address| #[trigger] seq_to_map(ar1).contains_key(x) <==> seq_to_map(ar0).remove(v).contains_key(x) by {
                if has_key(ar1, x) {
                    let j = choose|j: int| 0 <= j < ar1.len() && ar1[j].0 == x;
                    let j0 = if j < pos { j } else { j + 1 };
                    assert(ar0[j0].0 == x);
                    assert(j0 != pos);
                }
                if has_key(ar0, x) && x != v {
                    let j = choose|j: int| 0 <= j < ar0.len() && ar0[j].0 == x;
                    assert(j != pos);
                    let j1 = if j < pos { j } else { j - 1 };
                    assert(ar1[j1].0 == x);
                }
            }
            assert forall|x: Address| #[trigger] seq_to_map(ar1).contains_key(x) implies seq_to_map(ar1)[x] == seq_to_map(ar0).remove(v)[x] by {
                let j = choose|j: int| 0 <= j < ar1.len() && ar1[j].0 == x;
                lemma_index_lookup(ar1, j);
                let j0 = if j < pos { j } else { j + 1 };
                assert(ar1[j] == ar0[j0]);
                lemma_index_lookup(ar0, j0);
            }
            assert(seq_to_map(ar1) =~= seq_to_map(ar0).remove(v));
        }
    }

    /// Removes the cached validators which are not members of the committee.
    #[verifier::spinoff_prover]
    #[verifier::rlimit(50)]
    fn prune_stale_validators(&mut self, committee: &Committee)
        requires
            old(self).wf(),
        ensures
            final(self).wf(),
            final(self).rounds() == spec_members_only(*committee, old(self).rounds()),
            final(self).last() == old(self).last(),
    {
        let ghost m0 = self.rounds();
        let ghost ar0 = self.ar();
        // Collect the addresses to prune.
        let mut to_prune: Vec<Address> = Vec::new();
        let mut i: usize = 0;
        proof {
            lemma_sorted_distinct(ar0);
        }
        while i < self.address_rounds.len()
            invariant
                ar0 == self.ar(),
                i <= ar0.len(),
                keys_distinct(ar0),
                m0 == seq_to_map(ar0),
                forall|x: int| 0 <= x < to_prune@.len() ==> m0.contains_key(#[trigger] to_prune@[x]) && !spec_is_member(committee.spec_members(), to_prune@[x]),
                forall|j: int| 0 <= j < i && !spec_is_member(committee.spec_members(), ar0[j].0) ==> to_prune@.contains(#[trigger] ar0[j].0),
                to_prune@.no_duplicates(),
                forall|x: int| 0 <= x < to_prune@.len() ==> exists|j: int| 0 <= j < i && ar0[j].0 == #[trigger] to_prune@[x],
            decreases ar0.len() - i,
        {
            let a = self.address_rounds[i].0;
            proof {
                lemma_index_lookup(ar0, i as int);
            }
            if !committee.is_committee_member(a) {
                let ghost before = to_prune@;
                proof {
                    assert(!before.contains(a)) by {
                        if before.contains(a) {
                            let x = choose|x: int| 0 <= x < before.len() && before[x] == a;
                            let j = choose|j: int| 0 <= j < i && ar0[j].0 == before[x];
                            assert(ar0[j].0 == ar0[i as int].0);
                        }
                    }
                }
                to_prune.push(a);
                proof {
                    assert(to_prune@ == before.push(a));
                    assert forall|j: int| 0 <= j < i + 1 && !spec_is_member(committee.spec_members(), ar0[j].0) implies to_prune@.contains(#[trigger] ar0[j].0) by {
                        if j == i {
                            assert(to_prune@[before.len() as int] == a);
                        } else {
                            let x = choose|x: int| 0 <= x < before.len() && before[x] == ar0[j].0;
                            assert(to_prune@[x] == before[x]);
                        }
                    }
                    assert forall|x: int| 0 <= x < to_prune@.len() implies exists|j: int| 0 <= j < i + 1 && ar0[j].0 == #[trigger] to_prune@[x] by {
                        if x == before.len() {
                            assert(ar0[i as int].0 == to_prune@[x]);
                        } else {
                            assert(to_prune@[x] == before[x]);
                            let j = choose|j: int| 0 <= j < i && ar0[j].0 == before[x];
                        }
                    }
                }
            }
            i = i + 1;
        }
        let ghost pruned = to_prune@;
        // Remove them.
        let mut x: usize = 0;
        assert(m0.remove_keys(pruned.subrange(0, 0).to_set()) =~= m0);
        while x < to_prune.len()
            invariant
                self.wf(),
                to_prune@ == pruned,
                pruned.no_duplicates(),
                x <= pruned.len(),
                forall|y: int| 0 <= y < pruned.len() ==> m0.contains_key(#[trigger] pruned[y]),
                self.rounds() == m0.remove_keys(pruned.subrange(0, x as int).to_set()),
                self.last() == old(self).last(),
            decreases pruned.len() - x,
        {
            let a = to_prune[x];
            proof {
                assert(!pruned.subrange(0, x as int).to_set().contains(a)) by {
                    if pruned.subrange(0, x as int).to_set().contains(a) {
                        let y = choose|y: int| 0 <= y < x && pruned.subrange(0, x as int)[y] == a;
                        assert(pruned[y] == pruned[x as int]);
                    }
                }
                assert(m0.contains_key(pruned[x as int]));
            }
            self.remove_validator(a);
            proof {
                let s0 = pruned.subrange(0, x as int);
                let s1 = pruned.subrange(0, x + 1);
                assert(s1 =~= s0.push(a));
                assert(s1.to_set() =~= s0.to_set().insert(a)) by {
                    assert forall|b: Address| s1.to_set().contains(b) implies s0.to_set().insert(a).contains(b) by {
                        let y = choose|y: int| 0 <= y < s1.len() && s1[y] == b;
                        if y < s0.len() {
                            assert(s0[y] == b);
                        }
                    }
                    assert forall|b: Address| s0.to_set().insert(a).contains(b) implies s1.to_set().contains(b) by {
                        if b == a {
                            assert(s1[s0.len() as int] == a);
                        } else {
                            let y = choose|y: int| 0 <= y < s0.len() && s0[y] == b;
                            assert(s1[y] == b);
                        }
                    }
                }
                assert(self.rounds() =~= m0.remove_keys(s1.to_set()));
            }
            x = x + 1;
        }
        proof {
            assert(pruned.subrange(0, pruned.len() as int) =~= pruned);
            let target = spec_members_only(*committee, m0);
            assert forall|b: Address| #[trigger] self.rounds().contains_key(b) <==> target.contains_key(b) by {
                if m0.contains_key(b) && !spec_is_member(committee.spec_members(), b) {
                    assert(has_key(ar0, b));
                    let j = choose|j: int| 0 <= j < ar0.len() && ar0[j].0 == b;
                    assert(pruned.contains(ar0[j].0));
                    assert(pruned.to_set().contains(b));
                }
                if pruned.to_set().contains(b) {
                    let y = choose|y: int| 0 <= y < pruned.len() && pruned[y] == b;
                    assert(!spec_is_member(committee.spec_members(), pruned[y]));
                }
            }
            assert forall|b: Address| #[trigger] self.rounds().contains_key(b) implies self.rounds()[b] == target[b] by {}
            assert(self.rounds() =~= target);
        }
    }

    /// The validators whose highest seen round is above the given round.
    fn validators_above(&self, l: u64) -> (r: Vec<Address>)
        requires
            self.wf(),
        ensures
            r@.to_set() == spec_support(self.rounds(), l as int),
    {
        let ghost ar = self.ar();
        let ghost hr = self.hr();
        let ghost m = self.rounds();
        proof {
            lemma_sorted_distinct(ar);
        }
        let mut out: Vec<Address> = Vec::new();
        let mut i: usize = 0;
        while i < self.highest_rounds.len()
            invariant
                ar == self.ar(),
                hr == self.hr(),
                m == seq_to_map(ar),
                keys_distinct(ar),
                groups_match(ar, hr),
                hr.len() == self.highest_rounds@.len(),
                i <= hr.len(),
                forall|x: int| 0 <= x < out@.len() ==> spec_support(m, l as int).contains(#[trigger] out@[x]),
                forall|i0: int, k: int| 0 <= i0 < i && 0 <= k < hr[i0].1.len() && hr[i0].0 > l ==> out@.contains(#[trigger] hr[i0].1[k]),
            decreases hr.len() - i,
        {
            if self.highest_rounds[i].0 > l {
                let ghost before = out@;
                let group = &self.highest_rounds[i].1;
                assert(group@ == hr[i as int].1);
                let mut k: usize = 0;
                while k < group.len()
                    invariant
                        ar == self.ar(),
                        hr == self.hr(),
                        m == seq_to_map(ar),
                        keys_distinct(ar),
                        groups_match(ar, hr),
                        i < hr.len(),
                        hr[i as int].0 > l,
                        group@ == hr[i as int].1,
                        k <= group@.len(),
                        before.len() + k == out@.len(),
                        forall|x: int| 0 <= x < before.len() ==> out@[x] == before[x],
                        forall|x: int| 0 <= x < k ==> out@[before.len() + x] == group@[x],
                        forall|x: int| 0 <= x < before.len() ==> spec_support(m, l as int).contains(#[trigger] before[x]),
                        forall|x: int| 0 <= x < out@.len() ==> spec_support(m, l as int).contains(#[trigger] out@[x]),
                    decreases group@.len() - k,
                {
                    let a = group[k];
                    proof {
                        assert(pair_in(ar, hr[i as int].1[k as int], hr[i as int].0));
                        lemma_pair_in_map(ar, a, hr[i as int].0);
                    }
                    out.push(a);
                    k = k + 1;
                }
                proof {
                    assert forall|i0: int, kk: int| 0 <= i0 < i + 1 && 0 <= kk < hr[i0].1.len() && hr[i0].0 > l implies out@.contains(#[trigger] hr[i0].1[kk]) by {
                        if i0 == i {
                            assert(out@[before.len() + kk] == hr[i0].1[kk]);
                        } else {
                            assert(before.contains(hr[i0].1[kk]));
                            let x = choose|x: int| 0 <= x < before.len() && before[x] == hr[i0].1[kk];
                            assert(out@[x] == before[x]);
                        }
                    }
                }
            }
            i = i + 1;
        }
        proof {
            assert forall|a: Address| out@.to_set().contains(a) <==> spec_support(m, l as int).contains(a) by {
                if spec_support(m, l as int).contains(a) {
                    assert(has_key(ar, a));
                    let j = choose|j: int| 0 <= j < ar.len() && ar[j].0 == a;
                    lemma_index_lookup(ar, j);
                    assert(in_group(hr, ar[j].0, ar[j].1));
                    let i0 = choose|i0: int| 0 <= i0 < hr.len() && hr[i0].0 == ar[j].1 && hr[i0].1.contains(ar[j].0);
                    let kk = choose|kk: int| 0 <= kk < hr[i0].1.len() && hr[i0].1[kk] == a;
                    assert(out@.contains(hr[i0].1[kk]));
                }
                if out@.to_set().contains(a) {
                    let x = choose|x: int| 0 <= x < out@.len() && out@[x] == a;
                    assert(spec_support(m, l as int).contains(out@[x]));
                }
            }
            assert(out@.to_set() =~= spec_support(m, l as int));
        }
        out
    }

    /// Updates the cache with a `(round, address)` pair seen from a validator:
    /// - if the round is above the quorum round and above the validator's cached round, it is cached;
    /// - stale validators are pruned when more validators are cached than the committee has;
    /// - the quorum round advances while the validators above it reach quorum.
    /// Returns the quorum round.
    #[verifier::spinoff_prover]
    #[verifier::rlimit(50)]
    pub fn update(&mut self, round: u64, validator_address: Address, committee: &Committee) -> (r: Result<u64, RoundCacheError>)
        requires
            old(self).wf(),
            committee.wf(),
        ensures
            final(self).wf(),
            final(self).last() >= old(self).last(),
            !spec_is_member(committee.spec_members(), validator_address) ==> r == Err::<u64, RoundCacheError>(RoundCacheError::NotCommitteeMember)
                && *final(self) == *old(self),
            spec_is_member(committee.spec_members(), validator_address) ==> {
                let m0 = old(self).rounds();
                let l0 = old(self).last();
                let inserted = round > l0 && (!m0.contains_key(validator_address) || m0[validator_address] < round);
                let m1 = if inserted { m0.insert(validator_address, round) } else { m0 };
                let m2 = if round > l0 && m1.len() > committee.spec_members().len() {
                    spec_members_only(*committee, m1)
                } else {
                    m1
                };
                &&& r == Ok::<u64, RoundCacheError>(final(self).last())
                &&& final(self).rounds() == m2
                &&& (inserted ==> spec_is_quorum_round(*committee, m2, l0 as int, final(self).last() as int))
                &&& (!inserted ==> final(self).last() == l0)
            },
    {
        if !committee.is_committee_member(validator_address) {
            return Err(RoundCacheError::NotCommitteeMember);
        }
        let ghost m0 = self.rounds();
        let l0 = self.last_highest_round_with_quorum;
        let mut inserted = false;
        // Only consider updating if we see a high round.
        if round > self.last_highest_round_with_quorum {
            proof {
                lemma_sorted_distinct(self.ar());
            }
            match self.search_address(validator_address) {
                // We recognized the validator, so we may have to update it.
                Ok(i) => {
                    let old_round = self.address_rounds[i].1;
                    proof {
                        lemma_index_lookup(self.ar(), i as int);
                    }
                    if old_round < round {
                        inserted = true;
                        self.remove_validator(validator_address);
                        self.add_validator(validator_address, round);
                        proof {
                            assert(self.rounds() =~= m0.insert(validator_address, round));
                        }
                    }
                },
                // We did not recognize the validator, so we should add it.
                Err(_) => {
                    inserted = true;
                    self.add_validator(validator_address, round);
                },
            }
            // If we cached more validators than the current committee size, we should prune.
            proof {
                self.lemma_rounds();
            }
            if self.address_rounds.len() > committee.num_members() {
                self.prune_stale_validators(committee);
                proof {
                    self.lemma_rounds();
                    lemma_sorted_distinct(self.ar());
                    assert forall|j: int| 0 <= j < self.ar().len() implies spec_is_member(committee.spec_members(), #[trigger] self.ar()[j].0) by {
                        lemma_index_lookup(self.ar(), j);
                    }
                    lemma_members_bound(*committee, self.ar());
                }
            }
        }
        let ghost m2 = self.rounds();
        // Check if we reached quorum on a new round.
        if inserted {
            proof {
                self.lemma_rounds();
            }
            loop
                invariant
                    self.wf(),
                    committee.wf(),
                    self.rounds() == m2,
                    m2.dom().finite(),
                    l0 <= self.last(),
                    forall|x: int| l0 <= x < self.last() ==> committee.spec_is_quorum(#[trigger] spec_support(m2, x)),
                ensures
                    self.wf(),
                    self.rounds() == m2,
                    spec_is_quorum_round(*committee, m2, l0 as int, self.last() as int),
                decreases u64::MAX - self.last(),
            {
                let support = self.validators_above(self.last_highest_round_with_quorum);
                if !committee.is_quorum_threshold_reached(&support) {
                    break;
                }
                proof {
                    // Quorum needs a validator above the current round, so the round can grow.
                    let s = spec_support(m2, self.last() as int);
                    assert(committee.spec_is_quorum(s));
                    if !(exists|a: Address| s.contains(a)) {
                        assert(s =~= Set::<Address>::empty());
                        lemma_stake_in_empty(committee.spec_members());
                        lemma_stake_in_bounds(committee.spec_members(), s);
                        assert(false);
                    }
                    let a = choose|a: Address| s.contains(a);
                    assert(m2.contains_key(a) && m2[a] > self.last());
                }
                self.last_highest_round_with_quorum = self.last_highest_round_with_quorum + 1;
            }
        }
        Ok(self.last_highest_round_with_quorum)
    }
}

/// The text of the error.
pub open spec fn spec_round_cache_message(e: RoundCacheError) -> Seq<char> {
    match e {
        RoundCacheError::NotCommitteeMember => "Address is not a member of the committee"@,
    }
}

impl RoundCacheError {
    /// The error's message.
    pub fn message(&self) -> (r: String)
        ensures
            r@ == spec_round_cache_message(*self),
    {
        let mut s = String::new();
        match self {
            RoundCacheError::NotCommitteeMember => {
                s.append("Address is not a member of the committee");
            },
        }
        s
    }
}

} // verus!
