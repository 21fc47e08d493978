//! A committee of validators with their stake, and its stake-weighted thresholds.
use vstd::prelude::*;
use crate::types::Address;

use vstd::string::StringExecFns;

verus! {

/// The maximum committee size of the network, taken where no committee is known.
pub const MAX_COMMITTEE_SIZE: u16 = 100;

/// The total stake of the members.
pub open spec fn spec_total_stake(members: Seq<(Address, u64)>) -> int
    decreases members.len(),
{
    if members.len() == 0 {
        0
    } else {
        spec_total_stake(members.drop_last()) + members.last().1
    }
}

/// The stake of the members whose address is in the set.
pub open spec fn spec_stake_in(members: Seq<(Address, u64)>, set: Set<Address>) -> int
    decreases members.len(),
{
    if members.len() == 0 {
        0
    } else {
        spec_stake_in(members.drop_last(), set) + (if set.contains(members.last().0) {
            members.last().1 as int
        } else {
            0
        })
    }
}

/// `true` if the address is the address of a member.
pub open spec fn spec_is_member(members: Seq<(Address, u64)>, a: Address) -> bool {
    exists|i: int| 0 <= i < members.len() && members[i].0 == a
}

/// The stake of the member with the address, or 0.
pub open spec fn spec_stake_of(members: Seq<(Address, u64)>, a: Address) -> int
    decreases members.len(),
{
    if members.len() == 0 {
        0
    } else if members.last().0 == a {
        members.last().1 as int
    } else {
        spec_stake_of(members.drop_last(), a)
    }
}

/// `true` if no address occurs twice.
pub open spec fn spec_distinct_members(members: Seq<(Address, u64)>) -> bool {
    forall|i: int, j: int|
        0 <= i < members.len() && 0 <= j < members.len() && i != j ==> members[i].0 != members[j].0
}

/// The stake in any set is between zero and the total stake.
pub proof fn lemma_stake_in_bounds(members: Seq<(Address, u64)>, set: Set<Address>)
    ensures
        0 <= spec_stake_in(members, set) <= spec_total_stake(members),
    decreases members.len(),
{
    if members.len() > 0 {
        lemma_stake_in_bounds(members.drop_last(), set);
    }
}

/// The stake of two sets adds up to that of their union and their intersection.
pub proof fn lemma_stake_in_union_intersect(members: Seq<(Address, u64)>, a: Set<Address>, b: Set<Address>)
    ensures
        spec_stake_in(members, a) + spec_stake_in(members, b) == spec_stake_in(members, a.union(b))
            + spec_stake_in(members, a.intersect(b)),
    decreases members.len(),
{
    if members.len() > 0 {
        lemma_stake_in_union_intersect(members.drop_last(), a, b);
    }
}

/// Any two sets that each reach the quorum threshold of a committee share members holding
/// at least the availability threshold (`f + 1`), hence at least one honest member, where
/// twice the total stake fits in a `u64`.
pub proof fn law_quorums_intersect(committee: Committee, a: Set<Address>, b: Set<Address>)
    requires
        committee.wf(),
        2 * committee.total() <= u64::MAX,
        committee.spec_is_quorum(a),
        committee.spec_is_quorum(b),
    ensures
        committee.spec_is_available(a.intersect(b)),
{
    let m = committee.spec_members();
    let t = committee.total();
    lemma_stake_in_union_intersect(m, a, b);
    lemma_stake_in_bounds(m, a.union(b));
    let q = (2 * t) / 3 + 1;
    assert(committee.spec_quorum_threshold() == q);
    assert(spec_stake_in(m, a.intersect(b)) >= 2 * q - t);
    assert(2 * q - t >= (t + 2) / 3) by (nonlinear_arith)
        requires
            q == (2 * t) / 3 + 1,
            t >= 0,
    ;
}

/// The stake of a set only depends on which members it holds.
pub proof fn lemma_stake_in_ext(members: Seq<(Address, u64)>, s1: Set<Address>, s2: Set<Address>)
    requires
        forall|i: int| 0 <= i < members.len() ==> (s1.contains(members[i].0) <==> s2.contains(
            members[i].0,
        )),
    ensures
        spec_stake_in(members, s1) == spec_stake_in(members, s2),
    decreases members.len(),
{
    if members.len() > 0 {
        let t = members.drop_last();
        assert forall|i: int| 0 <= i < t.len() implies (s1.contains(t[i].0) <==> s2.contains(
            t[i].0,
        )) by {
            assert(t[i] == members[i]);
        }
        lemma_stake_in_ext(t, s1, s2);
        assert(s1.contains(members.last().0) <==> s2.contains(members[members.len() - 1].0));
    }
}

/// A larger set has at least as much stake.
pub proof fn lemma_stake_in_monotone(members: Seq<(Address, u64)>, s1: Set<Address>, s2: Set<Address>)
    requires
        s1.subset_of(s2),
    ensures
        spec_stake_in(members, s1) <= spec_stake_in(members, s2),
    decreases members.len(),
{
    if members.len() > 0 {
        lemma_stake_in_monotone(members.drop_last(), s1, s2);
    }
}

/// The stake of the empty set is zero.
pub proof fn lemma_stake_in_empty(members: Seq<(Address, u64)>)
    ensures
        spec_stake_in(members, Set::<Address>::empty()) == 0,
    decreases members.len(),
{
    if members.len() > 0 {
        lemma_stake_in_empty(members.drop_last());
    }
}

/// The stake of a single address is its stake as a member.
pub proof fn lemma_stake_in_singleton(members: Seq<(Address, u64)>, a: Address)
    requires
        spec_distinct_members(members),
    ensures
        spec_stake_in(members, set![a]) == spec_stake_of(members, a),
    decreases members.len(),
{
    if members.len() > 0 {
        let t = members.drop_last();
        assert(spec_distinct_members(t)) by {
            assert forall|i: int, j: int| 0 <= i < t.len() && 0 <= j < t.len() && i != j implies t[i].0 != t[j].0 by {
                assert(t[i] == members[i] && t[j] == members[j]);
            }
        }
        lemma_stake_in_singleton(t, a);
        if members.last().0 == a {
            assert forall|i: int| 0 <= i < t.len() implies !set![a].contains(t[i].0) by {
                assert(t[i] == members[i]);
                assert(members[i].0 != members[members.len() - 1].0);
            }
            lemma_stake_in_ext(t, set![a], Set::empty());
            lemma_stake_in_empty(t);
        }
    }
}

/// `spec_stake_of` is zero for non-members.
pub proof fn lemma_stake_of_non_member(members: Seq<(Address, u64)>, a: Address)
    requires
        !spec_is_member(members, a),
    ensures
        spec_stake_of(members, a) == 0,
    decreases members.len(),
{
    if members.len() > 0 {
        let t = members.drop_last();
        assert(!spec_is_member(t, a)) by {
            if spec_is_member(t, a) {
                let i = choose|i: int| 0 <= i < t.len() && t[i].0 == a;
                assert(members[i].0 == a);
            }
        }
        assert(members[members.len() - 1].0 != a);
        lemma_stake_of_non_member(t, a);
    }
}

/// A committee of validators: the round it starts at, and each member's address and stake.
#[derive(Clone, Debug)]
pub struct Committee {
    starting_round: u64,
    members: Vec<(Address, u64)>,
}

/// The reasons a committee cannot be formed.
#[derive(Clone, Copy, Debug, PartialEq, Eq, Structural)]
pub enum CommitteeError {
    /// No members were given.
    Empty,
    /// More members than a `u16` counts were given.
    TooManyMembers,
    /// An address was given twice.
    DuplicateMember,
    /// The total stake does not fit in a `u64`.
    StakeOverflow,
}

impl Committee {
    /// The members, in order.
    pub closed spec fn spec_members(&self) -> Seq<(Address, u64)> {
        self.members@
    }

    /// The round the committee starts at.
    pub closed spec fn spec_starting_round(&self) -> u64 {
        self.starting_round
    }

    /// The members are distinct, at least one and at most `u16::MAX`, and their stake fits in a `u64`.
    pub closed spec fn wf(&self) -> bool {
        &&& spec_distinct_members(self.members@)
        &&& spec_total_stake(self.members@) <= u64::MAX
        &&& 0 < self.members@.len() <= u16::MAX
    }

    /// The total stake.
    pub open spec fn total(&self) -> int {
        spec_total_stake(self.spec_members())
    }

    /// The stake required to reach the quorum threshold (`2f + 1`).
    pub open spec fn spec_quorum_threshold(&self) -> int {
        (if 2 * self.total() > u64::MAX { u64::MAX as int } else { 2 * self.total() }) / 3 + 1
    }

    /// The stake required to reach the availability threshold (`f + 1`).
    pub open spec fn spec_availability_threshold(&self) -> int {
        (if self.total() + 2 > u64::MAX { u64::MAX as int } else { self.total() + 2 }) / 3
    }

    /// `true` if the addresses in the set hold at least the quorum threshold.
    pub open spec fn spec_is_quorum(&self, set: Set<Address>) -> bool {
        spec_stake_in(self.spec_members(), set) >= self.spec_quorum_threshold()
    }

    /// `true` if the addresses in the set hold at least the availability threshold.
    pub open spec fn spec_is_available(&self, set: Set<Address>) -> bool {
        spec_stake_in(self.spec_members(), set) >= self.spec_availability_threshold()
    }

    /// The facts that well-formedness gives.
    pub proof fn lemma_wf(&self)
        requires
            self.wf(),
        ensures
            spec_distinct_members(self.spec_members()),
            self.total() <= u64::MAX,
            0 < self.spec_members().len() <= u16::MAX,
    {
    }

    /// Forms a committee from its starting round and members.
    pub fn new(starting_round: u64, members: Vec<(Address, u64)>) -> (r: Result<Committee, CommitteeError>)
        ensures
            match r {
                Ok(c) => c.wf() && c.spec_members() == members@ && c.spec_starting_round()
                    == starting_round,
                Err(e) => e == (if members@.len() == 0 {
                    CommitteeError::Empty
                } else if members@.len() > u16::MAX {
                    CommitteeError::TooManyMembers
                } else if !spec_distinct_members(members@) {
                    CommitteeError::DuplicateMember
                } else {
                    CommitteeError::StakeOverflow
                }),
            },
            r is Ok <==> (0 < members@.len() <= u16::MAX && spec_distinct_members(members@)
                && spec_total_stake(members@) <= u64::MAX),
    {
        if members.len() == 0 {
            return Err(CommitteeError::Empty);
        }
        if members.len() > u16::MAX as usize {
            return Err(CommitteeError::TooManyMembers);
        }
        let mut i: usize = 0;
        while i < members.len()
            invariant
                0 < members@.len() <= u16::MAX,
                i <= members@.len(),
                forall|a: int, b: int| 0 <= a < i && 0 <= b < members@.len() && a != b ==> members@[a].0 != members@[b].0,
            decreases members@.len() - i,
        {
            let mut j: usize = 0;
            while j < members.len()
                invariant
                    0 < members@.len() <= u16::MAX,
                    i < members@.len(),
                    j <= members@.len(),
                    forall|b: int| 0 <= b < j && b != i ==> members@[i as int].0 != members@[b].0,
                decreases members@.len() - j,
            {
                if j != i && members[i].0 == members[j].0 {
                    proof {
                        assert(members@[i as int].0 == members@[j as int].0);
                        assert(!spec_distinct_members(members@));
                    }
                    return Err(CommitteeError::DuplicateMember);
                }
                j = j + 1;
            }
            i = i + 1;
        }
        let mut total: u64 = 0;
        let mut k: usize = 0;
        while k < members.len()
            invariant
                0 < members@.len() <= u16::MAX,
                spec_distinct_members(members@),
                k <= members@.len(),
                total == spec_total_stake(members@.subrange(0, k as int)),
            decreases members@.len() - k,
        {
            assert(members@.subrange(0, k + 1).drop_last() =~= members@.subrange(0, k as int));
            match total.checked_add(members[k].1) {
                Some(t) => total = t,
                None => {
                    proof {
                        assert(spec_total_stake(members@.subrange(0, k + 1)) > u64::MAX);
                        lemma_total_prefix_monotone(members@, k + 1, members@.len() as int);
                        assert(members@.subrange(0, members@.len() as int) =~= members@);
                    }
                    return Err(CommitteeError::StakeOverflow);
                },
            }
            k = k + 1;
        }
        assert(members@.subrange(0, members@.len() as int) =~= members@);
        Ok(Committee { starting_round, members })
    }

    /// The round the committee starts at.
    pub fn starting_round(&self) -> (r: u64)
        ensures
            r == self.spec_starting_round(),
    {
        self.starting_round
    }

    /// The number of members.
    pub fn num_members(&self) -> (r: usize)
        ensures
            r == self.spec_members().len(),
    {
        self.members.len()
    }

    /// The members, in order.
    pub fn members(&self) -> (r: &Vec<(Address, u64)>)
        ensures
            r@ == self.spec_members(),
    {
        &self.members
    }

    /// `true` if the address is a member's.
    pub fn is_committee_member(&self, address: Address) -> (r: bool)
        ensures
            r == spec_is_member(self.spec_members(), address),
    {
        let mut i: usize = 0;
        while i < self.members.len()
            invariant
                i <= self.members@.len(),
                forall|j: int| 0 <= j < i ==> self.members@[j].0 != address,
            decreases self.members@.len() - i,
        {
            if self.members[i].0 == address {
                return true;
            }
            i = i + 1;
        }
        false
    }

    /// The stake of the member with the address, or 0.
    pub fn get_stake(&self, address: Address) -> (r: u64)
        requires
            self.wf(),
        ensures
            r == spec_stake_of(self.spec_members(), address),
    {
        let mut i: usize = self.members.len();
        assert(self.members@.subrange(0, i as int) =~= self.members@);
        while i > 0
            invariant
                i <= self.members@.len(),
                spec_distinct_members(self.members@),
                spec_stake_of(self.members@, address) == spec_stake_of(self.members@.subrange(0, i as int), address),
            decreases i,
        {
            assert(self.members@.subrange(0, i as int).drop_last() =~= self.members@.subrange(0, i - 1));
            if self.members[i - 1].0 == address {
                return self.members[i - 1].1;
            }
            i = i - 1;
        }
        0
    }

    /// The total stake.
    pub fn total_stake(&self) -> (r: u64)
        requires
            self.wf(),
        ensures
            r == self.total(),
    {
        let mut total: u64 = 0;
        let mut k: usize = 0;
        while k < self.members.len()
            invariant
                k <= self.members@.len(),
                spec_total_stake(self.members@) <= u64::MAX,
                total == spec_total_stake(self.members@.subrange(0, k as int)),
            decreases self.members@.len() - k,
        {
            assert(self.members@.subrange(0, k + 1).drop_last() =~= self.members@.subrange(0, k as int));
            proof {
                lemma_total_prefix_monotone(self.members@, k + 1, self.members@.len() as int);
                assert(self.members@.subrange(0, self.members@.len() as int) =~= self.members@);
            }
            total = total + self.members[k].1;
            k = k + 1;
        }
        assert(self.members@.subrange(0, self.members@.len() as int) =~= self.members@);
        total
    }

    /// The stake required to reach the quorum threshold (`2f + 1`).
    pub fn quorum_threshold(&self) -> (r: u64)
        requires
            self.wf(),
        ensures
            r == self.spec_quorum_threshold(),
    {
        let t = self.total_stake();
        let doubled: u64 = if t > u64::MAX / 2 { u64::MAX } else { t * 2 };
        doubled / 3 + 1
    }

    /// The stake required to reach the availability threshold (`f + 1`).
    pub fn availability_threshold(&self) -> (r: u64)
        requires
            self.wf(),
        ensures
            r == self.spec_availability_threshold(),
    {
        let t = self.total_stake();
        let shifted: u64 = if t > u64::MAX - 2 { u64::MAX } else { t + 2 };
        shifted / 3
    }

    /// The stake of the members whose address is in the given list.
    pub fn stake_of_addresses(&self, addresses: &Vec<Address>) -> (r: u64)
        requires
            self.wf(),
        ensures
            r == spec_stake_in(self.spec_members(), addresses@.to_set()),
    {
        let ghost set = addresses@.to_set();
        let mut stake: u64 = 0;
        let mut k: usize = 0;
        while k < self.members.len()
            invariant
                k <= self.members@.len(),
                spec_total_stake(self.members@) <= u64::MAX,
                set == addresses@.to_set(),
                stake == spec_stake_in(self.members@.subrange(0, k as int), set),
            decreases self.members@.len() - k,
        {
            assert(self.members@.subrange(0, k + 1).drop_last() =~= self.members@.subrange(0, k as int));
            proof {
                lemma_stake_in_bounds(self.members@.subrange(0, k + 1), set);
                lemma_total_prefix_monotone(self.members@, k + 1, self.members@.len() as int);
                assert(self.members@.subrange(0, self.members@.len() as int) =~= self.members@);
            }
            if crate::types::contains_address(addresses, self.members[k].0) {
                stake = stake + self.members[k].1;
            }
            k = k + 1;
        }
        assert(self.members@.subrange(0, self.members@.len() as int) =~= self.members@);
        stake
    }

    /// `true` if the given addresses hold at least the quorum threshold.
    pub fn is_quorum_threshold_reached(&self, addresses: &Vec<Address>) -> (r: bool)
        requires
            self.wf(),
        ensures
            r == self.spec_is_quorum(addresses@.to_set()),
    {
        self.stake_of_addresses(addresses) >= self.quorum_threshold()
    }

    /// `true` if the given addresses hold at least the availability threshold.
    pub fn is_availability_threshold_reached(&self, addresses: &Vec<Address>) -> (r: bool)
        requires
            self.wf(),
        ensures
            r == self.spec_is_available(addresses@.to_set()),
    {
        self.stake_of_addresses(addresses) >= self.availability_threshold()
    }
}

/// The total stake of a prefix is at most the total stake of a longer prefix.
pub proof fn lemma_total_prefix_monotone(members: Seq<(Address, u64)>, a: int, b: int)
    requires
        0 <= a <= b <= members.len(),
    ensures
        spec_total_stake(members.subrange(0, a)) <= spec_total_stake(members.subrange(0, b)),
    decreases b - a,
{
    if a < b {
        lemma_total_prefix_monotone(members, a, b - 1);
        assert(members.subrange(0, b).drop_last() =~= members.subrange(0, b - 1));
    }
}

/// The text of the error.
pub open spec fn spec_committee_message(e: CommitteeError) -> Seq<char> {
    match e {
        CommitteeError::Empty => "The committee has no members"@,
        CommitteeError::TooManyMembers => "The committee has too many members"@,
        CommitteeError::DuplicateMember => "The committee lists a member twice"@,
        CommitteeError::StakeOverflow => "The total stake of the committee overflows"@,
    }
}

impl CommitteeError {
    /// The error's message.
    pub fn message(&self) -> (r: String)
        ensures
            r@ == spec_committee_message(*self),
    {
        let mut s = String::new();
        match self {
            CommitteeError::Empty => {
                s.append("The committee has no members");
            },
            CommitteeError::TooManyMembers => {
                s.append("The committee has too many members");
            },
            CommitteeError::DuplicateMember => {
                s.append("The committee lists a member twice");
            },
            CommitteeError::StakeOverflow => {
                s.append("The total stake of the committee overflows");
            },
        }
        s
    }
}

} // verus!
