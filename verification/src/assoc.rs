//! A small verified association list: a map held as a vector of entries with distinct keys.
use vstd::prelude::*;

verus! {

/// Keys whose executable equality agrees with spec equality.
pub trait KeyEq: Copy {
    fn key_eq(&self, other: &Self) -> (r: bool)
        ensures
            r == (*self == *other),
    ;
}

impl KeyEq for u64 {
    fn key_eq(&self, other: &Self) -> (r: bool) {
        *self == *other
    }
}

impl KeyEq for u128 {
    fn key_eq(&self, other: &Self) -> (r: bool) {
        *self == *other
    }
}

impl KeyEq for u32 {
    fn key_eq(&self, other: &Self) -> (r: bool) {
        *self == *other
    }
}

impl KeyEq for i64 {
    fn key_eq(&self, other: &Self) -> (r: bool) {
        *self == *other
    }
}

/// `true` if no key occurs twice in the entries.
pub open spec fn keys_distinct<K, V>(s: Seq<(K, V)>) -> bool {
    forall|i: int, j: int| 0 <= i < s.len() && 0 <= j < s.len() && i != j ==> s[i].0 != s[j].0
}

/// `true` if the key occurs in the entries.
pub open spec fn has_key<K, V>(s: Seq<(K, V)>, k: K) -> bool {
    exists|i: int| 0 <= i < s.len() && s[i].0 == k
}

/// The position of the key in the entries (meaningful when it occurs).
pub open spec fn index_of<K, V>(s: Seq<(K, V)>, k: K) -> int {
    choose|i: int| 0 <= i < s.len() && s[i].0 == k
}

/// The map that a sequence of entries with distinct keys denotes.
pub open spec fn seq_to_map<K, V>(s: Seq<(K, V)>) -> Map<K, V> {
    Map::new(|k: K| has_key(s, k), |k: K| s[index_of(s, k)].1)
}

/// The set of keys of a sequence of entries.
pub open spec fn key_set<K, V>(s: Seq<(K, V)>) -> Set<K> {
    Set::new(|k: K| has_key(s, k))
}

/// The entry at a known position is what the map holds for its key.
pub proof fn lemma_index_lookup<K, V>(s: Seq<(K, V)>, i: int)
    requires
        keys_distinct(s),
        0 <= i < s.len(),
    ensures
        seq_to_map(s).contains_key(s[i].0),
        seq_to_map(s)[s[i].0] == s[i].1,
        index_of(s, s[i].0) == i,
{
    assert(has_key(s, s[i].0));
    let j = index_of(s, s[i].0);
    assert(s[j].0 == s[i].0);
}

/// The number of keys equals the number of entries.
pub proof fn lemma_key_set_len<K, V>(s: Seq<(K, V)>)
    requires
        keys_distinct(s),
    ensures
        key_set(s).finite(),
        key_set(s).len() == s.len(),
    decreases s.len(),
{
    if s.len() == 0 {
        assert(key_set(s) =~= Set::<K>::empty());
    } else {
        let t = s.drop_last();
        assert(keys_distinct(t));
        lemma_key_set_len(t);
        let k = s.last().0;
        assert(!key_set(t).contains(k)) by {
            if key_set(t).contains(k) {
                let i = choose|i: int| 0 <= i < t.len() && t[i].0 == k;
                assert(s[i].0 == s[s.len() - 1].0);
            }
        }
        assert forall|x: K| key_set(s).contains(x) <==> key_set(t).insert(k).contains(x) by {
            if key_set(s).contains(x) {
                let i = choose|i: int| 0 <= i < s.len() && s[i].0 == x;
                if i < s.len() - 1 {
                    assert(t[i].0 == x);
                }
            }
            if key_set(t).contains(x) {
                let i = choose|i: int| 0 <= i < t.len() && t[i].0 == x;
                assert(s[i].0 == x);
            }
        }
        assert(key_set(s) =~= key_set(t).insert(k));
    }
}

/// A map held as a vector of `(key, value)` entries with distinct keys.
#[derive(Clone, Debug)]
pub struct AssocMap<K, V> {
    entries: Vec<(K, V)>,
}

impl<K, V> View for AssocMap<K, V> {
    type V = Map<K, V>;

    closed spec fn view(&self) -> Map<K, V> {
        seq_to_map(self.entries@)
    }
}

impl<K: KeyEq, V> AssocMap<K, V> {
    /// The entries, in the order in which they are held.
    pub closed spec fn seq(&self) -> Seq<(K, V)> {
        self.entries@
    }

    /// No key occurs twice.
    pub closed spec fn wf(&self) -> bool {
        keys_distinct(self.entries@)
    }

    /// Relates the map to its entries.
    pub proof fn lemma_view(&self)
        requires
            self.wf(),
        ensures
            keys_distinct(self.seq()),
            self@ == seq_to_map(self.seq()),
            self@.dom() == key_set(self.seq()),
            self@.dom().finite(),
            self@.len() == self.seq().len(),
            forall|i: int|
                0 <= i < self.seq().len() ==> #[trigger] self@.contains_key(self.seq()[i].0)
                    && self@[self.seq()[i].0] == self.seq()[i].1,
            forall|k: K|
                #[trigger] self@.contains_key(k) ==> exists|i: int|
                    0 <= i < self.seq().len() && self.seq()[i].0 == k,
    {
        let s = self.entries@;
        assert(self@.dom() =~= key_set(s));
        lemma_key_set_len(s);
        assert forall|i: int| 0 <= i < s.len() implies #[trigger] self@.contains_key(s[i].0)
            && self@[s[i].0] == s[i].1 by {
            lemma_index_lookup(s, i);
        }
    }

    /// An empty map.
    pub fn new() -> (r: Self)
        ensures
            r.wf(),
            r@ == Map::<K, V>::empty(),
            r.seq() == Seq::<(K, V)>::empty(),
    {
        let r = AssocMap { entries: Vec::new() };
        assert(r@ =~= Map::<K, V>::empty());
        r
    }

    /// The number of entries.
    pub fn len(&self) -> (r: usize)
        requires
            self.wf(),
        ensures
            r == self@.len(),
            r == self.seq().len(),
    {
        proof {
            self.lemma_view();
        }
        self.entries.len()
    }

    /// `true` if there are no entries.
    pub fn is_empty(&self) -> (r: bool)
        requires
            self.wf(),
        ensures
            r == (self@.len() == 0),
            r == (self@ == Map::<K, V>::empty()),
    {
        proof {
            self.lemma_view();
            if self.entries.len() == 0 {
                assert(self@ =~= Map::<K, V>::empty());
            }
        }
        self.entries.len() == 0
    }

    /// The position of the key, if it is held.
    fn find(&self, k: &K) -> (r: Option<usize>)
        requires
            self.wf(),
        ensures
            match r {
                Some(i) => i < self.seq().len() && self.seq()[i as int].0 == *k,
                None => !self@.contains_key(*k),
            },
    {
        let mut i: usize = 0;
        while i < self.entries.len()
            invariant
                i <= self.entries@.len(),
                forall|j: int| 0 <= j < i ==> self.entries@[j].0 != *k,
            decreases self.entries@.len() - i,
        {
            if self.entries[i].0.key_eq(k) {
                return Some(i);
            }
            i = i + 1;
        }
        proof {
            if self@.contains_key(*k) {
                let j = choose|j: int| 0 <= j < self.entries@.len() && self.entries@[j].0 == *k;
                assert(self.entries@[j].0 == *k);
            }
        }
        None
    }

    /// `true` if the key is held.
    pub fn contains_key(&self, k: &K) -> (r: bool)
        requires
            self.wf(),
        ensures
            r == self@.contains_key(*k),
    {
        proof {
            self.lemma_view();
        }
        match self.find(k) {
            Some(i) => {
                proof {
                    lemma_index_lookup(self.entries@, i as int);
                }
                true
            },
            None => false,
        }
    }

    /// The value held for the key.
    pub fn get(&self, k: &K) -> (r: Option<&V>)
        requires
            self.wf(),
        ensures
            match r {
                Some(v) => self@.contains_key(*k) && *v == self@[*k],
                None => !self@.contains_key(*k),
            },
    {
        match self.find(k) {
            Some(i) => {
                proof {
                    lemma_index_lookup(self.entries@, i as int);
                }
                Some(&self.entries[i].1)
            },
            None => None,
        }
    }

    /// The entry at a position.
    pub fn get_index(&self, i: usize) -> (r: &(K, V))
        requires
            self.wf(),
            i < self.seq().len(),
        ensures
            *r == self.seq()[i as int],
    {
        &self.entries[i]
    }

    /// Inserts the value for the key, returning the value it replaced.
    /// A held key keeps its position; a new key is appended.
    pub fn insert(&mut self, k: K, v: V) -> (r: Option<V>)
        requires
            old(self).wf(),
        ensures
            final(self).wf(),
            final(self)@ == old(self)@.insert(k, v),
            match r {
                Some(o) => old(self)@.contains_key(k) && o == old(self)@[k],
                None => !old(self)@.contains_key(k),
            },
            old(self)@.contains_key(k) ==> final(self).seq().len() == old(self).seq().len(),
            !old(self)@.contains_key(k) ==> final(self).seq() == old(self).seq().push((k, v)),
    {
        let ghost s0 = self.entries@;
        match self.find(&k) {
            Some(i) => {
                proof {
                    lemma_index_lookup(s0, i as int);
                }
                let (_, old_v) = self.entries.remove(i);
                self.entries.insert(i, (k, v));
                proof {
                    let s1 = self.entries@;
                    assert(s1 =~= s0.update(i as int, (k, v)));
                    assert(keys_distinct(s1));
                    assert forall|x: K| #[trigger] seq_to_map(s1).contains_key(x) <==> seq_to_map(
                        s0,
                    ).insert(k, v).contains_key(x) by {
                        if has_key(s1, x) {
                            let j = choose|j: int| 0 <= j < s1.len() && s1[j].0 == x;
                            assert(s0[j].0 == x || j == i);
                        }
                        if has_key(s0, x) {
                            let j = choose|j: int| 0 <= j < s0.len() && s0[j].0 == x;
                            assert(s1[j].0 == x);
                        }
                    }
                    assert forall|x: K| #[trigger]
                        seq_to_map(s1).contains_key(x) implies seq_to_map(s1)[x] == seq_to_map(
                        s0,
                    ).insert(k, v)[x] by {
                        let j = choose|j: int| 0 <= j < s1.len() && s1[j].0 == x;
                        lemma_index_lookup(s1, j);
                        if j != i {
                            lemma_index_lookup(s0, j);
                        }
                    }
                    assert(seq_to_map(s1) =~= seq_to_map(s0).insert(k, v));
                }
                Some(old_v)
            },
            None => {
                self.entries.push((k, v));
                proof {
                    let s1 = self.entries@;
                    assert(keys_distinct(s1)) by {
                        assert forall|a: int, b: int|
                            0 <= a < s1.len() && 0 <= b < s1.len() && a != b implies s1[a].0
                            != s1[b].0 by {
                            if a == s0.len() as int {
                                assert(s0[b].0 == s1[b].0);
                                lemma_index_lookup(s0, b);
                            } else if b == s0.len() as int {
                                lemma_index_lookup(s0, a);
                            }
                        }
                    }
                    assert forall|x: K| #[trigger] seq_to_map(s1).contains_key(x) <==> seq_to_map(
                        s0,
                    ).insert(k, v).contains_key(x) by {
                        if has_key(s1, x) {
                            let j = choose|j: int| 0 <= j < s1.len() && s1[j].0 == x;
                            if j < s0.len() {
                                assert(s0[j].0 == x);
                            }
                        }
                        if has_key(s0, x) {
                            let j = choose|j: int| 0 <= j < s0.len() && s0[j].0 == x;
                            assert(s1[j].0 == x);
                        }
                        if x == k {
                            assert(s1[s0.len() as int].0 == x);
                        }
                    }
                    assert forall|x: K| #[trigger]
                        seq_to_map(s1).contains_key(x) implies seq_to_map(s1)[x] == seq_to_map(
                        s0,
                    ).insert(k, v)[x] by {
                        let j = choose|j: int| 0 <= j < s1.len() && s1[j].0 == x;
                        lemma_index_lookup(s1, j);
                        if j < s0.len() {
                            lemma_index_lookup(s0, j);
                        }
                    }
                    assert(seq_to_map(s1) =~= seq_to_map(s0).insert(k, v));
                }
                None
            },
        }
    }

    /// Removes the key, returning the value that was held for it.
    /// The other entries keep their order.
    pub fn remove(&mut self, k: &K) -> (r: Option<V>)
        requires
            old(self).wf(),
        ensures
            final(self).wf(),
            final(self)@ == old(self)@.remove(*k),
            match r {
                Some(o) => old(self)@.contains_key(*k) && o == old(self)@[*k],
                None => !old(self)@.contains_key(*k) && final(self).seq() == old(self).seq(),
            },
    {
        let ghost s0 = self.entries@;
        match self.find(k) {
            Some(i) => {
                proof {
                    lemma_index_lookup(s0, i as int);
                }
                let (_, old_v) = self.entries.remove(i);
                proof {
                    let s1 = self.entries@;
                    assert(s1 =~= s0.remove(i as int));
                    assert(keys_distinct(s1)) by {
                        assert forall|a: int, b: int|
                            0 <= a < s1.len() && 0 <= b < s1.len() && a != b implies s1[a].0
                            != s1[b].0 by {
                            let a0 = if a < i { a } else { a + 1 };
                            let b0 = if b < i { b } else { b + 1 };
                            assert(s1[a] == s0[a0]);
                            assert(s1[b] == s0[b0]);
                        }
                    }
                    assert forall|x: K| #[trigger] seq_to_map(s1).contains_key(x) <==> seq_to_map(
                        s0,
                    ).remove(*k).contains_key(x) by {
                        if has_key(s1, x) {
                            let j = choose|j: int| 0 <= j < s1.len() && s1[j].0 == x;
                            let j0 = if j < i { j } else { j + 1 };
                            assert(s0[j0].0 == x);
                        }
                        if has_key(s0, x) && x != *k {
                            let j = choose|j: int| 0 <= j < s0.len() && s0[j].0 == x;
                            assert(j != i);
                            let j1 = if j < i { j } else { j - 1 };
                            assert(s1[j1].0 == x);
                        }
                    }
                    assert forall|x: K| #[trigger]
                        seq_to_map(s1).contains_key(x) implies seq_to_map(s1)[x] == seq_to_map(
                        s0,
                    ).remove(*k)[x] by {
                        let j = choose|j: int| 0 <= j < s1.len() && s1[j].0 == x;
                        lemma_index_lookup(s1, j);
                        let j0 = if j < i { j } else { j + 1 };
                        assert(s0[j0] == s1[j]);
                        lemma_index_lookup(s0, j0);
                    }
                    assert(seq_to_map(s1) =~= seq_to_map(s0).remove(*k));
                }
                Some(old_v)
            },
            None => {
                proof {
                    assert(seq_to_map(s0) =~= seq_to_map(s0).remove(*k));
                }
                None
            },
        }
    }

    /// The entries, in the order in which they are held.
    pub fn into_entries(self) -> (r: Vec<(K, V)>)
        requires
            self.wf(),
        ensures
            r@ == self.seq(),
    {
        self.entries
    }
}

} // verus!
