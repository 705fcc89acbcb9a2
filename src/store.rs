use crate::block::ids_equal;
use crate::Id;
use vstd::prelude::*;

verus! {

/// No two entries share a key.
pub open spec fn keys_unique<K, V>(s: Seq<(K, V)>) -> bool {
    forall|i: int, j: int| 0 <= i < s.len() && 0 <= j < s.len() && s[i].0 == s[j].0 ==> i == j
}

/// The map that a list of entries with unique keys stands for.
pub open spec fn assoc_view<K, V>(s: Seq<(K, V)>) -> Map<K, V> {
    Map::new(
        |k: K| exists|i: int| 0 <= i < s.len() && s[i].0 == k,
        |k: K| s[choose|i: int| 0 <= i < s.len() && s[i].0 == k].1,
    )
}

pub proof fn lemma_assoc_index<K, V>(s: Seq<(K, V)>, i: int)
    requires
        keys_unique(s),
        0 <= i < s.len(),
    ensures
        assoc_view(s).contains_key(s[i].0),
        assoc_view(s)[s[i].0] == s[i].1,
{
    let k = s[i].0;
    assert(exists|j: int| 0 <= j < s.len() && s[j].0 == k);
    let j = choose|j: int| 0 <= j < s.len() && s[j].0 == k;
    assert(j == i);
}

pub proof fn lemma_assoc_update<K, V>(s: Seq<(K, V)>, i: int, v: V)
    requires
        keys_unique(s),
        0 <= i < s.len(),
    ensures
        keys_unique(s.update(i, (s[i].0, v))),
        assoc_view(s.update(i, (s[i].0, v))) == assoc_view(s).insert(s[i].0, v),
{
    let t = s.update(i, (s[i].0, v));
    assert forall|a: int, b: int| 0 <= a < t.len() && 0 <= b < t.len() && t[a].0 == t[b].0 implies a
        == b by {
        assert(s[a].0 == t[a].0 && s[b].0 == t[b].0);
    }
    lemma_assoc_index(t, i);
    assert forall|k: K| #[trigger] assoc_view(t).contains_key(k) <==> assoc_view(s).insert(
        s[i].0,
        v,
    ).contains_key(k) by {
        if exists|j: int| 0 <= j < s.len() && s[j].0 == k {
            let j = choose|j: int| 0 <= j < s.len() && s[j].0 == k;
            assert(t[j].0 == k);
        }
        if exists|j: int| 0 <= j < t.len() && t[j].0 == k {
            let j = choose|j: int| 0 <= j < t.len() && t[j].0 == k;
            assert(s[j].0 == k);
        }
    }
    assert forall|k: K| #[trigger] assoc_view(t).contains_key(k) implies assoc_view(t)[k]
        == assoc_view(s).insert(s[i].0, v)[k] by {
        let j = choose|j: int| 0 <= j < t.len() && t[j].0 == k;
        if k != s[i].0 {
            assert(j != i);
            assert(s[j].0 == k);
            lemma_assoc_index(s, j);
            lemma_assoc_index(t, j);
        }
    }
    assert(assoc_view(t) =~= assoc_view(s).insert(s[i].0, v));
}

proof fn lemma_assoc_push<K, V>(s: Seq<(K, V)>, k: K, v: V)
    requires
        keys_unique(s),
        !assoc_view(s).contains_key(k),
    ensures
        keys_unique(s.push((k, v))),
        assoc_view(s.push((k, v))) == assoc_view(s).insert(k, v),
{
    let t = s.push((k, v));
    assert forall|a: int, b: int| 0 <= a < t.len() && 0 <= b < t.len() && t[a].0 == t[b].0 implies a
        == b by {
        if a < s.len() && b < s.len() {
            assert(s[a].0 == s[b].0);
        } else if a < s.len() {
            assert(s[a].0 == k);
        } else if b < s.len() {
            assert(s[b].0 == k);
        }
    }
    lemma_assoc_index(t, s.len() as int);
    assert forall|q: K| #[trigger] assoc_view(t).contains_key(q) <==> assoc_view(s).insert(
        k,
        v,
    ).contains_key(q) by {
        if exists|j: int| 0 <= j < s.len() && s[j].0 == q {
            let j = choose|j: int| 0 <= j < s.len() && s[j].0 == q;
            assert(t[j].0 == q);
        }
        if q != k && exists|j: int| 0 <= j < t.len() && t[j].0 == q {
            let j = choose|j: int| 0 <= j < t.len() && t[j].0 == q;
            assert(s[j].0 == q);
        }
    }
    assert forall|q: K| #[trigger] assoc_view(t).contains_key(q) implies assoc_view(t)[q]
        == assoc_view(s).insert(k, v)[q] by {
        if q != k {
            let j = choose|j: int| 0 <= j < t.len() && t[j].0 == q;
            assert(j < s.len());
            lemma_assoc_index(s, j);
            lemma_assoc_index(t, j);
        }
    }
    assert(assoc_view(t) =~= assoc_view(s).insert(k, v));
}

pub proof fn lemma_assoc_insert_at<K, V>(s: Seq<(K, V)>, i: int, k: K, v: V)
    requires
        keys_unique(s),
        !assoc_view(s).contains_key(k),
        0 <= i <= s.len(),
    ensures
        keys_unique(s.insert(i, (k, v))),
        assoc_view(s.insert(i, (k, v))) == assoc_view(s).insert(k, v),
{
    let t = s.insert(i, (k, v));
    assert forall|j: int| 0 <= j < t.len() && j != i implies #[trigger] t[j] == s[if j < i {
        j
    } else {
        j - 1
    }] by {}
    assert forall|a: int, b: int| 0 <= a < t.len() && 0 <= b < t.len() && t[a].0 == t[b].0 implies a
        == b by {
        let a1 = if a < i {
            a
        } else {
            a - 1
        };
        let b1 = if b < i {
            b
        } else {
            b - 1
        };
        if a != i && b != i {
            assert(t[a] == s[a1] && t[b] == s[b1]);
        } else if a != i {
            assert(t[a] == s[a1]);
        } else if b != i {
            assert(t[b] == s[b1]);
        }
    }
    lemma_assoc_index(t, i);
    assert forall|q: K| #[trigger] assoc_view(t).contains_key(q) <==> assoc_view(s).insert(
        k,
        v,
    ).contains_key(q) by {
        if exists|j: int| 0 <= j < s.len() && s[j].0 == q {
            let j = choose|j: int| 0 <= j < s.len() && s[j].0 == q;
            let j1 = if j < i {
                j
            } else {
                j + 1
            };
            assert(t[j1] == s[j]);
        }
        if q != k && exists|j: int| 0 <= j < t.len() && t[j].0 == q {
            let j = choose|j: int| 0 <= j < t.len() && t[j].0 == q;
            assert(j != i);
            let j0 = if j < i {
                j
            } else {
                j - 1
            };
            assert(s[j0] == t[j]);
        }
    }
    assert forall|q: K| #[trigger] assoc_view(t).contains_key(q) implies assoc_view(t)[q]
        == assoc_view(s).insert(k, v)[q] by {
        if q != k {
            let j = choose|j: int| 0 <= j < t.len() && t[j].0 == q;
            assert(j != i);
            let j0 = if j < i {
                j
            } else {
                j - 1
            };
            assert(s[j0] == t[j]);
            lemma_assoc_index(s, j0);
            lemma_assoc_index(t, j);
        }
    }
    assert(assoc_view(t) =~= assoc_view(s).insert(k, v));
}

proof fn lemma_assoc_remove<K, V>(s: Seq<(K, V)>, i: int)
    requires
        keys_unique(s),
        0 <= i < s.len(),
    ensures
        keys_unique(s.remove(i)),
        assoc_view(s.remove(i)) == assoc_view(s).remove(s[i].0),
{
    let t = s.remove(i);
    let k = s[i].0;
    assert forall|j: int| 0 <= j < t.len() implies #[trigger] t[j] == s[if j < i {
        j
    } else {
        j + 1
    }] by {}
    assert forall|a: int, b: int| 0 <= a < t.len() && 0 <= b < t.len() && t[a].0 == t[b].0 implies a
        == b by {
        let a1 = if a < i {
            a
        } else {
            a + 1
        };
        let b1 = if b < i {
            b
        } else {
            b + 1
        };
        assert(t[a] == s[a1] && t[b] == s[b1]);
    }
    assert forall|q: K| #[trigger] assoc_view(t).contains_key(q) <==> assoc_view(s).remove(
        k,
    ).contains_key(q) by {
        if exists|j: int| 0 <= j < t.len() && t[j].0 == q {
            let j = choose|j: int| 0 <= j < t.len() && t[j].0 == q;
            let j1 = if j < i {
                j
            } else {
                j + 1
            };
            assert(t[j] == s[j1]);
            assert(j1 != i);
        }
        if q != k && exists|j: int| 0 <= j < s.len() && s[j].0 == q {
            let j = choose|j: int| 0 <= j < s.len() && s[j].0 == q;
            assert(j != i);
            let j0 = if j < i {
                j
            } else {
                j - 1
            };
            assert(t[j0] == s[j]);
        }
    }
    assert forall|q: K| #[trigger] assoc_view(t).contains_key(q) implies assoc_view(t)[q]
        == assoc_view(s).remove(k)[q] by {
        let j = choose|j: int| 0 <= j < t.len() && t[j].0 == q;
        let j1 = if j < i {
            j
        } else {
            j + 1
        };
        assert(t[j] == s[j1]);
        lemma_assoc_index(t, j);
        lemma_assoc_index(s, j1);
    }
    assert(assoc_view(t) =~= assoc_view(s).remove(k));
}

/// A key of a store: compared by value.
pub trait StoreKey: Copy {
    fn same_key(&self, o: &Self) -> (r: bool)
        ensures
            r == (*self == *o),
    ;
}

impl StoreKey for [u8; 32] {
    fn same_key(&self, o: &Self) -> (r: bool) {
        ids_equal(self, o)
    }
}

impl StoreKey for u64 {
    fn same_key(&self, o: &Self) -> (r: bool) {
        *self == *o
    }
}

/// A map kept as a list of entries with unique keys.
#[derive(Debug)]
pub struct KeyMap<K, V> {
    pub entries: Vec<(K, V)>,
}

/// A map keyed by 32-byte identifiers.
pub type IdMap<V> = KeyMap<Id, V>;

/// A map keyed by timeslot.
pub type SlotMap<V> = KeyMap<u64, V>;

impl<K, V> View for KeyMap<K, V> {
    type V = Map<K, V>;

    open spec fn view(&self) -> Map<K, V> {
        assoc_view(self.entries@)
    }
}

impl<K: StoreKey, V> KeyMap<K, V> {
    pub open spec fn wf(&self) -> bool {
        keys_unique(self.entries@)
    }

    pub fn new() -> (r: Self)
        ensures
            r.wf(),
            r@ == Map::<K, V>::empty(),
    {
        let r = KeyMap { entries: Vec::new() };
        assert(r@ =~= Map::<K, V>::empty());
        r
    }

    /// The position of the entry with key `k`.
    pub fn index_of(&self, k: &K) -> (r: Option<usize>)
        requires
            self.wf(),
        ensures
            match r {
                Some(i) => i < self.entries@.len() && self.entries@[i as int].0 == *k
                    && self@.contains_key(*k) && self@[*k] == self.entries@[i as int].1,
                None => !self@.contains_key(*k),
            },
    {
        let mut i: usize = 0;
        while i < self.entries.len()
            invariant
                keys_unique(self.entries@),
                i <= self.entries@.len(),
                forall|j: int| 0 <= j < i ==> self.entries@[j].0 != *k,
            decreases self.entries@.len() - i,
        {
            if self.entries[i].0.same_key(k) {
                proof {
                    lemma_assoc_index(self.entries@, i as int);
                }
                return Some(i);
            }
            i += 1;
        }
        None
    }

    pub fn contains_key(&self, k: &K) -> (r: bool)
        requires
            self.wf(),
        ensures
            r == self@.contains_key(*k),
    {
        self.index_of(k).is_some()
    }

    pub fn get(&self, k: &K) -> (r: Option<&V>)
        requires
            self.wf(),
        ensures
            match r {
                Some(v) => self@.contains_key(*k) && *v == self@[*k],
                None => !self@.contains_key(*k),
            },
    {
        match self.index_of(k) {
            Some(i) => Some(&self.entries[i].1),
            None => None,
        }
    }

    /// Sets the value of `k`, adding the key if it is new.
    pub fn insert(&mut self, k: K, v: V)
        requires
            old(self).wf(),
        ensures
            final(self).wf(),
            final(self)@ == old(self)@.insert(k, v),
    {
        match self.index_of(&k) {
            Some(i) => {
                proof {
                    lemma_assoc_update(self.entries@, i as int, v);
                }
                let ghost s = self.entries@;
                self.entries.remove(i);
                self.entries.insert(i, (k, v));
                assert(self.entries@ =~= s.update(i as int, (s[i as int].0, v)));
            },
            None => {
                proof {
                    lemma_assoc_push(self.entries@, k, v);
                }
                self.entries.push((k, v));
            },
        }
    }

    /// Removes `k` and returns its value, if it was present.
    pub fn remove(&mut self, k: &K) -> (r: Option<V>)
        requires
            old(self).wf(),
        ensures
            final(self).wf(),
            final(self)@ == old(self)@.remove(*k),
            match r {
                Some(v) => old(self)@.contains_key(*k) && v == old(self)@[*k]
                    && final(self).entries@.len() == old(self).entries@.len() - 1,
                None => !old(self)@.contains_key(*k) && final(self).entries@ == old(self).entries@,
            },
    {
        match self.index_of(k) {
            Some(i) => {
                proof {
                    lemma_assoc_remove(self.entries@, i as int);
                }
                let (_, v) = self.entries.remove(i);
                Some(v)
            },
            None => {
                assert(old(self)@.remove(*k) =~= old(self)@);
                None
            },
        }
    }
}

/// A set of 32-byte identifiers, kept as a list without repetition.
#[derive(Debug)]
pub struct IdSet {
    pub ids: Vec<Id>,
}

impl View for IdSet {
    type V = Set<Id>;

    open spec fn view(&self) -> Set<Id> {
        self.ids@.to_set()
    }
}

impl IdSet {
    pub open spec fn wf(&self) -> bool {
        self.ids@.no_duplicates()
    }

    pub fn new() -> (r: Self)
        ensures
            r.wf(),
            r@ == Set::<Id>::empty(),
    {
        let r = IdSet { ids: Vec::new() };
        assert(r@ =~= Set::<Id>::empty());
        r
    }

    fn index_of(&self, k: &Id) -> (r: Option<usize>)
        ensures
            match r {
                Some(i) => i < self.ids@.len() && self.ids@[i as int] == *k,
                None => !self@.contains(*k),
            },
    {
        let mut i: usize = 0;
        while i < self.ids.len()
            invariant
                i <= self.ids@.len(),
                forall|j: int| 0 <= j < i ==> self.ids@[j] != *k,
            decreases self.ids@.len() - i,
        {
            if ids_equal(&self.ids[i], k) {
                return Some(i);
            }
            i += 1;
        }
        None
    }

    pub fn contains(&self, k: &Id) -> (r: bool)
        ensures
            r == self@.contains(*k),
    {
        match self.index_of(k) {
            Some(i) => {
                assert(self.ids@.contains(*k));
                true
            },
            None => false,
        }
    }

    /// Adds `k`; returns whether it was new.
    pub fn insert(&mut self, k: Id) -> (r: bool)
        requires
            old(self).wf(),
        ensures
            final(self).wf(),
            final(self)@ == old(self)@.insert(k),
            r == !old(self)@.contains(k),
    {
        match self.index_of(&k) {
            Some(i) => {
                assert(self.ids@.contains(k));
                assert(old(self)@.insert(k) =~= old(self)@);
                false
            },
            None => {
                let ghost s = self.ids@;
                self.ids.push(k);
                proof {
                    s.lemma_push_to_set_commute(k);
                    assert(self.ids@ == s.push(k));
                    assert forall|a: int, b: int|
                        0 <= a < self.ids@.len() && 0 <= b < self.ids@.len() && a != b implies self.ids@[a]
                        != self.ids@[b] by {
                        assert(!s.to_set().contains(k));
                        if a == s.len() {
                            if s[b] == k {
                                assert(s.contains(k));
                            }
                        } else if b == s.len() {
                            if s[a] == k {
                                assert(s.contains(k));
                            }
                        }
                    }
                }
                true
            },
        }
    }

    /// Removes `k`; returns whether it was present.
    pub fn remove(&mut self, k: &Id) -> (r: bool)
        requires
            old(self).wf(),
        ensures
            final(self).wf(),
            final(self)@ == old(self)@.remove(*k),
            r == old(self)@.contains(*k),
    {
        match self.index_of(k) {
            Some(i) => {
                let ghost s = self.ids@;
                self.ids.remove(i);
                proof {
                    assert(self.ids@ == s.remove(i as int));
                    assert forall|j: int| 0 <= j < self.ids@.len() implies #[trigger] self.ids@[j]
                        == s[if j < i {
                        j
                    } else {
                        j + 1
                    }] by {}
                    assert forall|a: int, b: int|
                        0 <= a < self.ids@.len() && 0 <= b < self.ids@.len() && a != b implies self.ids@[a]
                        != self.ids@[b] by {
                        let a1 = if a < i {
                            a
                        } else {
                            a + 1
                        };
                        let b1 = if b < i {
                            b
                        } else {
                            b + 1
                        };
                        assert(self.ids@[a] == s[a1] && self.ids@[b] == s[b1]);
                    }
                    assert forall|q: Id| #[trigger] self.ids@.to_set().contains(q) <==> s.to_set().remove(
                        *k,
                    ).contains(q) by {
                        if self.ids@.contains(q) {
                            let j = choose|j: int| 0 <= j < self.ids@.len() && self.ids@[j] == q;
                            let j1 = if j < i {
                                j
                            } else {
                                j + 1
                            };
                            assert(s[j1] == q);
                            assert(j1 != i);
                        }
                        if s.contains(q) && q != *k {
                            let j = choose|j: int| 0 <= j < s.len() && s[j] == q;
                            assert(j != i);
                            let j0 = if j < i {
                                j
                            } else {
                                j - 1
                            };
                            assert(self.ids@[j0] == q);
                        }
                    }
                    assert(self.ids@.to_set() =~= s.to_set().remove(*k));
                    assert(s.contains(*k));
                }
                true
            },
            None => {
                assert(old(self)@.remove(*k) =~= old(self)@);
                false
            },
        }
    }
}

} // verus!
