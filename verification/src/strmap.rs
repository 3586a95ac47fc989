use vstd::prelude::*;

verus! {

/// A map keyed by strings that keeps its entries in insertion order.
///
/// Iteration follows the entry order; a key never occurs twice (see `wf`).
pub struct StrMap<V> {
    entries: Vec<(String, V)>,
}

impl<V: DeepView> StrMap<V> {
    pub closed spec fn entry_seq(self) -> Seq<(String, V)> {
        self.entries@
    }

    /// Number of entries.
    pub open spec fn len(self) -> nat {
        self.entry_seq().len()
    }

    pub open spec fn key_at(self, i: int) -> Seq<char> {
        self.entry_seq()[i].0@
    }

    pub open spec fn value_at(self, i: int) -> V::V {
        self.entry_seq()[i].1.deep_view()
    }

    /// No key occurs twice.
    pub open spec fn wf(self) -> bool {
        forall|i: int, j: int|
            0 <= i < self.len() && 0 <= j < self.len() && i != j ==> #[trigger] self.key_at(i)
                != #[trigger] self.key_at(j)
    }

    pub open spec fn has_key(self, k: Seq<char>) -> bool {
        exists|i: int| 0 <= i < self.len() && #[trigger] self.key_at(i) == k
    }

    pub open spec fn index_of(self, k: Seq<char>) -> int {
        choose|i: int| 0 <= i < self.len() && #[trigger] self.key_at(i) == k
    }

    /// The entries as a map from key to value.
    pub open spec fn map(self) -> Map<Seq<char>, V::V> {
        Map::new(|k: Seq<char>| self.has_key(k), |k: Seq<char>| self.value_at(self.index_of(k)))
    }

    /// The entries in order, as pairs of key and value.
    pub open spec fn pairs(self) -> Seq<(Seq<char>, V::V)> {
        Seq::new(self.len(), |i: int| (self.key_at(i), self.value_at(i)))
    }

    /// The keys in entry order.
    pub open spec fn keys(self) -> Seq<Seq<char>> {
        Seq::new(self.len(), |i: int| self.key_at(i))
    }

    pub proof fn lemma_map_at(self, i: int)
        requires
            self.wf(),
            0 <= i < self.len(),
        ensures
            self.map().contains_key(self.key_at(i)),
            self.map()[self.key_at(i)] == self.value_at(i),
            self.index_of(self.key_at(i)) == i,
    {
        let k = self.key_at(i);
        assert(self.has_key(k));
        let j = self.index_of(k);
        assert(self.key_at(j) == k);
    }

    pub proof fn lemma_map_has(self, k: Seq<char>)
        requires
            self.wf(),
            self.map().contains_key(k),
        ensures
            0 <= self.index_of(k) < self.len(),
            self.key_at(self.index_of(k)) == k,
            self.map()[k] == self.value_at(self.index_of(k)),
    {
    }

    /// The number of distinct keys equals the number of entries.
    pub proof fn lemma_dom_len(self)
        requires
            self.wf(),
        ensures
            self.map().dom().finite(),
            self.map().dom().len() == self.len(),
            self.map().dom() == self.keys().to_set(),
    {
        let ks = self.keys();
        assert forall|x: Seq<char>| #[trigger] self.map().dom().contains(x) <==> ks.to_set().contains(x) by {
            if self.map().dom().contains(x) {
                let i = self.index_of(x);
                assert(ks[i] == x);
            }
            if ks.to_set().contains(x) {
                let i = choose|i: int| 0 <= i < ks.len() && ks[i] == x;
                assert(self.key_at(i) == x);
            }
        }
        assert(self.map().dom() =~= ks.to_set());
        assert(ks.no_duplicates());
        ks.unique_seq_to_set();
    }

    /// Replacing the value of entry `i` (key and order unchanged).
    pub proof fn lemma_update_at(old_m: Self, new_m: Self, i: int, v: V)
        requires
            old_m.wf(),
            0 <= i < old_m.len(),
            new_m.entry_seq() == old_m.entry_seq().update(i, (old_m.entry_seq()[i].0, v)),
        ensures
            new_m.wf(),
            new_m.len() == old_m.len(),
            new_m.map() == old_m.map().insert(old_m.key_at(i), v.deep_view()),
            new_m.pairs() == old_m.pairs().update(i, (old_m.key_at(i), v.deep_view())),
            forall|j: int| 0 <= j < new_m.len() && j != i ==> #[trigger] new_m.entry_seq()[j] == old_m.entry_seq()[j],
            new_m.entry_seq()[i].1 == v,
    {
        let kv = old_m.key_at(i);
        let vv = v.deep_view();
        assert forall|a: int| 0 <= a < new_m.len() implies #[trigger] new_m.key_at(a) == old_m.key_at(a) by {}
        assert(new_m.wf()) by {
            assert forall|a: int, b: int|
                0 <= a < new_m.len() && 0 <= b < new_m.len() && a != b implies #[trigger] new_m.key_at(a)
                != #[trigger] new_m.key_at(b) by {
                assert(old_m.key_at(a) != old_m.key_at(b));
            }
        }
        assert forall|x: Seq<char>| #[trigger] new_m.map().contains_key(x) <==> old_m.map().insert(kv, vv).contains_key(x) by {
            if new_m.has_key(x) {
                let j = new_m.index_of(x);
                assert(old_m.key_at(j) == x);
            }
            if old_m.has_key(x) {
                let j = old_m.index_of(x);
                assert(new_m.key_at(j) == x);
            }
            if x == kv {
                assert(new_m.key_at(i) == x);
            }
        }
        assert forall|x: Seq<char>| #[trigger] new_m.map().contains_key(x) implies new_m.map()[x] == old_m.map().insert(kv, vv)[x] by {
            let j = new_m.index_of(x);
            new_m.lemma_map_at(j);
            if j != i {
                old_m.lemma_map_at(j);
            }
        }
        assert(new_m.map() =~= old_m.map().insert(kv, vv));
        assert(new_m.pairs() =~= old_m.pairs().update(i, (kv, vv)));
    }

    /// The map of the first `n` entries.
    pub open spec fn map_of_prefix(m: Self, n: int) -> Map<Seq<char>, V::V> {
        Map::new(|k: Seq<char>| exists|j: int| 0 <= j < n && #[trigger] m.key_at(j) == k, |k: Seq<char>| m.map()[k])
    }

    pub proof fn lemma_map_of_prefix_step(m: Self, i: int)
        requires
            m.wf(),
            0 <= i < m.len(),
        ensures
            Self::map_of_prefix(m, i + 1) == Self::map_of_prefix(m, i).insert(m.key_at(i), m.value_at(i)),
            !Self::map_of_prefix(m, i).contains_key(m.key_at(i)),
            Self::map_of_prefix(m, m.len() as int) == m.map(),
    {
        m.lemma_map_at(i);
        let a = Self::map_of_prefix(m, i + 1);
        let b = Self::map_of_prefix(m, i).insert(m.key_at(i), m.value_at(i));
        assert forall|k: Seq<char>| #[trigger] a.contains_key(k) <==> b.contains_key(k) by {
            if a.contains_key(k) {
                let j = choose|j: int| 0 <= j < i + 1 && #[trigger] m.key_at(j) == k;
                if j < i {
                    assert(Self::map_of_prefix(m, i).contains_key(k));
                }
            }
            if Self::map_of_prefix(m, i).contains_key(k) {
                let j = choose|j: int| 0 <= j < i && #[trigger] m.key_at(j) == k;
                assert(m.key_at(j) == k);
            }
            if k == m.key_at(i) {
                assert(m.key_at(i) == k);
            }
        }
        assert(a =~= b);
        if Self::map_of_prefix(m, i).contains_key(m.key_at(i)) {
            let j = choose|j: int| 0 <= j < i && #[trigger] m.key_at(j) == m.key_at(i);
            assert(false);
        }
        let f = Self::map_of_prefix(m, m.len() as int);
        assert forall|k: Seq<char>| #[trigger] f.contains_key(k) <==> m.map().contains_key(k) by {
            if f.contains_key(k) {
                let j = choose|j: int| 0 <= j < m.len() && #[trigger] m.key_at(j) == k;
                m.lemma_map_at(j);
            }
            if m.map().contains_key(k) {
                let j = m.index_of(k);
                assert(m.key_at(j) == k);
            }
        }
        assert(f =~= m.map());
    }

    pub proof fn lemma_map_of_prefix_full(m: Self)
        requires
            m.wf(),
        ensures
            Self::map_of_prefix(m, m.len() as int) == m.map(),
    {
        let f = Self::map_of_prefix(m, m.len() as int);
        assert forall|k: Seq<char>| #[trigger] f.contains_key(k) <==> m.map().contains_key(k) by {
            if f.contains_key(k) {
                let j = choose|j: int| 0 <= j < m.len() && #[trigger] m.key_at(j) == k;
                m.lemma_map_at(j);
            }
            if m.map().contains_key(k) {
                let j = m.index_of(k);
                assert(m.key_at(j) == k);
            }
        }
        assert(f =~= m.map());
    }

    pub fn new() -> (r: Self)
        ensures
            r.wf(),
            r.len() == 0,
            r.map() == Map::<Seq<char>, V::V>::empty(),
    {
        let r = StrMap { entries: Vec::new() };
        assert(r.map() =~= Map::<Seq<char>, V::V>::empty());
        r
    }

    pub fn size(&self) -> (n: usize)
        ensures
            n == self.len(),
    {
        self.entries.len()
    }

    /// The key and value of entry `i`.
    pub fn entry(&self, i: usize) -> (r: (&String, &V))
        requires
            i < self.len(),
        ensures
            r.0@ == self.key_at(i as int),
            r.1.deep_view() == self.value_at(i as int),
            *r.1 == self.entry_seq()[i as int].1,
    {
        let e = &self.entries[i];
        (&e.0, &e.1)
    }

    /// Position of `k`, if present.
    pub fn find(&self, k: &String) -> (r: Option<usize>)
        requires
            self.wf(),
        ensures
            r is None <==> !self.map().contains_key(k@),
            r matches Some(i) ==> i < self.len() && self.key_at(i as int) == k@ && self.index_of(
                k@,
            ) == i,
    {
        let n = self.entries.len();
        let mut i: usize = 0;
        while i < n
            invariant
                n == self.len(),
                i <= n,
                self.wf(),
                forall|j: int| 0 <= j < i ==> self.key_at(j) != k@,
            decreases n - i,
        {
            if self.entries[i].0 == *k {
                proof {
                    self.lemma_map_at(i as int);
                }
                return Some(i);
            }
            i = i + 1;
        }
        None
    }

    pub fn contains_key(&self, k: &String) -> (b: bool)
        requires
            self.wf(),
        ensures
            b == self.map().contains_key(k@),
    {
        self.find(k).is_some()
    }

    pub fn get(&self, k: &String) -> (r: Option<&V>)
        requires
            self.wf(),
        ensures
            r is Some == self.map().contains_key(k@),
            r matches Some(v) ==> v.deep_view() == self.map()[k@] && *v == self.entry_seq()[self.index_of(k@)].1,
    {
        match self.find(k) {
            Some(i) => {
                proof {
                    self.lemma_map_at(i as int);
                }
                Some(&self.entries[i].1)
            },
            None => None,
        }
    }

    /// Mutable access to the value of entry `i`; the key and the order stay as they are.
    pub fn value_mut(&mut self, i: usize) -> (r: &mut V)
        requires
            i < old(self).len(),
        ensures
            *r == old(self).entry_seq()[i as int].1,
            final(self).entry_seq() == old(self).entry_seq().update(
                i as int,
                (old(self).entry_seq()[i as int].0, *final(r)),
            ),
    {
        &mut self.entries[i].1
    }

    /// Inserts or replaces the value of `k`. A new key goes to the end.
    pub fn insert(&mut self, k: String, v: V)
        requires
            old(self).wf(),
        ensures
            final(self).wf(),
            final(self).map() == old(self).map().insert(k@, v.deep_view()),
            old(self).map().contains_key(k@) ==> final(self).len() == old(self).len(),
            !old(self).map().contains_key(k@) ==> final(self).len() == old(self).len() + 1,
            final(self).pairs() == (if old(self).map().contains_key(k@) {
                old(self).pairs().update(old(self).index_of(k@), (k@, v.deep_view()))
            } else {
                old(self).pairs().push((k@, v.deep_view()))
            }),
            final(self).entry_seq() == (if old(self).map().contains_key(k@) {
                old(self).entry_seq().update(old(self).index_of(k@), (k, v))
            } else {
                old(self).entry_seq().push((k, v))
            }),
    {
        let ghost old_self = *self;
        let ghost kv = k@;
        let ghost vv = v.deep_view();
        let ghost kk = k;
        let ghost vvv = v;
        match self.find(&k) {
            Some(i) => {
                self.entries.set(i, (k, v));
                proof {
                    assert(self.wf()) by {
                        assert forall|a: int, b: int|
                            0 <= a < self.len() && 0 <= b < self.len() && a != b implies #[trigger] self.key_at(a)
                            != #[trigger] self.key_at(b) by {
                            assert(old_self.key_at(a) != old_self.key_at(b));
                        }
                    }
                    assert forall|x: Seq<char>| #[trigger] self.map().contains_key(x) <==> old_self.map().insert(kv, vv).contains_key(x) by {
                        if self.has_key(x) {
                            let j = self.index_of(x);
                            if j != i {
                                assert(old_self.key_at(j) == x);
                            }
                        }
                        if old_self.has_key(x) {
                            let j = old_self.index_of(x);
                            assert(self.key_at(j) == x);
                        }
                        if x == kv {
                            assert(self.key_at(i as int) == x);
                        }
                    }
                    assert forall|x: Seq<char>| #[trigger] self.map().contains_key(x) implies self.map()[x] == old_self.map().insert(kv, vv)[x] by {
                        let j = self.index_of(x);
                        self.lemma_map_at(j);
                        if j != i {
                            old_self.lemma_map_at(j);
                        }
                    }
                    assert(self.map() =~= old_self.map().insert(kv, vv));
                    assert(self.pairs() =~= old_self.pairs().update(i as int, (kv, vv)));
                    assert(self.entry_seq() =~= old_self.entry_seq().update(i as int, (kk, vvv)));
                }
            },
            None => {
                self.entries.push((k, v));
                proof {
                    let n = old_self.len() as int;
                    assert(self.key_at(n) == kv);
                    assert(self.wf()) by {
                        assert forall|a: int, b: int|
                            0 <= a < self.len() && 0 <= b < self.len() && a != b implies #[trigger] self.key_at(a)
                            != #[trigger] self.key_at(b) by {
                            if a < n && b < n {
                                assert(old_self.key_at(a) != old_self.key_at(b));
                            } else if a < n {
                                assert(old_self.key_at(a) == self.key_at(a));
                            } else {
                                assert(old_self.key_at(b) == self.key_at(b));
                            }
                        }
                    }
                    assert forall|x: Seq<char>| #[trigger] self.map().contains_key(x) <==> old_self.map().insert(kv, vv).contains_key(x) by {
                        if self.has_key(x) {
                            let j = self.index_of(x);
                            if j != n {
                                assert(old_self.key_at(j) == x);
                            }
                        }
                        if old_self.has_key(x) {
                            let j = old_self.index_of(x);
                            assert(self.key_at(j) == x);
                        }
                    }
                    assert forall|x: Seq<char>| #[trigger] self.map().contains_key(x) implies self.map()[x] == old_self.map().insert(kv, vv)[x] by {
                        let j = self.index_of(x);
                        self.lemma_map_at(j);
                        if j != n {
                            old_self.lemma_map_at(j);
                        }
                    }
                    assert(self.map() =~= old_self.map().insert(kv, vv));
                    assert(self.pairs() =~= old_self.pairs().push((kv, vv)));
                    assert(self.entry_seq() =~= old_self.entry_seq().push((kk, vvv)));
                }
            },
        }
    }

    /// Removes `k` and hands back its value, if it was present.
    pub fn remove(&mut self, k: &String) -> (r: Option<V>)
        requires
            old(self).wf(),
        ensures
            final(self).wf(),
            final(self).map() == old(self).map().remove(k@),
            r is Some == old(self).map().contains_key(k@),
            r matches Some(v) ==> v.deep_view() == old(self).map()[k@] && v == old(self).entry_seq()[old(self).index_of(k@)].1,
            r is None ==> *final(self) == *old(self),
            r is Some ==> final(self).len() + 1 == old(self).len(),
            r is Some ==> final(self).pairs() == old(self).pairs().remove(old(self).index_of(k@)),
            r is Some ==> final(self).entry_seq() == old(self).entry_seq().remove(old(self).index_of(k@)),
    {
        let ghost old_self = *self;
        let ghost kv = k@;
        match self.find(k) {
            Some(i) => {
                let (_key, v) = self.entries.remove(i);
                proof {
                    old_self.lemma_map_at(i as int);
                    let n = old_self.len() as int;
                    assert forall|a: int| 0 <= a < self.len() implies #[trigger] self.key_at(a) == old_self.key_at(
                        if a < i { a } else { a + 1 },
                    ) by {}
                    assert(self.wf()) by {
                        assert forall|a: int, b: int|
                            0 <= a < self.len() && 0 <= b < self.len() && a != b implies #[trigger] self.key_at(a)
                            != #[trigger] self.key_at(b) by {
                            let a2 = if a < i { a } else { a + 1 };
                            let b2 = if b < i { b } else { b + 1 };
                            assert(old_self.key_at(a2) != old_self.key_at(b2));
                        }
                    }
                    assert forall|x: Seq<char>| #[trigger] self.map().contains_key(x) <==> old_self.map().remove(kv).contains_key(x) by {
                        if self.has_key(x) {
                            let j = self.index_of(x);
                            let j2 = if j < i { j } else { j + 1 };
                            assert(old_self.key_at(j2) == x);
                            assert(old_self.key_at(j2) != old_self.key_at(i as int));
                        }
                        if old_self.has_key(x) && x != kv {
                            let j = old_self.index_of(x);
                            assert(j != i);
                            let j2 = if j < i { j } else { j - 1 };
                            assert(self.key_at(j2) == x);
                        }
                    }
                    assert forall|x: Seq<char>| #[trigger] self.map().contains_key(x) implies self.map()[x] == old_self.map().remove(kv)[x] by {
                        let j = self.index_of(x);
                        self.lemma_map_at(j);
                        let j2 = if j < i { j } else { j + 1 };
                        old_self.lemma_map_at(j2);
                    }
                    assert(self.map() =~= old_self.map().remove(kv));
                    assert(self.pairs() =~= old_self.pairs().remove(i as int));
                    assert(self.entry_seq() =~= old_self.entry_seq().remove(i as int));
                }
                Some(v)
            },
            None => {
                proof {
                    assert(old_self.map().remove(kv) =~= old_self.map());
                }
                None
            },
        }
    }
}

impl<V: DeepView> StrMap<V> {
    /// Empties the map and hands back its entries in order.
    pub fn into_entries(self) -> (r: Vec<(String, V)>)
        ensures
            r@ == self.entry_seq(),
    {
        self.entries
    }
}

impl<V: DeepView> View for StrMap<V> {
    type V = Map<Seq<char>, V::V>;

    open spec fn view(&self) -> Map<Seq<char>, V::V> {
        self.map()
    }
}

} // verus!
