use vstd::prelude::*;

use crate::vertex::Vertex;

verus! {

/// Where `needle` stands in a sequence without duplicates, `index_of`
/// finds exactly that position.
pub proof fn lemma_index_of_unique<A>(s: Seq<A>, i: int)
    requires
        s.no_duplicates(),
        0 <= i < s.len(),
    ensures
        s.index_of(s[i]) == i,
{
    assert(s.contains(s[i]));
    let j = s.index_of(s[i]);
    assert(0 <= j < s.len() && s[j] == s[i]);
}

/// All entries of all lists, list after list.
pub open spec fn flatten_entries<E>(s: Seq<Vec<E>>) -> Seq<E>
    decreases s.len(),
{
    if s.len() == 0 {
        Seq::empty()
    } else {
        flatten_entries(s.drop_last()) + s.last()@
    }
}

pub proof fn lemma_flatten_contains<E>(s: Seq<Vec<E>>, i: int, e: E)
    requires
        0 <= i < s.len(),
        s[i]@.contains(e),
    ensures
        flatten_entries(s).contains(e),
    decreases s.len(),
{
    if i == s.len() - 1 {
        let k = s[i]@.index_of(e);
        assert(flatten_entries(s)[flatten_entries(s.drop_last()).len() + k] == e);
    } else {
        lemma_flatten_contains(s.drop_last(), i, e);
        let k = flatten_entries(s.drop_last()).index_of(e);
        assert(flatten_entries(s)[k] == e);
    }
}

/// A finite map from keys to sets of entries, kept as a list of keys and a
/// parallel list of entry lists. A key appears at most once, and so does an
/// entry within one list.
#[derive(Clone, Debug)]
pub struct AdjTable<K, E> {
    pub(crate) keys: Vec<K>,
    pub(crate) entries: Vec<Vec<E>>,
}

impl<K: Vertex, E: Vertex> AdjTable<K, E> {
    pub(crate) open spec fn wf(&self) -> bool {
        &&& self.keys@.len() == self.entries@.len()
        &&& self.keys@.no_duplicates()
        &&& forall|i: int| 0 <= i < self.entries@.len() ==> (#[trigger] self.entries@[i])@.no_duplicates()
    }

    /// The sets of entries, by key.
    pub(crate) open spec fn view(&self) -> Map<K, Set<E>> {
        Map::new(
            |k: K| self.keys@.contains(k),
            |k: K| self.entries@[self.keys@.index_of(k)]@.to_set(),
        )
    }

    /// The entries of `k`, or none where `k` is no key.
    pub(crate) open spec fn entries_at(&self, k: K) -> Set<E> {
        if self.view().contains_key(k) {
            self.view()[k]
        } else {
            Set::empty()
        }
    }

    /// Every entry of every list.
    pub(crate) open spec fn all_entries(&self) -> Seq<E> {
        flatten_entries(self.entries@)
    }

    pub(crate) proof fn lemma_entries_in_all(&self, k: K, e: E)
        requires
            self.wf(),
            self.entries_at(k).contains(e),
        ensures
            self.all_entries().contains(e),
    {
        let i = self.keys@.index_of(k);
        lemma_flatten_contains(self.entries@, i, e);
    }

    pub(crate) fn new() -> (r: Self)
        ensures
            r.wf(),
            r.view() == Map::<K, Set<E>>::empty(),
    {
        let r = AdjTable { keys: Vec::new(), entries: Vec::new() };
        assert(r.view() =~= Map::<K, Set<E>>::empty());
        r
    }

    pub(crate) fn find(&self, k: &K) -> (r: Option<usize>)
        requires
            self.wf(),
        ensures
            match r {
                Some(i) => i < self.keys@.len() && self.keys@[i as int] == *k && self.keys@.index_of(*k) == i,
                None => !self.keys@.contains(*k),
            },
    {
        let mut i: usize = 0;
        while i < self.keys.len()
            invariant
                self.wf(),
                i <= self.keys@.len(),
                forall|j: int| 0 <= j < i ==> self.keys@[j] != *k,
            decreases self.keys@.len() - i,
        {
            if self.keys[i].same(k) {
                proof {
                    lemma_index_of_unique(self.keys@, i as int);
                }
                return Some(i);
            }
            i += 1;
        }
        None
    }

    pub(crate) fn len(&self) -> (r: usize)
        requires
            self.wf(),
        ensures
            r == self.view().dom().len(),
    {
        proof {
            self.keys@.unique_seq_to_set();
            assert(self.view().dom() =~= self.keys@.to_set());
        }
        self.keys.len()
    }

    pub(crate) fn key_list(&self) -> (r: Vec<K>)
        requires
            self.wf(),
        ensures
            r@ == self.keys@,
            r@.no_duplicates(),
            r@.to_set() == self.view().dom(),
    {
        let mut r: Vec<K> = Vec::new();
        let mut i: usize = 0;
        while i < self.keys.len()
            invariant
                self.wf(),
                i <= self.keys@.len(),
                r@ == self.keys@.subrange(0, i as int),
            decreases self.keys@.len() - i,
        {
            r.push(self.keys[i].duplicate());
            i += 1;
            assert(r@ =~= self.keys@.subrange(0, i as int));
        }
        assert(r@ =~= self.keys@);
        assert(r@.to_set() =~= self.view().dom());
        r
    }

    pub(crate) fn entries_of(&self, k: &K) -> (r: Vec<E>)
        requires
            self.wf(),
        ensures
            r@.no_duplicates(),
            r@.to_set() == self.entries_at(*k),
    {
        match self.find(k) {
            None => {
                let r: Vec<E> = Vec::new();
                assert(r@.to_set() =~= self.entries_at(*k));
                r
            },
            Some(i) => {
                let list = &self.entries[i];
                let mut r: Vec<E> = Vec::new();
                let mut j: usize = 0;
                while j < list.len()
                    invariant
                        j <= list@.len(),
                        r@ == list@.subrange(0, j as int),
                    decreases list@.len() - j,
                {
                    r.push(list[j].duplicate());
                    j += 1;
                    assert(r@ =~= list@.subrange(0, j as int));
                }
                assert(r@ =~= list@);
                assert(r@.to_set() =~= self.entries_at(*k));
                r
            },
        }
    }

    /// Records `k` with no entries, dropping any it had.
    pub(crate) fn insert_key(&mut self, k: K)
        requires
            old(self).wf(),
        ensures
            final(self).wf(),
            final(self).view() == old(self).view().insert(k, Set::empty()),
    {
        let ghost pre = *self;
        match self.find(&k) {
            Some(i) => {
                self.entries.set(i, Vec::new());
                proof {
                    assert forall|k2: K| #[trigger] self.view().contains_key(k2) implies self.view()[k2]
                        == pre.view().insert(k, Set::empty())[k2] by {
                        let j = self.keys@.index_of(k2);
                        if k2 == k {
                            assert(self.entries@[i as int]@ =~= Seq::<E>::empty());
                        }
                    }
                    assert(self.view() =~= pre.view().insert(k, Set::empty()));
                }
            },
            None => {
                self.keys.push(k);
                self.entries.push(Vec::new());
                proof {
                    let n = pre.keys@.len();
                    assert(self.keys@ == pre.keys@.push(k));
                    assert forall|a: int, b: int|
                        0 <= a < b < self.keys@.len() implies self.keys@[a] != self.keys@[b] by {
                        if b == n {
                            assert(pre.keys@.contains(pre.keys@[a]));
                        }
                    }
                    assert forall|k2: K| #[trigger] self.view().contains_key(k2) implies self.view()[k2]
                        == pre.view().insert(k, Set::empty())[k2] by {
                        if k2 == k {
                            lemma_index_of_unique(self.keys@, n as int);
                            assert(self.entries@[n as int]@ =~= Seq::<E>::empty());
                        } else {
                            let j = pre.keys@.index_of(k2);
                            assert(self.keys@[j] == k2);
                            lemma_index_of_unique(self.keys@, j);
                        }
                    }
                    assert forall|k2: K| #[trigger] pre.view().insert(k, Set::empty()).contains_key(k2)
                        implies self.view().contains_key(k2) by {
                        if k2 == k {
                            assert(self.keys@[n as int] == k);
                        } else {
                            let j = pre.keys@.index_of(k2);
                            assert(self.keys@[j] == k2);
                        }
                    }
                    assert(self.view() =~= pre.view().insert(k, Set::empty()));
                }
            },
        }
    }

    /// Drops `k` and its entries.
    pub(crate) fn remove_key(&mut self, k: &K)
        requires
            old(self).wf(),
        ensures
            final(self).wf(),
            final(self).view() == old(self).view().remove(*k),
    {
        let ghost pre = *self;
        match self.find(k) {
            None => {
                assert(self.view() =~= pre.view().remove(*k));
            },
            Some(i) => {
                self.keys.remove(i);
                self.entries.remove(i);
                proof {
                    assert(self.keys@ == pre.keys@.remove(i as int));
                    assert forall|a: int, b: int|
                        0 <= a < b < self.keys@.len() implies self.keys@[a] != self.keys@[b] by {
                        let a0 = if a < i { a } else { a + 1 };
                        let b0 = if b < i { b } else { b + 1 };
                        assert(self.keys@[a] == pre.keys@[a0]);
                        assert(self.keys@[b] == pre.keys@[b0]);
                    }
                    assert forall|j: int| 0 <= j < self.entries@.len() implies (
                    #[trigger] self.entries@[j])@.no_duplicates() by {
                        let j0 = if j < i { j } else { j + 1 };
                        assert(self.entries@[j] == pre.entries@[j0]);
                    }
                    assert forall|k2: K| #[trigger] pre.view().remove(*k).contains_key(k2) implies self.view().contains_key(k2) by {
                        let j0 = pre.keys@.index_of(k2);
                        let j = if j0 < i { j0 } else { j0 - 1 };
                        assert(self.keys@[j] == k2);
                    }
                    assert forall|k2: K| #[trigger] self.view().contains_key(k2) implies self.view()[k2]
                        == pre.view()[k2] && k2 != *k && pre.view().contains_key(k2) by {
                        let j = self.keys@.index_of(k2);
                        let j0 = if j < i { j } else { j + 1 };
                        assert(pre.keys@[j0] == k2);
                        lemma_index_of_unique(pre.keys@, j0);
                    }
                    assert(self.view() =~= pre.view().remove(*k));
                }
            },
        }
    }

    /// Position of `e` in the list at `i`, if it is there.
    fn find_entry(&self, i: usize, e: &E) -> (r: Option<usize>)
        requires
            self.wf(),
            i < self.entries@.len(),
        ensures
            match r {
                Some(j) => j < self.entries@[i as int]@.len() && self.entries@[i as int]@[j as int] == *e,
                None => !self.entries@[i as int]@.contains(*e),
            },
    {
        let list = &self.entries[i];
        let mut j: usize = 0;
        while j < list.len()
            invariant
                i < self.entries@.len(),
                list == self.entries@[i as int],
                j <= list@.len(),
                forall|t: int| 0 <= t < j ==> list@[t] != *e,
            decreases list@.len() - j,
        {
            if list[j].same(e) {
                return Some(j);
            }
            j += 1;
        }
        None
    }

    /// Adds `e` to the entries of `k`, where `k` is a key.
    pub(crate) fn add_entry(&mut self, k: &K, e: E)
        requires
            old(self).wf(),
        ensures
            final(self).wf(),
            old(self).view().contains_key(*k) ==> final(self).view() == old(self).view().insert(
                *k,
                old(self).view()[*k].insert(e),
            ),
            !old(self).view().contains_key(*k) ==> final(self).view() == old(self).view(),
    {
        let ghost pre = *self;
        if let Some(i) = self.find(k) {
            if self.find_entry(i, &e).is_none() {
                let ghost e0 = e;
                let mut list = self.entries.remove(i);
                list.push(e);
                self.entries.insert(i, list);
                proof {
                    assert(self.entries@ == pre.entries@.update(i as int, self.entries@[i as int]));
                    assert(self.entries@[i as int]@ == pre.entries@[i as int]@.push(e0));
                    assert forall|j: int| 0 <= j < self.entries@.len() implies (
                    #[trigger] self.entries@[j])@.no_duplicates() by {
                        if j == i {
                            assert forall|a: int, b: int|
                                0 <= a < b < self.entries@[j]@.len() implies self.entries@[j]@[a]
                                != self.entries@[j]@[b] by {
                                if b == pre.entries@[j]@.len() {
                                    assert(pre.entries@[j]@.contains(pre.entries@[j]@[a]));
                                }
                            }
                        }
                    }
                    assert forall|k2: K| #[trigger] self.view().contains_key(k2) implies self.view()[k2]
                        == pre.view().insert(*k, pre.view()[*k].insert(e0))[k2] by {
                        if k2 == *k {
                            let after = self.entries@[i as int]@;
                            let before = pre.entries@[i as int]@;
                            assert forall|x: E| after.contains(x) <==> before.to_set().insert(e0).contains(x) by {
                                if after.contains(x) {
                                    let t = after.index_of(x);
                                    if t < before.len() {
                                        assert(before[t] == x);
                                    }
                                }
                                if before.contains(x) {
                                    let t = before.index_of(x);
                                    assert(after[t] == x);
                                }
                                if x == e0 {
                                    assert(after[before.len() as int] == x);
                                }
                            }
                            assert(self.view()[k2] =~= pre.view()[*k].insert(e0));
                        }
                    }
                    assert(self.view() =~= pre.view().insert(*k, pre.view()[*k].insert(e0)));
                }
            } else {
                proof {
                    assert(pre.view()[*k].insert(e) =~= pre.view()[*k]);
                    assert(self.view() =~= pre.view().insert(*k, pre.view()[*k].insert(e)));
                }
            }
        }
    }

    /// Takes `e` out of the entries of `k`.
    pub(crate) fn remove_entry(&mut self, k: &K, e: &E)
        requires
            old(self).wf(),
        ensures
            final(self).wf(),
            old(self).view().contains_key(*k) ==> final(self).view() == old(self).view().insert(
                *k,
                old(self).view()[*k].remove(*e),
            ),
            !old(self).view().contains_key(*k) ==> final(self).view() == old(self).view(),
    {
        let ghost pre = *self;
        if let Some(i) = self.find(k) {
            if let Some(j) = self.find_entry(i, e) {
                let mut list = self.entries.remove(i);
                let ghost before = list@;
                list.remove(j);
                self.entries.insert(i, list);
                proof {
                    let after = self.entries@[i as int]@;
                    assert(self.entries@ == pre.entries@.update(i as int, self.entries@[i as int]));
                    assert(after == before.remove(j as int));
                    assert(before == pre.entries@[i as int]@);
                    assert(before.no_duplicates());
                    assert forall|a: int, b: int|
                        0 <= a < b < after.len() implies after[a] != after[b] by {
                        let a0 = if a < j { a } else { a + 1 };
                        let b0 = if b < j { b } else { b + 1 };
                        assert(after[a] == before[a0]);
                        assert(after[b] == before[b0]);
                    }
                    assert forall|x: E| after.contains(x) <==> before.to_set().remove(*e).contains(x) by {
                        if after.contains(x) {
                            let t = after.index_of(x);
                            let t0 = if t < j { t } else { t + 1 };
                            assert(before[t0] == x);
                        }
                        if before.contains(x) && x != *e {
                            let t0 = before.index_of(x);
                            let t = if t0 < j { t0 } else { t0 - 1 };
                            assert(after[t] == x);
                        }
                    }
                    assert(after.to_set() =~= before.to_set().remove(*e));
                    assert forall|k2: K| #[trigger] self.view().contains_key(k2) implies self.view()[k2]
                        == pre.view().insert(*k, pre.view()[*k].remove(*e))[k2] by {
                        if k2 == *k {
                            assert(self.view()[k2] =~= pre.view()[*k].remove(*e));
                        }
                    }
                    assert(self.view() =~= pre.view().insert(*k, pre.view()[*k].remove(*e)));
                }
            } else {
                proof {
                    assert(pre.view()[*k].remove(*e) =~= pre.view()[*k]);
                    assert(self.view() =~= pre.view().insert(*k, pre.view()[*k].remove(*e)));
                }
            }
        }
    }
}

} // verus!
