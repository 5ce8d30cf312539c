//! A binary min-heap kept in a vector whose first slot is an unused
//! sentinel, so that the root sits at index 1, the children of `i` at `2i`
//! and `2i + 1`, and its parent at `i / 2`.

use vstd::prelude::*;
use vstd::multiset::Multiset;
use vstd::relations::{sorted_by, total_ordering};

use crate::vertex::Ordered;

verus! {

broadcast use vstd::seq_lib::group_to_multiset_ensures, vstd::multiset::group_multiset_axioms;

/// `j` lies in the subtree rooted at `root`, `root` itself included.
pub open spec fn in_subtree(root: int, j: int) -> bool
    decreases j,
{
    if j < 1 || j < root {
        false
    } else if j == root {
        true
    } else {
        in_subtree(root, j / 2)
    }
}

/// A child's subtree lies within its parent's.
proof fn lemma_subtree_child(k: int, m: int, j: int)
    requires
        k >= 1,
        m / 2 == k,
        in_subtree(m, j),
    ensures
        in_subtree(k, j),
    decreases j,
{
    assert(in_subtree(k, k));
    if j != m {
        lemma_subtree_child(k, m, j / 2);
    }
}

/// A node of a subtree other than its root lies in the subtree of one of
/// the root's children.
proof fn lemma_subtree_split(k: int, j: int)
    requires
        k >= 1,
        in_subtree(k, j),
        j != k,
    ensures
        in_subtree(2 * k, j) || in_subtree(2 * k + 1, j),
        j >= 2 * k,
    decreases j,
{
    if j / 2 != k {
        lemma_subtree_split(k, j / 2);
        assert(in_subtree(2 * k, j / 2) ==> in_subtree(2 * k, j));
        assert(in_subtree(2 * k + 1, j / 2) ==> in_subtree(2 * k + 1, j));
    }
}

/// Two subtrees that share a node are nested.
proof fn lemma_subtree_nested(a: int, b: int, j: int)
    requires
        1 <= a < b,
        in_subtree(a, j),
        in_subtree(b, j),
    ensures
        in_subtree(a, b),
    decreases j,
{
    if j != b {
        lemma_subtree_nested(a, b, j / 2);
    }
}

/// The subtrees of two siblings share no node.
proof fn lemma_siblings_disjoint(k: int, j: int)
    requires
        k >= 1,
    ensures
        !(in_subtree(2 * k, j) && in_subtree(2 * k + 1, j)),
{
    if in_subtree(2 * k, j) && in_subtree(2 * k + 1, j) {
        lemma_subtree_nested(2 * k, 2 * k + 1, j);
        assert(in_subtree(2 * k, k));
    }
}

/// Every parent is at most each of its children (the sentinel at index 0
/// takes no part).
pub open spec fn is_heap<T: Ordered>(s: Seq<T>) -> bool {
    forall|c: int| 2 <= c < s.len() ==> (#[trigger] s[c / 2]).le(s[c])
}

/// Each item is at most the next.
pub open spec fn is_sorted<T: Ordered>(s: Seq<T>) -> bool {
    forall|i: int, j: int| 0 <= i < j < s.len() ==> (#[trigger] s[i]).le(#[trigger] s[j])
}

/// `x` is at most every item of `m`.
pub open spec fn is_lower_bound<T: Ordered>(x: T, m: Multiset<T>) -> bool {
    forall|y: T| #[trigger] m.contains(y) ==> x.le(y)
}

pub open spec fn swapped<T>(s: Seq<T>, i: int, j: int) -> Seq<T> {
    s.update(i, s[j]).update(j, s[i])
}

proof fn lemma_swap_multiset<T>(s: Seq<T>, i: int, j: int)
    requires
        1 <= i < s.len(),
        1 <= j < s.len(),
    ensures
        swapped(s, i, j).drop_first().to_multiset() == s.drop_first().to_multiset(),
{
    let d = s.drop_first();
    assert(swapped(s, i, j).drop_first() == d.update(i - 1, d[j - 1]).update(j - 1, d[i - 1]));
    if i != j {
        assert(d.update(i - 1, d[j - 1])[j - 1] == d[j - 1]);
    }
    assert(d.update(i - 1, d[j - 1]).update(j - 1, d[i - 1]).to_multiset() =~= d.to_multiset());
}

/// In a heap the root is at most every item.
proof fn lemma_root_least<T: Ordered>(s: Seq<T>, i: int)
    requires
        is_heap(s),
        1 <= i < s.len(),
    ensures
        s[1].le(s[i]),
    decreases i,
{
    if i == 1 {
        T::lemma_reflexive(s[1]);
    } else {
        lemma_root_least(s, i / 2);
        assert(s[i / 2].le(s[i]));
        T::lemma_transitive(s[1], s[i / 2], s[i]);
    }
}

proof fn lemma_root_bounds_heap<T: Ordered>(s: Seq<T>)
    requires
        is_heap(s),
        s.len() > 1,
    ensures
        is_lower_bound(s[1], s.drop_first().to_multiset()),
{
    assert forall|y: T| #[trigger] s.drop_first().to_multiset().contains(y) implies s[1].le(y) by {
        let k = s.drop_first().index_of(y);
        lemma_root_least(s, k + 1);
    }
}

/// After swapping `k` with its smaller child `m` and sinking the item at
/// `m`, the subtree of `k` is in heap order and nothing outside it moved.
proof fn lemma_bubble_down_step<T: Ordered>(s: Seq<T>, t: Seq<T>, u: Seq<T>, k: int, m: int)
    requires
        1 <= k < m < s.len(),
        m == 2 * k || m == 2 * k + 1,
        t == swapped(s, k, m),
        u.len() == t.len(),
        s[m].le(s[2 * k]),
        2 * k + 1 < s.len() ==> s[m].le(s[2 * k + 1]),
        s[m].le(s[k]),
        forall|c: int| 2 <= c < s.len() && c / 2 != k && in_subtree(k, c / 2) ==> (#[trigger] s[c / 2]).le(s[c]),
        forall|c: int| 2 <= c < u.len() && in_subtree(m, c / 2) ==> (#[trigger] u[c / 2]).le(u[c]),
        forall|j: int| 0 <= j < u.len() && !in_subtree(m, j) ==> #[trigger] u[j] == t[j],
        u[m] == t[m] || (2 * m < t.len() && u[m] == t[2 * m]) || (2 * m + 1 < t.len() && u[m] == t[2 * m + 1]),
    ensures
        forall|c: int| 2 <= c < u.len() && in_subtree(k, c / 2) ==> (#[trigger] u[c / 2]).le(u[c]),
        forall|j: int| 0 <= j < u.len() && !in_subtree(k, j) ==> #[trigger] u[j] == s[j],
        u[k] == s[m],
{
    assert(!in_subtree(m, k));
    assert(u[k] == t[k]);
    assert(in_subtree(k, k));
    assert(in_subtree(k, m)) by {
        assert(in_subtree(m, m));
        lemma_subtree_child(k, m, m);
    }
    assert forall|j: int| 0 <= j < u.len() && !in_subtree(k, j) implies #[trigger] u[j] == s[j] by {
        if in_subtree(m, j) {
            lemma_subtree_child(k, m, j);
        }
    }
    assert forall|c: int| 2 <= c < u.len() && in_subtree(k, c / 2) implies (#[trigger] u[c / 2]).le(u[c]) by {
        let o = if m == 2 * k { 2 * k + 1 } else { 2 * k };
        if c / 2 == k {
            if c == m {
                if u[m] == t[m] {
                } else if 2 * m < t.len() && u[m] == t[2 * m] {
                    assert(in_subtree(m, 2 * m)) by { assert(in_subtree(m, m)); }
                    assert(!in_subtree(m, k));
                    assert((2 * m) / 2 == m);
                    assert(s[(2 * m) / 2].le(s[2 * m]));
                } else {
                    assert((2 * m + 1) / 2 == m);
                    assert(s[(2 * m + 1) / 2].le(s[2 * m + 1]));
                }
            } else {
                assert(c == o);
                assert(in_subtree(o, o));
                lemma_siblings_disjoint(k, o);
                assert(!in_subtree(m, c));
                assert(u[c] == t[c]);
            }
        } else {
            lemma_subtree_split(k, c / 2);
            if !in_subtree(m, c / 2) {
                let o = if m == 2 * k { 2 * k + 1 } else { 2 * k };
                assert(in_subtree(o, c / 2));
                assert(in_subtree(o, c));
                lemma_siblings_disjoint(k, c / 2);
                lemma_siblings_disjoint(k, c);
                assert(!in_subtree(m, c));
                assert(u[c] == t[c] && u[c / 2] == t[c / 2]);
                assert(in_subtree(m, m));
                assert(c / 2 != k && c != k && c / 2 != m && c != m);
                assert(s[c / 2].le(s[c]));
            }
        }
    }
}

/// A binary min-heap.
pub struct BinaryHeap<T> {
    items: Vec<T>,
}

impl<T: Ordered + Default> View for BinaryHeap<T> {
    type V = Multiset<T>;

    /// The items held, as a multiset.
    closed spec fn view(&self) -> Multiset<T> {
        self.items@.drop_first().to_multiset()
    }
}

impl<T: Ordered + Default> BinaryHeap<T> {
    /// The representation invariant: a sentinel slot, then a heap.
    /// The unused first slot.
    pub closed spec fn sentinel(&self) -> T {
        self.items@[0]
    }

    pub closed spec fn wf(&self) -> bool {
        self.items@.len() >= 1 && is_heap(self.items@)
    }

    /// Creates an empty heap.
    pub fn new() -> (r: Self)
        ensures
            r.wf(),
            r@ == Multiset::<T>::empty(),
    {
        let r = BinaryHeap { items: vec![T::default()] };
        assert(r.items@.drop_first() =~= Seq::<T>::empty());
        r
    }

    /// Builds a heap holding the items of `source`, in linear time.
    pub fn from_slice(source: &[T]) -> (r: Self)
        requires
            source@.len() < usize::MAX,
        ensures
            r.wf(),
            r@ == source@.to_multiset(),
    {
        BinaryHeap { items: Self::heapify(source) }
    }

    /// A sentinel followed by the items of `source` in heap order.
    fn heapify(source: &[T]) -> (r: Vec<T>)
        requires
            source@.len() < usize::MAX,
        ensures
            r@.len() == source@.len() + 1,
            is_heap(r@),
            r@.drop_first().to_multiset() == source@.to_multiset(),
    {
        let n = source.len();
        let mut inner: Vec<T> = Vec::with_capacity(n + 1);
        inner.push(T::default());
        let mut i: usize = 0;
        while i < n
            invariant
                n == source@.len(),
                inner@.len() == i + 1,
                i <= n,
                inner@.drop_first() == source@.subrange(0, i as int),
            decreases n - i,
        {
            inner.push(source[i].duplicate());
            i += 1;
            assert(inner@.drop_first() =~= source@.subrange(0, i as int));
        }
        assert(source@.subrange(0, n as int) =~= source@);
        let mut k: usize = n / 2 + 1;
        while k > 1
            invariant
                1 <= k <= n / 2 + 1,
                n < usize::MAX,
                inner@.len() == n + 1,
                inner@.drop_first().to_multiset() == source@.to_multiset(),
                forall|c: int| 2 <= c < inner@.len() && c / 2 >= k ==> (#[trigger] inner@[c / 2]).le(
                    inner@[c],
                ),
            decreases k,
        {
            k -= 1;
            Self::bubble_down(&mut inner, k);
        }
        inner
    }

    /// The parent of `index`, or `None` at the root.
    fn parent_index(index: usize) -> (r: Option<usize>)
        requires
            index >= 1,
        ensures
            index == 1 ==> r == None::<usize>,
            index > 1 ==> r == Some((index / 2) as usize),
    {
        if index == 1 {
            None
        } else {
            Some(index / 2)
        }
    }

    fn left_child_index(index: usize) -> (r: usize)
        requires
            index <= usize::MAX / 2,
        ensures
            r == 2 * index,
    {
        index * 2
    }

    fn swap_items(inner: &mut Vec<T>, i: usize, j: usize)
        requires
            1 <= i < old(inner)@.len(),
            1 <= j < old(inner)@.len(),
        ensures
            final(inner)@ == swapped(old(inner)@, i as int, j as int),
            final(inner)@.drop_first().to_multiset() == old(inner)@.drop_first().to_multiset(),
    {
        proof {
            lemma_swap_multiset(inner@, i as int, j as int);
        }
        let a = inner[i].duplicate();
        let b = inner[j].duplicate();
        inner.set(i, b);
        inner.set(j, a);
    }

    /// Moves the item at `index` up until its parent is no larger.
    fn bubble_up(inner: &mut Vec<T>, index: usize)
        requires
            1 <= index < old(inner)@.len(),
            forall|c: int| 2 <= c < old(inner)@.len() && c != index ==> (#[trigger] old(inner)@[c / 2]).le(
                old(inner)@[c],
            ),
            index >= 2 ==> forall|c: int| 2 <= c < old(inner)@.len() && c / 2 == index ==> old(inner)@[(index / 2) as int].le(
                #[trigger] old(inner)@[c],
            ),
        ensures
            final(inner)@.len() == old(inner)@.len(),
            final(inner)@[0] == old(inner)@[0],
            is_heap(final(inner)@),
            final(inner)@.drop_first().to_multiset() == old(inner)@.drop_first().to_multiset(),
        decreases index,
    {
        let ghost s = inner@;
        if let Some(parent) = Self::parent_index(index) {
            if !inner[parent].less_eq(&inner[index]) {
                proof {
                    T::lemma_total(s[parent as int], s[index as int]);
                }
                Self::swap_items(inner, index, parent);
                proof {
                    let t = inner@;
                    let p = parent as int;
                    let k = index as int;
                    assert forall|c: int| 2 <= c < t.len() && c != p implies (#[trigger] t[c / 2]).le(t[c]) by {
                        if c == k {
                        } else if c / 2 == k {
                            assert(s[k / 2].le(s[c]));
                        } else if c / 2 == p {
                            assert(s[p].le(s[c]));
                            T::lemma_transitive(s[k], s[p], s[c]);
                        } else {
                            assert(s[c / 2].le(s[c]));
                        }
                    }
                    if p >= 2 {
                        assert forall|c: int| 2 <= c < t.len() && c / 2 == p implies t[p / 2].le(#[trigger] t[c]) by {
                            assert(s[p / 2].le(s[p]));
                            if c != k {
                                assert(s[p].le(s[c]));
                                T::lemma_transitive(s[p / 2], s[p], s[c]);
                            }
                        }
                    }
                }
                Self::bubble_up(inner, parent);
            }
        }
    }

    /// Moves the item at `index` down, swapping it with its smaller child,
    /// until no child is smaller. Both subtrees below `index` must already be
    /// in heap order; nothing outside the subtree of `index` moves. An
    /// `index` past the end changes nothing.
    fn bubble_down(inner: &mut Vec<T>, index: usize)
        requires
            1 <= index,
            old(inner)@.len() <= usize::MAX,
            forall|c: int|
                2 <= c < old(inner)@.len() && c / 2 != index && in_subtree(index as int, c / 2)
                    ==> (#[trigger] old(inner)@[c / 2]).le(old(inner)@[c]),
        ensures
            final(inner)@.len() == old(inner)@.len(),
            final(inner)@.drop_first().to_multiset() == old(inner)@.drop_first().to_multiset(),
            forall|c: int| 2 <= c < final(inner)@.len() && in_subtree(index as int, c / 2)
                ==> (#[trigger] final(inner)@[c / 2]).le(final(inner)@[c]),
            forall|j: int| 0 <= j < final(inner)@.len() && !in_subtree(index as int, j) ==> #[trigger] final(inner)@[j]
                == old(inner)@[j],
            index < old(inner)@.len() ==> (final(inner)@[index as int] == old(inner)@[index as int] || (2 * index
                < old(inner)@.len() && final(inner)@[index as int] == old(inner)@[2 * index]) || (2 * index + 1
                < old(inner)@.len() && final(inner)@[index as int] == old(inner)@[2 * index + 1])),
        decreases old(inner)@.len() - index,
    {
        let ghost s = inner@;
        let len = inner.len();
        if index >= len || index > (len - 1) / 2 {
            // no children
            proof {
                let k = index as int;
                assert forall|c: int| 2 <= c < s.len() && in_subtree(k, c / 2) implies (#[trigger] s[c / 2]).le(s[c]) by {
                    if c / 2 != k {
                        lemma_subtree_split(k, c / 2);
                    }
                }
            }
            return;
        }
        let left = Self::left_child_index(index);
        let mut min_index = index;
        if !inner[min_index].less_eq(&inner[left]) {
            min_index = left;
        }
        proof {
            let k = index as int;
            let m1 = min_index as int;
            T::lemma_total(s[k], s[2 * k]);
            T::lemma_reflexive(s[2 * k]);
            assert(s[m1].le(s[2 * k]));
            assert(m1 != k ==> s[m1].le(s[k]));
        }
        let ghost m1 = min_index as int;
        if left + 1 < len {
            if !inner[min_index].less_eq(&inner[left + 1]) {
                min_index = left + 1;
            }
        }
        proof {
            let k = index as int;
            let m = min_index as int;
            if 2 * k + 1 < s.len() {
                T::lemma_total(s[m1], s[2 * k + 1]);
                T::lemma_reflexive(s[2 * k + 1]);
                if m == 2 * k + 1 {
                    T::lemma_transitive(s[m], s[m1], s[2 * k]);
                    if m1 == k {
                    } else {
                        T::lemma_transitive(s[m], s[m1], s[k]);
                    }
                }
            }
            assert(s[m].le(s[2 * k]));
            assert(2 * k + 1 < s.len() ==> s[m].le(s[2 * k + 1]));
            assert(m != k ==> s[m].le(s[k]));
        }
        if min_index != index {
            Self::swap_items(inner, index, min_index);
            let ghost t = inner@;
            proof {
                let k = index as int;
                let m = min_index as int;
                assert forall|c: int| 2 <= c < t.len() && c / 2 != m && in_subtree(m, c / 2) implies (#[trigger] t[c
                    / 2]).le(t[c]) by {
                    lemma_subtree_split(m, c / 2);
                    lemma_subtree_child(k, m, c / 2);
                    assert(s[c / 2].le(s[c]));
                }
            }
            Self::bubble_down(inner, min_index);
            proof {
                lemma_bubble_down_step(s, t, inner@, index as int, min_index as int);
            }
        } else {
            proof {
                let k = index as int;
                assert forall|c: int| 2 <= c < s.len() && in_subtree(k, c / 2) implies (#[trigger] s[c / 2]).le(s[c]) by {
                }
            }
        }
    }

    /// Inserts `item`, keeping heap order.
    pub fn insert(&mut self, item: T)
        requires
            old(self).wf(),
            old(self)@.len() < usize::MAX - 1,
        ensures
            final(self).wf(),
            final(self).sentinel() == old(self).sentinel(),
            final(self)@ == old(self)@.insert(item),
    {
        proof {
            vstd::seq_lib::to_multiset_len(self.items@.drop_first());
        }
        let ghost pre = self.items@;
        self.items.push(item);
        assert(self.items@.drop_first() == pre.drop_first().push(item));
        let n = self.items.len() - 1;
        Self::bubble_up(&mut self.items, n);
    }

    /// Removes one occurrence of `item`, if the heap holds it.
    pub fn remove(&mut self, item: &T)
        requires
            old(self).wf(),
        ensures
            final(self).wf(),
            final(self).sentinel() == old(self).sentinel(),
            final(self)@ == old(self)@.remove(*item),
    {
        match self.search(item, 1) {
            Some(i) => {
                let _ = self.remove_at(i);
            },
            None => {
                assert(!self.items@.drop_first().contains(*item)) by {
                    if self.items@.drop_first().contains(*item) {
                        let t = self.items@.drop_first().index_of(*item);
                        assert(self.items@[t + 1] == *item);
                    }
                }
                assert(self@.remove(*item) =~= self@);
            },
        }
    }

    /// The smallest item, if any.
    pub fn min(&self) -> (r: Option<&T>)
        requires
            self.wf(),
        ensures
            match r {
                None => self@.len() == 0,
                Some(x) => self@.contains(*x) && is_lower_bound(*x, self@),
            },
    {
        if self.items.len() > 1 {
            proof {
                lemma_root_bounds_heap(self.items@);
                assert(self.items@.drop_first()[0] == self.items@[1]);
            }
            Some(&self.items[1])
        } else {
            assert(self.items@.drop_first() =~= Seq::<T>::empty());
            None
        }
    }

    /// Removes and returns the smallest item. The heap must not be empty.
    pub fn extract_min(&mut self) -> (r: T)
        requires
            old(self).wf(),
            old(self)@.len() > 0,
        ensures
            final(self).wf(),
            final(self).sentinel() == old(self).sentinel(),
            old(self)@.contains(r),
            is_lower_bound(r, old(self)@),
            final(self)@ == old(self)@.remove(r),
    {
        proof {
            vstd::seq_lib::to_multiset_len(self.items@.drop_first());
            lemma_root_bounds_heap(self.items@);
            assert(self.items@.drop_first()[0] == self.items@[1]);
        }
        self.remove_at(1)
    }

    /// The first index at or after `index` that holds `item`.
    fn search(&self, item: &T, index: usize) -> (r: Option<usize>)
        requires
            self.wf(),
            index >= 1,
        ensures
            match r {
                Some(i) => index <= i < self.items@.len() && self.items@[i as int] == *item,
                None => forall|j: int| index <= j < self.items@.len() ==> self.items@[j] != *item,
            },
    {
        let mut i = index;
        while i < self.items.len()
            invariant
                index <= i,
                forall|j: int| index <= j < i && j < self.items@.len() ==> self.items@[j] != *item,
            decreases self.items@.len() - i,
        {
            if self.items[i].same(item) {
                return Some(i);
            }
            i += 1;
        }
        None
    }

    /// Removes and returns the item at `index`, keeping heap order.
    fn remove_at(&mut self, index: usize) -> (r: T)
        requires
            old(self).wf(),
            1 <= index < old(self).items@.len(),
        ensures
            final(self).wf(),
            final(self).sentinel() == old(self).sentinel(),
            r == old(self).items@[index as int],
            final(self)@ == old(self)@.remove(r),
    {
        let ghost s0 = self.items@;
        let n = self.items.len() - 1;
        Self::swap_items(&mut self.items, index, n);
        let ghost s1 = self.items@;
        let val = self.items.pop().unwrap();
        proof {
            let d = s1.drop_first();
            assert(self.items@.drop_first() == d.remove(d.len() - 1));
            assert(d[d.len() - 1] == val);
        }
        if index < self.items.len() {
            let ghost s = self.items@;
            let parent_ok = match Self::parent_index(index) {
                None => true,
                Some(p) => self.items[p].less_eq(&self.items[index]),
            };
            if !parent_ok {
                proof {
                    let k = index as int;
                    T::lemma_total(s[k / 2], s[k]);
                    assert(s0[k / 2].le(s0[k]));
                    assert forall|c: int| 2 <= c < s.len() && c != k implies (#[trigger] s[c / 2]).le(s[c]) by {
                        if c / 2 == k {
                            assert(s0[k].le(s0[c]));
                            T::lemma_transitive(s[k], s0[k / 2], s0[k]);
                            T::lemma_transitive(s[k], s0[k], s0[c]);
                        } else {
                            assert(s0[c / 2].le(s0[c]));
                        }
                    }
                    assert forall|c: int| 2 <= c < s.len() && c / 2 == k implies s[k / 2].le(#[trigger] s[c]) by {
                        assert(s0[k].le(s0[c]));
                        T::lemma_transitive(s0[k / 2], s0[k], s0[c]);
                    }
                }
                Self::bubble_up(&mut self.items, index);
            } else {
                proof {
                    let k = index as int;
                    assert forall|c: int| 2 <= c < s.len() && c / 2 != k && in_subtree(k, c / 2) implies (#[trigger] s[c
                        / 2]).le(s[c]) by {
                        lemma_subtree_split(k, c / 2);
                        assert(s0[c / 2].le(s0[c]));
                    }
                }
                Self::bubble_down(&mut self.items, index);
                proof {
                    let k = index as int;
                    let u = self.items@;
                    assert forall|c: int| 2 <= c < u.len() implies (#[trigger] u[c / 2]).le(u[c]) by {
                        if !in_subtree(k, c / 2) {
                            if c == k {
                                if u[k] == s[k] {
                                } else if 2 * k < s.len() && u[k] == s[2 * k] {
                                    assert((2 * k) / 2 == k);
                                    assert(s0[(2 * k) / 2].le(s0[2 * k]));
                                    T::lemma_transitive(s0[k / 2], s0[k], s0[2 * k]);
                                } else {
                                    assert((2 * k + 1) / 2 == k);
                                    assert(s0[(2 * k + 1) / 2].le(s0[2 * k + 1]));
                                    T::lemma_transitive(s0[k / 2], s0[k], s0[2 * k + 1]);
                                }
                            } else {
                                assert(!in_subtree(k, c));
                                assert(u[c] == s[c]);
                                assert(u[c / 2] == s[c / 2]);
                                assert(c / 2 != k) by {
                                    assert(in_subtree(k, k));
                                }
                                assert(s0[c / 2].le(s0[c]));
                            }
                        }
                    }
                }
            }
        } else {
            proof {
                let s = self.items@;
                assert forall|c: int| 2 <= c < s.len() implies (#[trigger] s[c / 2]).le(s[c]) by {
                    assert(s0[c / 2].le(s0[c]));
                }
            }
        }
        val
    }

    /// The number of items held.
    pub fn len(&self) -> (r: usize)
        requires
            self.wf(),
        ensures
            r == self@.len(),
    {
        proof {
            vstd::seq_lib::to_multiset_len(self.items@.drop_first());
        }
        self.items.len() - 1
    }

    /// The items held, smallest first.
    pub fn into_sorted_vec(self) -> (r: Vec<T>)
        requires
            self.wf(),
        ensures
            is_sorted(r@),
            r@.to_multiset() == self@,
    {
        let mut heap = self;
        let n = heap.len();
        let mut res: Vec<T> = Vec::with_capacity(n);
        let mut i: usize = 0;
        while i < n
            invariant
                heap.wf(),
                n == self@.len(),
                i <= n,
                heap@.len() == n - i,
                is_sorted(res@),
                res@.to_multiset().add(heap@) == self@,
                forall|x: T| #[trigger] res@.contains(x) ==> is_lower_bound(x, heap@),
            decreases n - i,
        {
            let ghost h0 = heap@;
            let ghost r0 = res@;
            let m = heap.extract_min();
            proof {
                assert(h0.contains(m));
            }
            res.push(m);
            i += 1;
            proof {
                assert(res@ == r0.push(m));
                assert(res@.to_multiset() == r0.to_multiset().insert(m));
                assert(res@.to_multiset().add(heap@) =~= r0.to_multiset().add(h0));
                assert forall|a: int, b: int| 0 <= a < b < res@.len() implies (#[trigger] res@[a]).le(#[trigger] res@[b]) by {
                    if b == r0.len() {
                        assert(r0.contains(r0[a]));
                        assert(is_lower_bound(r0[a], h0));
                    } else {
                        assert(r0[a].le(r0[b]));
                    }
                }
                assert forall|x: T| #[trigger] res@.contains(x) implies is_lower_bound(x, heap@) by {
                    assert forall|y: T| #[trigger] heap@.contains(y) implies x.le(y) by {
                        assert(h0.contains(y));
                        if x == m {
                        } else {
                            let t = res@.index_of(x);
                            assert(r0[t] == x);
                            assert(r0.contains(x));
                        }
                    }
                }
            }
        }
        proof {
            assert(heap@ =~= Multiset::<T>::empty());
            assert(res@.to_multiset().add(heap@) =~= res@.to_multiset());
        }
        res
    }
}

/// Sorts `list` in place, by building a heap of its items and draining it.
pub fn heapsort<T: Ordered + Default>(list: &mut Vec<T>)
    requires
        old(list)@.len() < usize::MAX,
    ensures
        is_sorted(final(list)@),
        final(list)@.to_multiset() == old(list)@.to_multiset(),
{
    *list = BinaryHeap::from_slice(list.as_slice()).into_sorted_vec();
}

/// Sorting is unique: two sorted sequences with the same items are the same
/// sequence. So what `into_sorted_vec` and `heapsort` return is exactly what
/// any other correct sort returns on the same items.
pub proof fn lemma_sorted_is_unique<T: Ordered>(a: Seq<T>, b: Seq<T>)
    requires
        is_sorted(a),
        is_sorted(b),
        a.to_multiset() == b.to_multiset(),
    ensures
        a == b,
{
    let leq = |x: T, y: T| x.le(y);
    assert forall|x: T| #[trigger] leq(x, x) by {
        T::lemma_reflexive(x);
    }
    assert forall|x: T, y: T| #[trigger] leq(x, y) && #[trigger] leq(y, x) implies x == y by {
        T::lemma_antisymmetric(x, y);
    }
    assert forall|x: T, y: T, z: T| #[trigger] leq(x, y) && #[trigger] leq(y, z) implies leq(x, z) by {
        T::lemma_transitive(x, y, z);
    }
    assert forall|x: T, y: T| #[trigger] leq(x, y) || #[trigger] leq(y, x) by {
        T::lemma_total(x, y);
    }
    assert(total_ordering(leq));
    assert(sorted_by(a, leq));
    assert(sorted_by(b, leq));
    vstd::seq_lib::lemma_sorted_unique(a, b, leq);
}

} // verus!
