use vstd::prelude::*;

verus! {

/// A value that can stand for a node of a graph: it can be told apart from
/// another node and copied.
pub trait Vertex: Sized {
    /// True exactly when the two nodes are the same.
    fn same(&self, other: &Self) -> (r: bool)
        ensures
            r == (*self == *other),
    ;

    /// A copy of the node.
    fn duplicate(&self) -> (r: Self)
        ensures
            r == *self,
    ;
}

impl Vertex for i32 {
    fn same(&self, other: &Self) -> (r: bool) {
        *self == *other
    }

    fn duplicate(&self) -> (r: Self) {
        *self
    }
}

impl Vertex for i64 {
    fn same(&self, other: &Self) -> (r: bool) {
        *self == *other
    }

    fn duplicate(&self) -> (r: Self) {
        *self
    }
}

impl Vertex for u32 {
    fn same(&self, other: &Self) -> (r: bool) {
        *self == *other
    }

    fn duplicate(&self) -> (r: Self) {
        *self
    }
}

impl Vertex for u64 {
    fn same(&self, other: &Self) -> (r: bool) {
        *self == *other
    }

    fn duplicate(&self) -> (r: Self) {
        *self
    }
}

impl Vertex for u128 {
    fn same(&self, other: &Self) -> (r: bool) {
        *self == *other
    }

    fn duplicate(&self) -> (r: Self) {
        *self
    }
}

impl Vertex for usize {
    fn same(&self, other: &Self) -> (r: bool) {
        *self == *other
    }

    fn duplicate(&self) -> (r: Self) {
        *self
    }
}

/// Relies on `<str as PartialEq>::eq`: two string slices are equal exactly
/// when they hold the same text.
#[verifier::external_body]
fn str_equal(a: &str, b: &str) -> (r: bool)
    ensures
        r == (a == b),
{
    a == b
}

impl<'a> Vertex for &'a str {
    fn same(&self, other: &Self) -> (r: bool) {
        str_equal(*self, *other)
    }

    fn duplicate(&self) -> (r: Self) {
        *self
    }
}

/// Weighted adjacency entries are nodes paired with an edge weight.
impl<T: Vertex> Vertex for (T, i64) {
    fn same(&self, other: &Self) -> (r: bool) {
        self.0.same(&other.0) && self.1 == other.1
    }

    fn duplicate(&self) -> (r: Self) {
        (self.0.duplicate(), self.1)
    }
}

/// The first position of `x` in `v`, if it is there.
pub fn find_in<T: Vertex>(v: &Vec<T>, x: &T) -> (r: Option<usize>)
    ensures
        match r {
            Some(i) => i < v@.len() && v@[i as int] == *x && forall|j: int| 0 <= j < i ==> v@[j] != *x,
            None => !v@.contains(*x),
        },
{
    let mut i: usize = 0;
    while i < v.len()
        invariant
            i <= v@.len(),
            forall|j: int| 0 <= j < i ==> v@[j] != *x,
        decreases v@.len() - i,
    {
        if v[i].same(x) {
            return Some(i);
        }
        i += 1;
    }
    None
}

/// A value with a total order, as heap items need.
pub trait Ordered: Vertex {
    spec fn le(self, other: Self) -> bool;

    proof fn lemma_reflexive(x: Self)
        ensures
            x.le(x),
    ;

    proof fn lemma_transitive(x: Self, y: Self, z: Self)
        requires
            x.le(y),
            y.le(z),
        ensures
            x.le(z),
    ;

    proof fn lemma_antisymmetric(x: Self, y: Self)
        requires
            x.le(y),
            y.le(x),
        ensures
            x == y,
    ;

    proof fn lemma_total(x: Self, y: Self)
        ensures
            x.le(y) || y.le(x),
    ;

    fn less_eq(&self, other: &Self) -> (r: bool)
        ensures
            r == self.le(*other),
    ;
}

impl Ordered for i32 {
    open spec fn le(self, other: Self) -> bool {
        self <= other
    }

    proof fn lemma_reflexive(x: Self) {
    }

    proof fn lemma_transitive(x: Self, y: Self, z: Self) {
    }

    proof fn lemma_antisymmetric(x: Self, y: Self) {
    }

    proof fn lemma_total(x: Self, y: Self) {
    }

    fn less_eq(&self, other: &Self) -> (r: bool) {
        *self <= *other
    }
}

impl Ordered for i64 {
    open spec fn le(self, other: Self) -> bool {
        self <= other
    }

    proof fn lemma_reflexive(x: Self) {
    }

    proof fn lemma_transitive(x: Self, y: Self, z: Self) {
    }

    proof fn lemma_antisymmetric(x: Self, y: Self) {
    }

    proof fn lemma_total(x: Self, y: Self) {
    }

    fn less_eq(&self, other: &Self) -> (r: bool) {
        *self <= *other
    }
}

impl Ordered for u32 {
    open spec fn le(self, other: Self) -> bool {
        self <= other
    }

    proof fn lemma_reflexive(x: Self) {
    }

    proof fn lemma_transitive(x: Self, y: Self, z: Self) {
    }

    proof fn lemma_antisymmetric(x: Self, y: Self) {
    }

    proof fn lemma_total(x: Self, y: Self) {
    }

    fn less_eq(&self, other: &Self) -> (r: bool) {
        *self <= *other
    }
}

impl Ordered for u64 {
    open spec fn le(self, other: Self) -> bool {
        self <= other
    }

    proof fn lemma_reflexive(x: Self) {
    }

    proof fn lemma_transitive(x: Self, y: Self, z: Self) {
    }

    proof fn lemma_antisymmetric(x: Self, y: Self) {
    }

    proof fn lemma_total(x: Self, y: Self) {
    }

    fn less_eq(&self, other: &Self) -> (r: bool) {
        *self <= *other
    }
}

impl Ordered for u128 {
    open spec fn le(self, other: Self) -> bool {
        self <= other
    }

    proof fn lemma_reflexive(x: Self) {
    }

    proof fn lemma_transitive(x: Self, y: Self, z: Self) {
    }

    proof fn lemma_antisymmetric(x: Self, y: Self) {
    }

    proof fn lemma_total(x: Self, y: Self) {
    }

    fn less_eq(&self, other: &Self) -> (r: bool) {
        *self <= *other
    }
}

impl Ordered for usize {
    open spec fn le(self, other: Self) -> bool {
        self <= other
    }

    proof fn lemma_reflexive(x: Self) {
    }

    proof fn lemma_transitive(x: Self, y: Self, z: Self) {
    }

    proof fn lemma_antisymmetric(x: Self, y: Self) {
    }

    proof fn lemma_total(x: Self, y: Self) {
    }

    fn less_eq(&self, other: &Self) -> (r: bool) {
        *self <= *other
    }
}

/// A copy of every item of `v`, in order.
pub fn copy_all<T: Vertex>(v: &Vec<T>) -> (r: Vec<T>)
    ensures
        r@ == v@,
{
    let mut r: Vec<T> = Vec::new();
    let mut i: usize = 0;
    while i < v.len()
        invariant
            i <= v@.len(),
            r@ == v@.subrange(0, i as int),
        decreases v@.len() - i,
    {
        r.push(v[i].duplicate());
        i += 1;
        assert(r@ =~= v@.subrange(0, i as int));
    }
    assert(r@ =~= v@);
    r
}

/// The first entry of `v` whose first part is `x`, if there is one.
pub fn find_key<T: Vertex, V>(v: &Vec<(T, V)>, x: &T) -> (r: Option<usize>)
    ensures
        match r {
            Some(i) => i < v@.len() && v@[i as int].0 == *x,
            None => forall|j: int| 0 <= j < v@.len() ==> v@[j].0 != *x,
        },
{
    let mut i: usize = 0;
    while i < v.len()
        invariant
            i <= v@.len(),
            forall|j: int| 0 <= j < i ==> v@[j].0 != *x,
        decreases v@.len() - i,
    {
        if v[i].0.same(x) {
            return Some(i);
        }
        i += 1;
    }
    None
}

} // verus!
