//! Symbols with an arity, and values with a sort.
use vstd::prelude::*;
use crate::value::Value;

verus! {

/// A value with an arity: the number of children that it takes.
#[derive(Clone, Copy, Debug, PartialEq, Eq, Hash)]
pub struct Rank<T>(pub T, pub usize);

impl<T> Rank<T> {
    /// The arity.
    pub fn arity(&self) -> (r: usize)
        ensures
            r == self.1,
    {
        self.1
    }
}

impl<T: Value> View for Rank<T> {
    type V = (T::V, usize);

    open spec fn view(&self) -> (T::V, usize) {
        (self.0@, self.1)
    }
}

impl<T: Value> Value for Rank<T> {
    fn same(&self, other: &Self) -> (r: bool) {
        self.1 == other.1 && self.0.same(&other.0)
    }

    fn copy(&self) -> (r: Self) {
        Rank(self.0.copy(), self.1)
    }
}

impl Rank<u64> {
    /// Whether `self` comes before `other`: by arity first, then by value.
    pub fn less(&self, other: &Rank<u64>) -> (r: bool)
        ensures
            r == (self.1 < other.1 || (self.1 == other.1 && self.0 < other.0)),
    {
        self.1 < other.1 || (self.1 == other.1 && self.0 < other.0)
    }
}

/// Something that has a sort of type `T`.
pub trait SortedWith<T> {
    /// The sort, as a value.
    spec fn sort_of(&self) -> T;

    fn sort(&self) -> (r: &T)
        ensures
            *r == self.sort_of(),
    ;
}

impl<A, B> SortedWith<B> for (A, B) {
    open spec fn sort_of(&self) -> B {
        self.1
    }

    fn sort(&self) -> (r: &B) {
        &self.1
    }
}

/// A value together with its sort.
#[derive(Clone, Copy, Debug, PartialEq, Eq, Hash)]
pub struct Sorted<X, T>(pub X, pub T);

impl<X, T> Sorted<X, T> {
    pub fn new(x: X, t: T) -> (r: Sorted<X, T>)
        ensures
            r.0 == x,
            r.1 == t,
    {
        Sorted(x, t)
    }
}

impl Sorted<u64, u64> {
    /// Whether `self` comes before `other`: by sort first, then by value.
    pub fn less(&self, other: &Sorted<u64, u64>) -> (r: bool)
        ensures
            r == (self.1 < other.1 || (self.1 == other.1 && self.0 < other.0)),
    {
        self.1 < other.1 || (self.1 == other.1 && self.0 < other.0)
    }
}

impl<X, T> SortedWith<T> for Sorted<X, T> {
    open spec fn sort_of(&self) -> T {
        self.1
    }

    fn sort(&self) -> (r: &T) {
        &self.1
    }
}

impl<X: Value, T: Value> View for Sorted<X, T> {
    type V = (X::V, T::V);

    open spec fn view(&self) -> (X::V, T::V) {
        (self.0@, self.1@)
    }
}

impl<X: Value, T: Value> Value for Sorted<X, T> {
    fn same(&self, other: &Self) -> (r: bool) {
        self.1.same(&other.1) && self.0.same(&other.0)
    }

    fn copy(&self) -> (r: Self) {
        Sorted(self.0.copy(), self.1.copy())
    }
}

} // verus!
