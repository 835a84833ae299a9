//! Combinatorial enumerations: cartesian products, products with missing
//! slots, and a fair multiplexer.
use vstd::prelude::*;
use crate::value::{Value, views};

verus! {

/// A counter with one digit per slot; the last digit varies fastest. Digit
/// `i` ranges over `0..=limits[i]`.
pub struct Odometer {
    pub limits: Vec<usize>,
    pub cursor: Vec<usize>,
    pub done: bool,
}

/// Whether `c` is the last tuple of digits: every digit is at its limit.
pub open spec fn is_last(limits: Seq<usize>, c: Seq<usize>) -> bool {
    forall|i: int| 0 <= i < c.len() ==> c[i] == limits[i]
}

/// Whether `d` is the tuple that comes right after `c` in lexicographic
/// order, digit `p` being the one that is raised.
pub open spec fn follows_at(limits: Seq<usize>, c: Seq<usize>, d: Seq<usize>, p: int) -> bool {
    &&& 0 <= p < c.len()
    &&& d.len() == c.len()
    &&& c[p] < limits[p]
    &&& d[p] == c[p] + 1
    &&& forall|i: int| 0 <= i < p ==> d[i] == c[i]
    &&& forall|i: int| p < i < c.len() ==> c[i] == limits[i] && d[i] == 0
}

/// Whether `d` is the tuple that comes right after `c`.
pub open spec fn follows(limits: Seq<usize>, c: Seq<usize>, d: Seq<usize>) -> bool {
    exists|p: int| follows_at(limits, c, d, p)
}

/// The number of tuples of digits within the limits.
pub open spec fn count(limits: Seq<usize>) -> nat
    decreases limits.len(),
{
    if limits.len() == 0 {
        1
    } else {
        (count(limits.drop_last()) * (limits.last() + 1)) as nat
    }
}

/// The place of the tuple `c` in lexicographic order, counted from zero:
/// its value as a number in mixed radix.
pub open spec fn rank(limits: Seq<usize>, c: Seq<usize>) -> nat
    decreases c.len(),
{
    if c.len() == 0 || limits.len() == 0 {
        0
    } else {
        (rank(limits.drop_last(), c.drop_last()) * (limits.last() + 1) + c.last()) as nat
    }
}

/// Whether `c` has one digit per slot, each within its limit.
pub open spec fn within(limits: Seq<usize>, c: Seq<usize>) -> bool {
    &&& c.len() == limits.len()
    &&& forall|i: int| 0 <= i < c.len() ==> c[i] <= limits[i]
}

/// A tuple within the limits has a rank below the number of tuples.
pub proof fn lemma_rank_bound(limits: Seq<usize>, c: Seq<usize>)
    requires
        within(limits, c),
    ensures
        rank(limits, c) < count(limits),
    decreases c.len(),
{
    if c.len() > 0 {
        let l = limits.drop_last();
        let d = c.drop_last();
        assert(within(l, d));
        lemma_rank_bound(l, d);
        let base = (limits.last() + 1) as nat;
        let x = rank(l, d);
        let n = count(l);
        let last = c.last() as nat;
        assert(c.last() <= limits.last());
        assert(x * base + last < n * base) by (nonlinear_arith)
            requires
                x < n,
                last < base,
        ;
    }
}

/// The last tuple has the highest rank.
pub proof fn lemma_rank_last(limits: Seq<usize>, c: Seq<usize>)
    requires
        within(limits, c),
        is_last(limits, c),
    ensures
        rank(limits, c) + 1 == count(limits),
    decreases c.len(),
{
    if c.len() > 0 {
        let l = limits.drop_last();
        let d = c.drop_last();
        assert(within(l, d));
        assert(is_last(l, d));
        lemma_rank_last(l, d);
        let base = (limits.last() + 1) as nat;
        let x = rank(l, d);
        let n = count(l);
        assert(c.last() == limits.last());
        assert(x * base + (base - 1) + 1 == n * base) by (nonlinear_arith)
            requires
                x + 1 == n,
        ;
    }
}

/// The tuple of zeros has rank zero.
pub proof fn lemma_rank_zero(limits: Seq<usize>, c: Seq<usize>)
    requires
        c.len() == limits.len(),
        forall|i: int| 0 <= i < c.len() ==> c[i] == 0,
    ensures
        rank(limits, c) == 0,
    decreases c.len(),
{
    if c.len() > 0 {
        lemma_rank_zero(limits.drop_last(), c.drop_last());
        let base = (limits.last() + 1) as nat;
        assert(0 * base == 0) by (nonlinear_arith);
    }
}

/// The tuple that follows has the next rank.
pub proof fn lemma_rank_follows(limits: Seq<usize>, c: Seq<usize>, d: Seq<usize>, p: int)
    requires
        within(limits, c),
        follows_at(limits, c, d, p),
    ensures
        rank(limits, d) == rank(limits, c) + 1,
    decreases c.len(),
{
    let l = limits.drop_last();
    let c1 = c.drop_last();
    let d1 = d.drop_last();
    let base = (limits.last() + 1) as nat;
    if p == c.len() - 1 {
        assert(c1 =~= d1);
    } else {
        assert(within(l, c1));
        assert(follows_at(l, c1, d1, p));
        lemma_rank_follows(l, c1, d1, p);
        let x = rank(l, c1);
        assert(c.last() == limits.last());
        assert(d.last() == 0);
        assert((x + 1) * base + 0 == x * base + (base - 1) + 1) by (nonlinear_arith);
    }
}

/// Two tuples within the limits that have the same rank are the same.
pub proof fn lemma_rank_injective(limits: Seq<usize>, c: Seq<usize>, d: Seq<usize>)
    requires
        within(limits, c),
        within(limits, d),
        rank(limits, c) == rank(limits, d),
    ensures
        c == d,
    decreases c.len(),
{
    if c.len() > 0 {
        let l = limits.drop_last();
        let c1 = c.drop_last();
        let d1 = d.drop_last();
        assert(within(l, c1));
        assert(within(l, d1));
        let base = (limits.last() + 1) as int;
        let x = rank(l, c1) as int;
        let y = rank(l, d1) as int;
        let a = c.last() as int;
        let b = d.last() as int;
        assert(c.last() <= limits.last());
        assert(d.last() <= limits.last());
        assert(x == y && a == b) by (nonlinear_arith)
            requires
                x * base + a == y * base + b,
                0 <= a < base,
                0 <= b < base,
                0 <= x,
                0 <= y,
        ;
        lemma_rank_injective(l, c1, d1);
        assert(c =~= c1.push(c.last()));
        assert(d =~= d1.push(d.last()));
    } else {
        assert(c =~= d);
    }
}

/// A tuple whose items are each in the list of its slot is found there,
/// slot by slot: `c` holds the places of its first `n` items.
pub proof fn lemma_located<X>(lists: Seq<Seq<X>>, tuple: Seq<X>, n: nat) -> (c: Seq<usize>)
    requires
        tuple.len() == lists.len(),
        n <= lists.len(),
        forall|i: int| 0 <= i < lists.len() ==> (#[trigger] lists[i]).contains(tuple[i]),
        forall|i: int| 0 <= i < lists.len() ==> (#[trigger] lists[i]).len() <= usize::MAX,
    ensures
        c.len() == n,
        forall|i: int| 0 <= i < n ==> (#[trigger] c[i]) < lists[i].len() && lists[i][c[i] as int] == tuple[i],
    decreases n,
{
    if n == 0 {
        Seq::empty()
    } else {
        let rest = lemma_located(lists, tuple, (n - 1) as nat);
        let i = (n - 1) as int;
        assert(lists[i].contains(tuple[i]));
        let k = choose|k: int| 0 <= k < lists[i].len() && lists[i][k] == tuple[i];
        let c = rest.push(k as usize);
        assert forall|j: int| 0 <= j < n implies (#[trigger] c[j]) < lists[j].len() && lists[j][c[j] as int]
            == tuple[j] by {
            if j < n - 1 {
                assert(c[j] == rest[j]);
            } else {
                assert(c[j] == k as usize);
            }
        }
        c
    }
}

impl Odometer {
    pub open spec fn wf(&self) -> bool {
        &&& self.cursor@.len() == self.limits@.len()
        &&& forall|i: int| 0 <= i < self.cursor@.len() ==> self.cursor@[i] <= self.limits@[i]
    }

    /// How many tuples come before the current one; the number of all
    /// tuples once the counter is done.
    pub open spec fn position(&self) -> nat {
        if self.done {
            count(self.limits@)
        } else {
            rank(self.limits@, self.cursor@)
        }
    }

    /// The counter at its first tuple: every digit zero.
    pub fn new(limits: Vec<usize>, done: bool) -> (r: Odometer)
        ensures
            r.wf(),
            r.limits@ == limits@,
            r.done == done,
            forall|i: int| 0 <= i < r.cursor@.len() ==> r.cursor@[i] == 0,
            !done ==> r.position() == 0,
    {
        let mut cursor: Vec<usize> = Vec::new();
        let mut i: usize = 0;
        while i < limits.len()
            invariant
                0 <= i <= limits.len(),
                cursor.len() == i,
                forall|k: int| 0 <= k < i ==> cursor@[k] == 0,
            decreases limits.len() - i,
        {
            cursor.push(0);
            i += 1;
        }
        proof {
            lemma_rank_zero(limits@, cursor@);
        }
        Odometer { limits, cursor, done }
    }

    /// Moves to the next tuple, or marks the counter as done after the last.
    pub fn advance(&mut self)
        requires
            old(self).wf(),
            !old(self).done,
        ensures
            final(self).wf(),
            final(self).limits@ == old(self).limits@,
            final(self).done == is_last(old(self).limits@, old(self).cursor@),
            !final(self).done ==> follows(
                old(self).limits@,
                old(self).cursor@,
                final(self).cursor@,
            ),
            final(self).position() == old(self).position() + 1,
    {
        let ghost before = self.cursor@;
        let mut p: usize = self.cursor.len();
        while p > 0
            invariant
                0 <= p <= self.cursor.len(),
                self.limits@ == old(self).limits@,
                self.cursor@.len() == before.len(),
                before == old(self).cursor@,
                old(self).wf(),
                !old(self).done,
                !self.done,
                forall|i: int| 0 <= i < p ==> self.cursor@[i] == before[i],
                forall|i: int| p <= i < before.len() ==> before[i] == self.limits@[i] && self.cursor@[i] == 0,
            decreases p,
        {
            let j: usize = p - 1;
            let digit: usize = self.cursor[j];
            if digit < self.limits[j] {
                self.cursor.set(j, digit + 1);
                assert(follows_at(self.limits@, before, self.cursor@, j as int));
                assert(!is_last(self.limits@, before));
                proof {
                    lemma_rank_follows(self.limits@, before, self.cursor@, j as int);
                }
                return ;
            }
            self.cursor.set(j, 0);
            p = j;
        }
        proof {
            lemma_rank_last(self.limits@, before);
        }
        self.done = true;
    }
}

/// The cartesian product of the sources: every tuple with one item of each
/// source, in lexicographic order, the last slot varying fastest.
pub struct Combinations<E> {
    pub sources: Vec<Vec<E>>,
    pub odometer: Odometer,
}

/// Whether some source is empty.
pub open spec fn some_empty<E>(sources: Seq<Vec<E>>) -> bool {
    exists|i: int| 0 <= i < sources.len() && (#[trigger] sources[i])@.len() == 0
}

impl<E: Value> Combinations<E> {
    pub open spec fn wf(&self) -> bool {
        &&& self.odometer.wf()
        &&& self.odometer.limits@.len() == self.sources@.len()
        &&& !self.odometer.done ==> forall|i: int|
            0 <= i < self.sources@.len() ==> (#[trigger] self.sources@[i])@.len()
                == self.odometer.limits@[i] + 1
    }

    /// Whether every tuple has been given out.
    pub open spec fn exhausted(&self) -> bool {
        self.odometer.done
    }

    /// The index, per slot, of the tuple that comes next.
    pub open spec fn cursor(&self) -> Seq<usize> {
        self.odometer.cursor@
    }

    /// The largest index of each slot.
    pub open spec fn limits(&self) -> Seq<usize> {
        self.odometer.limits@
    }

    /// The tuple that holds, in each slot, the item that `c` points at.
    pub open spec fn tuple_at(&self, c: Seq<usize>) -> Seq<E::V> {
        Seq::new(self.sources@.len(), |i: int| self.sources@[i]@[c[i] as int]@)
    }

    /// The tuple that comes next.
    pub open spec fn current(&self) -> Seq<E::V> {
        self.tuple_at(self.cursor())
    }

    /// How many tuples have been given out; the number of all tuples once
    /// the enumeration is exhausted.
    pub open spec fn position(&self) -> nat {
        self.odometer.position()
    }

    /// The enumeration at its first tuple. With no source there is one
    /// tuple, the empty one; with an empty source there is none.
    pub fn new(sources: Vec<Vec<E>>) -> (r: Combinations<E>)
        ensures
            r.wf(),
            r.sources@ == sources@,
            r.exhausted() == some_empty(sources@),
            forall|i: int| 0 <= i < r.cursor().len() ==> r.cursor()[i] == 0,
            !r.exhausted() ==> r.position() == 0,
    {
        let mut limits: Vec<usize> = Vec::new();
        let mut empty = false;
        let mut i: usize = 0;
        while i < sources.len()
            invariant
                0 <= i <= sources.len(),
                limits.len() == i,
                empty == some_empty(sources@.take(i as int)),
                forall|k: int| 0 <= k < i && sources@[k]@.len() > 0 ==> sources@[k]@.len() == limits@[k] + 1,
            decreases sources.len() - i,
        {
            let n: usize = sources[i].len();
            proof {
                let a = sources@.take(i as int);
                let b = sources@.take(i + 1);
                if some_empty(a) {
                    let k = choose|k: int| 0 <= k < a.len() && (#[trigger] a[k])@.len() == 0;
                    assert(b[k]@.len() == 0);
                }
                if n == 0 {
                    assert(b[i as int]@.len() == 0);
                }
                if some_empty(b) {
                    let k = choose|k: int| 0 <= k < b.len() && (#[trigger] b[k])@.len() == 0;
                    if k < i {
                        assert(a[k]@.len() == 0);
                    }
                }
            }
            if n == 0 {
                empty = true;
                limits.push(0);
            } else {
                limits.push(n - 1);
            }
            i += 1;
        }
        assert(sources@.take(i as int) =~= sources@);
        let odometer = Odometer::new(limits, empty);
        Combinations { sources, odometer }
    }

    /// The next tuple, if there is one.
    pub fn next(&mut self) -> (r: Option<Vec<E>>)
        requires
            old(self).wf(),
        ensures
            final(self).wf(),
            final(self).sources@ == old(self).sources@,
            final(self).limits() == old(self).limits(),
            r.is_some() == !old(self).exhausted(),
            old(self).exhausted() ==> final(self).exhausted(),
            match r {
                Some(item) => {
                    &&& views(item@) == old(self).current()
                    &&& final(self).position() == old(self).position() + 1
                    &&& final(self).exhausted() == is_last(old(self).limits(), old(self).cursor())
                    &&& !final(self).exhausted() ==> follows(
                        old(self).limits(),
                        old(self).cursor(),
                        final(self).cursor(),
                    )
                },
                None => final(self).odometer == old(self).odometer,
            },
    {
        if self.odometer.done {
            return None;
        }
        let mut item: Vec<E> = Vec::new();
        let mut i: usize = 0;
        while i < self.sources.len()
            invariant
                0 <= i <= self.sources.len(),
                self.wf(),
                !self.odometer.done,
                item.len() == i,
                forall|k: int| 0 <= k < i ==> item@[k]@ == self.current()[k],
            decreases self.sources.len() - i,
        {
            let c: usize = self.odometer.cursor[i];
            assert(self.sources@[i as int]@.len() == self.odometer.limits@[i as int] + 1);
            item.push(self.sources[i][c].copy());
            i += 1;
        }
        assert(views(item@) =~= self.current());
        self.odometer.advance();
        Some(item)
    }
}

/// The cartesian product of the sources.
pub fn combinations<E: Value>(sources: Vec<Vec<E>>) -> (r: Combinations<E>)
    ensures
        r.wf(),
        r.sources@ == sources@,
        r.exhausted() == some_empty(sources@),
        forall|i: int| 0 <= i < r.cursor().len() ==> r.cursor()[i] == 0,
        !r.exhausted() ==> r.position() == 0,
{
    Combinations::new(sources)
}

/// The cartesian product of the sources where a slot may also be missing.
/// In the strong mode each slot takes every item of its source and then,
/// once, the missing value; in the weak mode a slot is missing only where
/// its source is empty.
pub struct CombinationsOption<E> {
    pub sources: Vec<Vec<E>>,
    pub weak: bool,
    pub odometer: Odometer,
}

/// The largest index of a slot over a source of `n` items; the index `n`
/// stands for the missing value.
pub open spec fn option_limit(n: nat, weak: bool) -> nat {
    if !weak {
        n
    } else if n == 0 {
        0
    } else {
        (n - 1) as nat
    }
}

impl<E: Value> CombinationsOption<E> {
    pub open spec fn wf(&self) -> bool {
        &&& self.odometer.wf()
        &&& self.odometer.limits@.len() == self.sources@.len()
        &&& forall|i: int|
            0 <= i < self.sources@.len() ==> self.odometer.limits@[i] == option_limit(
                (#[trigger] self.sources@[i])@.len(),
                self.weak,
            )
    }

    /// Whether every tuple has been given out.
    pub open spec fn exhausted(&self) -> bool {
        self.odometer.done
    }

    /// The index, per slot, of the tuple that comes next.
    pub open spec fn cursor(&self) -> Seq<usize> {
        self.odometer.cursor@
    }

    /// The largest index of each slot.
    pub open spec fn limits(&self) -> Seq<usize> {
        self.odometer.limits@
    }

    /// How many tuples have been given out; the number of all tuples once
    /// the enumeration is exhausted.
    pub open spec fn position(&self) -> nat {
        self.odometer.position()
    }

    /// What slot `i` holds in the tuple that comes next.
    pub open spec fn slot(&self, i: int) -> Option<E::V> {
        if self.cursor()[i] < self.sources@[i]@.len() {
            Some(self.sources@[i]@[self.cursor()[i] as int]@)
        } else {
            None
        }
    }

    /// Whether `item` is the tuple that comes next.
    pub open spec fn is_current(&self, item: Seq<Option<E>>) -> bool {
        &&& item.len() == self.sources@.len()
        &&& forall|i: int|
            0 <= i < item.len() ==> match #[trigger] item[i] {
                Some(e) => self.slot(i) == Some(e@),
                None => self.slot(i).is_none(),
            }
    }

    /// The enumeration at its first tuple.
    pub fn new(sources: Vec<Vec<E>>, weak: bool) -> (r: CombinationsOption<E>)
        ensures
            r.wf(),
            r.sources@ == sources@,
            r.weak == weak,
            !r.exhausted(),
            r.position() == 0,
            forall|i: int| 0 <= i < r.cursor().len() ==> r.cursor()[i] == 0,
    {
        let mut limits: Vec<usize> = Vec::new();
        let mut i: usize = 0;
        while i < sources.len()
            invariant
                0 <= i <= sources.len(),
                limits.len() == i,
                forall|k: int| 0 <= k < i ==> limits@[k] == option_limit(sources@[k]@.len(), weak),
            decreases sources.len() - i,
        {
            let n: usize = sources[i].len();
            if !weak {
                limits.push(n);
            } else if n == 0 {
                limits.push(0);
            } else {
                limits.push(n - 1);
            }
            i += 1;
        }
        let odometer = Odometer::new(limits, false);
        CombinationsOption { sources, weak, odometer }
    }

    /// The next tuple, if there is one.
    pub fn next(&mut self) -> (r: Option<Vec<Option<E>>>)
        requires
            old(self).wf(),
        ensures
            final(self).wf(),
            final(self).sources@ == old(self).sources@,
            final(self).weak == old(self).weak,
            r.is_some() == !old(self).exhausted(),
            old(self).exhausted() ==> final(self).exhausted(),
            match r {
                Some(item) => {
                    &&& old(self).is_current(item@)
                    &&& final(self).position() == old(self).position() + 1
                    &&& final(self).exhausted() == is_last(old(self).limits(), old(self).cursor())
                    &&& !final(self).exhausted() ==> follows(
                        old(self).limits(),
                        old(self).cursor(),
                        final(self).cursor(),
                    )
                },
                None => final(self).odometer == old(self).odometer,
            },
    {
        if self.odometer.done {
            return None;
        }
        let mut item: Vec<Option<E>> = Vec::new();
        let mut i: usize = 0;
        while i < self.sources.len()
            invariant
                0 <= i <= self.sources.len(),
                self.wf(),
                !self.odometer.done,
                item.len() == i,
                forall|k: int|
                    0 <= k < i ==> match #[trigger] item@[k] {
                        Some(e) => self.slot(k) == Some(e@),
                        None => self.slot(k).is_none(),
                    },
            decreases self.sources.len() - i,
        {
            let c: usize = self.odometer.cursor[i];
            if c < self.sources[i].len() {
                item.push(Some(self.sources[i][c].copy()));
            } else {
                item.push(None);
            }
            i += 1;
        }
        self.odometer.advance();
        Some(item)
    }
}

/// The product with missing slots, in the strong mode.
pub fn combinations_option<E: Value>(sources: Vec<Vec<E>>) -> (r: CombinationsOption<E>)
    ensures
        r.wf(),
        r.sources@ == sources@,
        !r.weak,
        !r.exhausted(),
        forall|i: int| 0 <= i < r.cursor().len() ==> r.cursor()[i] == 0,
{
    CombinationsOption::new(sources, false)
}

/// The product with missing slots, in the weak mode.
pub fn combinations_weak_option<E: Value>(sources: Vec<Vec<E>>) -> (r: CombinationsOption<E>)
    ensures
        r.wf(),
        r.sources@ == sources@,
        r.weak,
        !r.exhausted(),
        forall|i: int| 0 <= i < r.cursor().len() ==> r.cursor()[i] == 0,
{
    CombinationsOption::new(sources, true)
}

/// A fair multiplexer: it takes the items of several sequences in turn, one
/// of each that still has some.
pub struct Mux<E> {
    pub iterators: Vec<Vec<E>>,
    pub positions: Vec<usize>,
    pub index: usize,
}

impl<E: Value> Mux<E> {
    pub open spec fn wf(&self) -> bool {
        &&& self.positions@.len() == self.iterators@.len()
        &&& self.iterators@.len() > 0 ==> self.index < self.iterators@.len()
        &&& forall|i: int|
            0 <= i < self.positions@.len() ==> self.positions@[i] <= (
            #[trigger] self.iterators@[i])@.len()
    }

    /// Whether sequence `i` still has an item.
    pub open spec fn live(&self, i: int) -> bool {
        self.positions@[i] < self.iterators@[i]@.len()
    }

    /// The sequence that is `k` places after the one whose turn it is.
    pub open spec fn turn(&self, k: int) -> int {
        (self.index + k) % (self.iterators@.len() as int)
    }

    /// Whether the sequence `k` places after the turn is the first that still
    /// has an item, `item` is that item, and `after` is the multiplexer once
    /// the item is taken and the turn has passed on.
    pub open spec fn serves(&self, k: int, item: E::V, after: Mux<E>) -> bool {
        let j = self.turn(k);
        &&& 0 <= k < self.iterators@.len()
        &&& self.live(j)
        &&& forall|m: int| 0 <= m < k ==> !self.live(#[trigger] self.turn(m))
        &&& item == self.iterators@[j]@[self.positions@[j] as int]@
        &&& after.positions@ == self.positions@.update(j, (self.positions@[j] + 1) as usize)
        &&& after.index == (j + 1) % (self.iterators@.len() as int)
    }

    pub fn new(iterators: Vec<Vec<E>>) -> (r: Mux<E>)
        ensures
            r.wf(),
            r.iterators@ == iterators@,
            r.index == 0,
            forall|i: int| 0 <= i < r.positions@.len() ==> r.positions@[i] == 0,
    {
        let mut positions: Vec<usize> = Vec::new();
        let mut i: usize = 0;
        while i < iterators.len()
            invariant
                0 <= i <= iterators.len(),
                positions.len() == i,
                forall|k: int| 0 <= k < i ==> positions@[k] == 0,
            decreases iterators.len() - i,
        {
            positions.push(0);
            i += 1;
        }
        Mux { iterators, positions, index: 0 }
    }

    /// The next item of the first sequence, from the one whose turn it is,
    /// that still has one; the turn then passes to the sequence after it.
    /// `None` when no sequence has an item left.
    pub fn next(&mut self) -> (r: Option<E>)
        requires
            old(self).wf(),
        ensures
            final(self).wf(),
            final(self).iterators@ == old(self).iterators@,
            match r {
                Some(item) => exists|k: int| #[trigger] old(self).serves(k, item@, *final(self)),
                None => {
                    &&& forall|i: int| 0 <= i < old(self).iterators@.len() ==> !old(self).live(i)
                    &&& final(self).positions@ == old(self).positions@
                    &&& final(self).index == old(self).index
                },
            },
    {
        let n: usize = self.iterators.len();
        if n == 0 {
            return None;
        }
        let mut k: usize = 0;
        let mut i: usize = self.index;
        proof {
            vstd::arithmetic::div_mod::lemma_small_mod(i as nat, n as nat);
        }
        while k < n
            invariant
                0 <= k <= n,
                n == self.iterators@.len(),
                n > 0,
                self.wf(),
                *self == *old(self),
                k < n ==> i == self.turn(k as int),
                forall|m: int| 0 <= m < k ==> !self.live(#[trigger] self.turn(m)),
            decreases n - k,
        {
            let pos: usize = self.positions[i];
            if pos < self.iterators[i].len() {
                let item = self.iterators[i][pos].copy();
                self.positions.set(i, pos + 1);
                self.index = if i + 1 == n { 0 } else { i + 1 };
                proof {
                    let j = old(self).turn(k as int);
                    assert(j == i);
                    assert(self.positions@ =~= old(self).positions@.update(j, (pos + 1) as usize));
                    assert((j + 1) % (n as int) == self.index) by {
                        if i + 1 == n {
                            vstd::arithmetic::div_mod::lemma_mod_self_0(n as int);
                        } else {
                            vstd::arithmetic::div_mod::lemma_small_mod((i + 1) as nat, n as nat);
                        }
                    }
                }
                let r = Some(item);
                assert(old(self).serves(k as int, r.unwrap()@, *self));
                return r;
            }
            proof {
                lemma_turn_step(self.index as int, k as int, n as int);
            }
            i = if i + 1 == n { 0 } else { i + 1 };
            k += 1;
        }
        proof {
            assert forall|t: int| 0 <= t < n implies !self.live(t) by {
                let m = lemma_turn_covers(self.index as int, t, n as int);
                assert(self.turn(m) == t);
            }
        }
        None
    }
}

/// One place further in the round is the next index, wrapping at `n`.
pub proof fn lemma_turn_step(start: int, k: int, n: int)
    requires
        0 <= start < n,
        0 <= k,
    ensures
        (start + k + 1) % n == if (start + k) % n + 1 == n {
            0
        } else {
            (start + k) % n + 1
        },
{
    assert((start + k + 1) % n == if (start + k) % n + 1 == n {
        0
    } else {
        (start + k) % n + 1
    }) by (nonlinear_arith)
        requires
            0 <= start < n,
            0 <= k,
    ;
}

/// Every index is reached within one round.
pub proof fn lemma_turn_covers(start: int, t: int, n: int) -> (m: int)
    requires
        0 <= start < n,
        0 <= t < n,
    ensures
        0 <= m < n,
        (start + m) % n == t,
{
    if t >= start {
        let m = t - start;
        assert((start + m) % n == t) by (nonlinear_arith)
            requires
                0 <= t < n,
                start + m == t,
        ;
        m
    } else {
        let m = t - start + n;
        assert((start + m) % n == t) by (nonlinear_arith)
            requires
                0 <= t < n,
                start + m == t + n,
        ;
        m
    }
}

} // verus!
