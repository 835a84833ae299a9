//! Searches over bottom-up automata: configurations that several automata
//! have in common, and the terms that an automaton accepts without going
//! twice through a transition.
use vstd::prelude::*;
use crate::Symbol;
use crate::value::{Value, views};
use crate::utils::{Combinations, within, rank, count, lemma_rank_bound, lemma_rank_injective};
use crate::utils::Odometer;
use crate::term::{term_symbol, term_subterms, new_term, copy_term};
use crate::bottom_up::{Automaton, Configuration, TransitionView};
use terms::Term;

verus! {

/// Whether the labeled configurations of a tuple all have the top symbol of
/// the first.
pub open spec fn common<S, M>(tuple: Seq<((Symbol, Seq<S>), M)>) -> bool {
    forall|i: int| 0 <= i < tuple.len() ==> (#[trigger] tuple[i]).0.0 == tuple[0].0.0
}

/// Whether the labeled configurations of `item` all have the top symbol of
/// the first.
pub fn is_common<Q: Value, L: Value>(item: &Vec<(Configuration<Q>, L)>) -> (r: bool)
    ensures
        r == common(views(item@)),
{
    let mut i: usize = 1;
    while i < item.len()
        invariant
            1 <= i,
            forall|k: int| 0 <= k < i && k < item.len() ==> (#[trigger] views(item@)[k]).0.0 == views(
                item@,
            )[0].0.0,
        decreases item.len() - i,
    {
        if item[i].0.0 != item[0].0.0 {
            assert(views(item@)[i as int].0.0 != views(item@)[0].0.0);
            return false;
        }
        i += 1;
    }
    true
}

/// The joint enumeration of configurations across automata: one labeled
/// configuration per automaton, each leading into that automaton's
/// position, all with the same top symbol. The tuples come in lexicographic
/// order, the last slot varying fastest.
pub struct CommonConfigurations<Q, L> {
    pub product: Combinations<(Configuration<Q>, L)>,
    pub slots: usize,
}

impl<Q: Value, L: Value> CommonConfigurations<Q, L> {
    pub open spec fn wf(&self) -> bool {
        &&& self.product.wf()
        &&& self.slots == self.product.sources@.len()
    }

    /// The labeled configurations that slot `i` ranges over.
    pub open spec fn candidates(&self, i: int) -> Seq<((Symbol, Seq<Q::V>), L::V)> {
        views(self.product.sources@[i]@)
    }

    /// Whether the tuple at `c` is still to come and is given out: it has
    /// a common top symbol.
    pub open spec fn selects(&self, c: Seq<usize>) -> bool {
        &&& within(self.product.limits(), c)
        &&& self.product.position() <= rank(self.product.limits(), c)
        &&& common(self.product.tuple_at(c))
    }

    /// Whether `c` points at the first tuple that is still to come and is
    /// given out, and `tuple` is that tuple.
    pub open spec fn first_at(&self, c: Seq<usize>, tuple: Seq<((Symbol, Seq<Q::V>), L::V)>) -> bool {
        &&& self.selects(c)
        &&& tuple == self.product.tuple_at(c)
        &&& forall|d: Seq<usize>|
            #[trigger] self.selects(d) ==> rank(self.product.limits(), c) <= rank(
                self.product.limits(),
                d,
            )
    }

    /// Whether `tuple` is the first tuple with a common top symbol that is
    /// still to come, and `after` is the search right behind it.
    pub open spec fn yields(
        &self,
        after: CommonConfigurations<Q, L>,
        tuple: Seq<((Symbol, Seq<Q::V>), L::V)>,
    ) -> bool {
        self.slots > 0 && exists|c: Seq<usize>| #[trigger]
            self.first_at(c, tuple) && after.product.position() == rank(self.product.limits(), c)
                + 1
    }

    /// Whether no tuple with a common top symbol is still to come, and
    /// `after` is the search at its end.
    pub open spec fn ends(&self, after: CommonConfigurations<Q, L>) -> bool {
        if self.slots == 0 {
            after == *self
        } else {
            after.product.exhausted() && (self.product.exhausted() || forall|d: Seq<usize>|
                !#[trigger] self.selects(d))
        }
    }

    /// The search over `automata`, each taken at its position.
    pub fn new(automata: &[&Automaton<Q, L>], positions: &[Q]) -> (r: CommonConfigurations<Q, L>)
        requires
            automata@.len() == positions@.len(),
        ensures
            r.wf(),
            r.slots == positions@.len(),
            forall|i: int|
                0 <= i < positions@.len() ==> #[trigger] r.candidates(i)
                    == automata@[i].configurations_of(positions@[i]@),
            !r.product.exhausted() ==> r.product.position() == 0,
            r.product.exhausted() == exists|i: int|
                0 <= i < positions@.len() && (#[trigger] automata@[i]).configurations_of(
                    positions@[i]@,
                ).len() == 0,
    {
        let mut sources: Vec<Vec<(Configuration<Q>, L)>> = Vec::new();
        let mut i: usize = 0;
        while i < positions.len()
            invariant
                0 <= i <= positions.len(),
                automata@.len() == positions@.len(),
                sources.len() == i,
                forall|k: int|
                    0 <= k < i ==> views(#[trigger] sources@[k]@) == automata@[k].configurations_of(
                        positions@[k]@,
                    ),
            decreases positions.len() - i,
        {
            let list = automata[i].configurations_for_state(&positions[i]);
            sources.push(list);
            i += 1;
        }
        let ghost src = sources@;
        let product = Combinations::new(sources);
        let r = CommonConfigurations { product, slots: positions.len() };
        proof {
            assert forall|i: int| 0 <= i < positions@.len() implies #[trigger] r.candidates(i)
                == automata@[i].configurations_of(positions@[i]@) by {
                assert(views(src[i]@) == automata@[i].configurations_of(positions@[i]@));
            }
            if r.product.exhausted() {
                let k = choose|k: int| 0 <= k < src.len() && (#[trigger] src[k])@.len() == 0;
                assert(views(src[k]@).len() == 0);
                assert(automata@[k].configurations_of(positions@[k]@).len() == 0);
            }
            if exists|i: int|
                0 <= i < positions@.len() && (#[trigger] automata@[i]).configurations_of(
                    positions@[i]@,
                ).len() == 0 {
                let k = choose|i: int|
                    0 <= i < positions@.len() && (#[trigger] automata@[i]).configurations_of(
                        positions@[i]@,
                    ).len() == 0;
                assert(views(src[k]@).len() == 0);
                assert(src[k]@.len() == 0);
            }
        }
        r
    }

    /// The next tuple with a common top symbol, in the order of the
    /// enumeration; `None` when no such tuple is left, and always with no
    /// slot at all.
    pub fn next(&mut self) -> (r: Option<Vec<(Configuration<Q>, L)>>)
        requires
            old(self).wf(),
        ensures
            final(self).wf(),
            final(self).product.sources@ == old(self).product.sources@,
            final(self).product.limits() == old(self).product.limits(),
            match r {
                Some(item) => old(self).yields(*final(self), views(item@)),
                None => old(self).ends(*final(self)),
            },
            r.is_some() ==> !old(self).product.exhausted(),
            r.is_some() ==> old(self).product.position() < final(self).product.position(),
            r.is_some() ==> final(self).product.position() <= count(old(self).product.limits()),
    {
        if self.slots == 0 {
            return None;
        }
        loop
            invariant
                self.wf(),
                old(self).slots > 0,
                self.product.sources@ == old(self).product.sources@,
                self.product.limits() == old(self).product.limits(),
                old(self).product.exhausted() ==> self.product.exhausted(),
                !old(self).product.exhausted() ==> old(self).product.position()
                    <= self.product.position(),
                forall|d: Seq<usize>|
                    !old(self).product.exhausted() && #[trigger] old(self).selects(d) ==> self.product.position()
                        <= rank(self.product.limits(), d),
            decreases
                    (if self.product.exhausted() {
                        0
                    } else {
                        count(self.product.limits()) - self.product.position() + 1
                    }),
        {
            let ghost before = self.product;
            proof {
                if !before.exhausted() {
                    lemma_rank_bound(before.limits(), before.cursor());
                }
            }
            match self.product.next() {
                None => {
                    proof {
                        if !old(self).product.exhausted() {
                            assert forall|d: Seq<usize>| !#[trigger] old(self).selects(d) by {
                                if old(self).selects(d) {
                                    lemma_rank_bound(old(self).product.limits(), d);
                                }
                            }
                        }
                    }
                    return None;
                },
                Some(item) => {
                    let ghost c = before.cursor();
                    proof {
                        assert(!old(self).product.exhausted());
                        assert(within(before.limits(), c));
                        if !self.product.exhausted() {
                            lemma_rank_bound(self.product.limits(), self.product.cursor());
                        }
                    }
                    if is_common(&item) {
                        proof {
                            assert(old(self).product.tuple_at(c) =~= before.tuple_at(c));
                            assert(old(self).selects(c));
                            assert(old(self).first_at(c, views(item@)));
                            lemma_rank_bound(old(self).product.limits(), c);
                        }
                        return Some(item);
                    }
                    proof {
                        assert forall|d: Seq<usize>| #[trigger] old(self).selects(d) implies self.product.position()
                            <= rank(self.product.limits(), d) by {
                            if rank(before.limits(), d) == rank(before.limits(), c) {
                                lemma_rank_injective(before.limits(), c, d);
                                assert(old(self).product.tuple_at(c) =~= before.tuple_at(c));
                            }
                        }
                    }
                },
            }
        }
    }
}


/// Whether transition `i` leads into `q`, carries the top symbol of `t`,
/// and has as many children as `t` has direct subterms.
pub open spec fn fits<S, M>(ts: Seq<TransitionView<S, M>>, i: int, t: Term<u64>, q: S) -> bool {
    &&& 0 <= i < ts.len()
    &&& ts[i].2 == q
    &&& ts[i].0.0 == term_symbol(t)
    &&& ts[i].0.1.len() == term_subterms(t).len()
}

/// Whether the automaton with transitions `ts` has a run on `t` that ends in
/// `q` and is at most `depth` transitions high: some transition fits, with
/// a run on each direct subterm that ends in the matching child state.
pub open spec fn run_into<S, M>(ts: Seq<TransitionView<S, M>>, t: Term<u64>, q: S, depth: nat) -> bool
    decreases depth,
{
    depth > 0 && exists|i: int|
        #[trigger] fits(ts, i, t, q) && forall|j: int|
            0 <= j < ts[i].0.1.len() ==> run_into(
                ts,
                #[trigger] term_subterms(t)[j],
                ts[i].0.1[j],
                (depth - 1) as nat,
            )
}

/// Whether the automaton with transitions `ts` has a run on `t` that ends
/// in `q`.
pub open spec fn accepts_into<S, M>(ts: Seq<TransitionView<S, M>>, t: Term<u64>, q: S) -> bool {
    exists|depth: nat| run_into(ts, t, q, depth)
}

/// Whether the automaton accepts `t`: a run on `t` ends in an accepting
/// state.
pub open spec fn accepts<S, M>(ts: Seq<TransitionView<S, M>>, finals: Seq<S>, t: Term<u64>) -> bool {
    exists|q: S| finals.contains(q) && #[trigger] accepts_into(ts, t, q)
}

/// The number of entries that are not set.
pub open spec fn unvisited(visited: Seq<bool>) -> nat
    decreases visited.len(),
{
    if visited.len() == 0 {
        0
    } else {
        unvisited(visited.drop_last()) + if visited.last() {
            0nat
        } else {
            1nat
        }
    }
}

/// Setting an entry that was not set lowers the number of unset entries by
/// one.
pub proof fn lemma_visit(visited: Seq<bool>, i: int)
    requires
        0 <= i < visited.len(),
        !visited[i],
    ensures
        unvisited(visited.update(i, true)) + 1 == unvisited(visited),
    decreases visited.len(),
{
    let after = visited.update(i, true);
    if i == visited.len() - 1 {
        assert(after.drop_last() =~= visited.drop_last());
    } else {
        assert(after.drop_last() =~= visited.drop_last().update(i, true));
        lemma_visit(visited.drop_last(), i);
    }
}

/// Whether the automaton with transitions `ts` has a run on `t` that ends
/// in `q`, takes no transition that `visited` marks, and takes no
/// transition twice on one path from the root to a leaf. `fuel` bounds the
/// height of the run; the number of unmarked transitions is enough.
pub open spec fn acyclic_run<S, M>(
    ts: Seq<TransitionView<S, M>>,
    t: Term<u64>,
    q: S,
    visited: Seq<bool>,
    fuel: nat,
) -> bool
    decreases fuel,
{
    fuel > 0 && exists|i: int|
        #[trigger] fits(ts, i, t, q) && i < visited.len() && !visited[i] && forall|j: int|
            0 <= j < ts[i].0.1.len() ==> acyclic_run(
                ts,
                #[trigger] term_subterms(t)[j],
                ts[i].0.1[j],
                visited.update(i, true),
                (fuel - 1) as nat,
            )
}

/// Whether such a run on `t` starts with transition `i`.
pub open spec fn acyclic_via<S, M>(
    ts: Seq<TransitionView<S, M>>,
    i: int,
    t: Term<u64>,
    q: S,
    visited: Seq<bool>,
    fuel: nat,
) -> bool {
    &&& fuel > 0
    &&& fits(ts, i, t, q)
    &&& i < visited.len()
    &&& !visited[i]
    &&& forall|j: int|
        0 <= j < ts[i].0.1.len() ==> acyclic_run(
            ts,
            #[trigger] term_subterms(t)[j],
            ts[i].0.1[j],
            visited.update(i, true),
            (fuel - 1) as nat,
        )
}

/// Whether two terms are the same down to depth `n`: the same symbols
/// applied to as many subterms, which are the same down to depth `n - 1`.
pub open spec fn same_shape(a: Term<u64>, b: Term<u64>, n: nat) -> bool
    decreases n,
{
    n == 0 || (term_symbol(a) == term_symbol(b) && term_subterms(a).len() == term_subterms(b).len()
        && forall|j: int|
        0 <= j < term_subterms(a).len() ==> same_shape(
            #[trigger] term_subterms(a)[j],
            term_subterms(b)[j],
            (n - 1) as nat,
        ))
}

/// Whether two terms have the same symbol and the same direct subterms.
pub open spec fn alike(a: Term<u64>, b: Term<u64>) -> bool {
    term_symbol(a) == term_symbol(b) && term_subterms(a) == term_subterms(b)
}

/// Whether `list` holds a term that is the same as `x` down to depth `n`.
pub open spec fn covers(list: Seq<Term<u64>>, x: Term<u64>, n: nat) -> bool {
    exists|k: int| 0 <= k < list.len() && same_shape(x, #[trigger] list[k], n)
}

/// Whether `term` is `f` applied to the terms that `c` points at in
/// `subs`, one list for each child.
pub open spec fn built_from(term: Term<u64>, f: Symbol, subs: Seq<Vec<Term<u64>>>, c: Seq<usize>) -> bool {
    &&& term_symbol(term) == f
    &&& term_subterms(term).len() == subs.len()
    &&& forall|m: int|
        0 <= m < subs.len() ==> alike(#[trigger] term_subterms(term)[m], subs[m]@[c[m] as int])
}

/// Whether `list` holds the term built from `c`.
pub open spec fn has_built(list: Seq<Term<u64>>, f: Symbol, subs: Seq<Vec<Term<u64>>>, c: Seq<usize>) -> bool {
    exists|k: int| 0 <= k < list.len() && built_from(#[trigger] list[k], f, subs, c)
}

/// An acyclic run is a run.
pub proof fn lemma_acyclic_is_run<S, M>(
    ts: Seq<TransitionView<S, M>>,
    t: Term<u64>,
    q: S,
    visited: Seq<bool>,
    fuel: nat,
)
    requires
        acyclic_run(ts, t, q, visited, fuel),
    ensures
        run_into(ts, t, q, fuel),
    decreases fuel,
{
    let i = choose|i: int|
        #[trigger] fits(ts, i, t, q) && i < visited.len() && !visited[i] && forall|j: int|
            0 <= j < ts[i].0.1.len() ==> acyclic_run(
                ts,
                #[trigger] term_subterms(t)[j],
                ts[i].0.1[j],
                visited.update(i, true),
                (fuel - 1) as nat,
            );
    assert forall|j: int| 0 <= j < ts[i].0.1.len() implies run_into(
        ts,
        #[trigger] term_subterms(t)[j],
        ts[i].0.1[j],
        (fuel - 1) as nat,
    ) by {
        lemma_acyclic_is_run(
            ts,
            term_subterms(t)[j],
            ts[i].0.1[j],
            visited.update(i, true),
            (fuel - 1) as nat,
        );
    }
    assert(fits(ts, i, t, q));
}

/// A term that is like another has its shape.
pub proof fn lemma_alike_shape(a: Term<u64>, b: Term<u64>, c: Term<u64>, n: nat)
    requires
        same_shape(a, b, n),
        alike(c, b),
    ensures
        same_shape(a, c, n),
{
}

/// Terms that the lists cover, one list for each, are found there: `c`
/// holds the places of terms of the same shape, for the first `upto`.
pub proof fn lemma_pick_covering(subs: Seq<Vec<Term<u64>>>, xs: Seq<Term<u64>>, n: nat, upto: nat) -> (c: Seq<
    usize,
>)
    requires
        xs.len() == subs.len(),
        upto <= subs.len(),
        forall|m: int| 0 <= m < subs.len() ==> covers((#[trigger] subs[m])@, xs[m], n),
    ensures
        c.len() == upto,
        forall|m: int|
            0 <= m < upto ==> (#[trigger] c[m]) < subs[m]@.len() && same_shape(
                xs[m],
                subs[m]@[c[m] as int],
                n,
            ),
    decreases upto,
{
    if upto == 0 {
        Seq::empty()
    } else {
        let rest = lemma_pick_covering(subs, xs, n, (upto - 1) as nat);
        let m = (upto - 1) as int;
        assert(covers(subs[m]@, xs[m], n));
        let k = choose|k: int| 0 <= k < subs[m]@.len() && same_shape(xs[m], #[trigger] subs[m]@[k], n);
        assert(subs[m]@.len() == subs[m].len());
        let c = rest.push(k as usize);
        assert forall|j: int| 0 <= j < upto implies (#[trigger] c[j]) < subs[j]@.len() && same_shape(
            xs[j],
            subs[j]@[c[j] as int],
            n,
        ) by {
            if j < upto - 1 {
                assert(c[j] == rest[j]);
            } else {
                assert(c[j] == k as usize);
            }
        }
        c
    }
}

/// Whether `term` is `f` applied to one term of each list of `subs`.
pub open spec fn is_built(term: Term<u64>, f: Symbol, subs: Seq<Vec<Term<u64>>>) -> bool {
    exists|c: Seq<usize>| points_into(subs, c) && #[trigger] built_from(term, f, subs, c)
}

/// Whether `c` points at a term in each list of `subs`.
pub open spec fn points_into(subs: Seq<Vec<Term<u64>>>, c: Seq<usize>) -> bool {
    &&& c.len() == subs.len()
    &&& forall|m: int| 0 <= m < c.len() ==> (#[trigger] c[m]) < subs[m]@.len()
}

/// The terms with top symbol `f` and, as direct subterms, one term of each
/// list of `subs`: every choice of subterms is taken once, in
/// lexicographic order, the last list varying fastest.
pub fn combine(f: Symbol, subs: &Vec<Vec<Term<u64>>>) -> (r: Vec<Term<u64>>)
    ensures
        forall|k: int| 0 <= k < r@.len() ==> is_built(#[trigger] r@[k], f, subs@),
        forall|c: Seq<usize>| #[trigger] points_into(subs@, c) ==> has_built(r@, f, subs@, c),
{
    let mut out: Vec<Term<u64>> = Vec::new();
    let mut limits: Vec<usize> = Vec::new();
    let mut j: usize = 0;
    while j < subs.len()
        invariant
            0 <= j <= subs.len(),
            limits.len() == j,
            out@.len() == 0,
            forall|m: int| 0 <= m < j ==> (#[trigger] subs@[m])@.len() == limits@[m] + 1,
        decreases subs.len() - j,
    {
        if subs[j].len() == 0 {
            proof {
                assert forall|c: Seq<usize>| #[trigger] points_into(subs@, c) implies has_built(
                    out@,
                    f,
                    subs@,
                    c,
                ) by {
                    assert(c[j as int] < subs@[j as int]@.len());
                }
            }
            return out;
        }
        limits.push(subs[j].len() - 1);
        j += 1;
    }
    let mut odometer = Odometer::new(limits, false);
    while !odometer.done
        invariant
            odometer.wf(),
            odometer.limits@.len() == subs@.len(),
            forall|m: int|
                0 <= m < subs@.len() ==> (#[trigger] subs@[m])@.len() == odometer.limits@[m] + 1,
            odometer.position() <= count(odometer.limits@),
            forall|k: int| 0 <= k < out@.len() ==> is_built(#[trigger] out@[k], f, subs@),
            forall|c: Seq<usize>|
                within(odometer.limits@, c) && #[trigger] rank(odometer.limits@, c)
                    < odometer.position() ==> has_built(out@, f, subs@, c),
        decreases count(odometer.limits@) - odometer.position(),
    {
        let ghost cursor = odometer.cursor@;
        let ghost lims = odometer.limits@;
        let ghost pos = odometer.position();
        let mut tuple: Vec<Term<u64>> = Vec::new();
        let mut m: usize = 0;
        while m < subs.len()
            invariant
                0 <= m <= subs.len(),
                odometer.wf(),
                !odometer.done,
                cursor == odometer.cursor@,
                odometer.limits@.len() == subs@.len(),
                forall|m: int|
                    0 <= m < subs@.len() ==> (#[trigger] subs@[m])@.len() == odometer.limits@[m] + 1,
                tuple.len() == m,
                forall|i: int| 0 <= i < m ==> alike(#[trigger] tuple@[i], subs@[i]@[cursor[i] as int]),
            decreases subs.len() - m,
        {
            let c: usize = odometer.cursor[m];
            assert(subs@[m as int]@.len() == odometer.limits@[m as int] + 1);
            tuple.push(copy_term(&subs[m][c]));
            m += 1;
        }
        let term = new_term(f, tuple);
        let ghost prev = out@;
        proof {
            assert(built_from(term, f, subs@, cursor));
            assert(points_into(subs@, cursor));
            lemma_rank_bound_done(&odometer);
        }
        out.push(term);
        odometer.advance();
        proof {
            lemma_rank_bound_done(&odometer);
            assert forall|k: int| 0 <= k < out@.len() implies is_built(#[trigger] out@[k], f, subs@) by {
                if k < prev.len() {
                    assert(out@[k] == prev[k]);
                } else {
                    assert(built_from(out@[k], f, subs@, cursor));
                }
            }
            assert forall|c: Seq<usize>|
                within(odometer.limits@, c) && #[trigger] rank(odometer.limits@, c)
                    < odometer.position() implies has_built(out@, f, subs@, c) by {
                if rank(lims, c) < pos {
                    assert(has_built(prev, f, subs@, c));
                    let k = choose|k: int| 0 <= k < prev.len() && built_from(#[trigger] prev[k], f, subs@, c);
                    assert(out@[k] == prev[k]);
                } else {
                    lemma_rank_injective(lims, cursor, c);
                    assert(out@[prev.len() as int] == term);
                }
            }
        }
    }
    proof {
        assert forall|c: Seq<usize>| #[trigger] points_into(subs@, c) implies has_built(
            out@,
            f,
            subs@,
            c,
        ) by {
            assert forall|m: int| 0 <= m < c.len() implies c[m] <= odometer.limits@[m] by {
                assert(c[m] < subs@[m]@.len());
            }
            assert(within(odometer.limits@, c));
            lemma_rank_bound(odometer.limits@, c);
        }
    }
    out
}

/// A term built from terms that have acyclic runs into the children of a
/// transition has an acyclic run that starts with that transition.
pub proof fn lemma_built_runs<S, M>(
    ts: Seq<TransitionView<S, M>>,
    i: int,
    term: Term<u64>,
    subs: Seq<Vec<Term<u64>>>,
    c: Seq<usize>,
    visited: Seq<bool>,
    fuel: nat,
)
    requires
        0 <= i < ts.len(),
        i < visited.len(),
        !visited[i],
        fuel > 0,
        subs.len() == ts[i].0.1.len(),
        points_into(subs, c),
        built_from(term, ts[i].0.0, subs, c),
        forall|m: int, k: int|
            0 <= m < subs.len() && 0 <= k < subs[m]@.len() ==> acyclic_run(
                ts,
                #[trigger] subs[m]@[k],
                ts[i].0.1[m],
                visited.update(i, true),
                (fuel - 1) as nat,
            ),
    ensures
        acyclic_run(ts, term, ts[i].2, visited, fuel),
{
    assert forall|j: int| 0 <= j < ts[i].0.1.len() implies acyclic_run(
        ts,
        #[trigger] term_subterms(term)[j],
        ts[i].0.1[j],
        visited.update(i, true),
        (fuel - 1) as nat,
    ) by {
        assert(c[j] < subs[j]@.len());
        assert(acyclic_run(
            ts,
            subs[j]@[c[j] as int],
            ts[i].0.1[j],
            visited.update(i, true),
            (fuel - 1) as nat,
        ));
        lemma_acyclic_alike(
            ts,
            subs[j]@[c[j] as int],
            term_subterms(term)[j],
            ts[i].0.1[j],
            visited.update(i, true),
            (fuel - 1) as nat,
        );
    }
    assert(fits(ts, i, term, ts[i].2));
}

/// A term with an acyclic run that starts with a transition has its shape
/// among the terms built, in every way, from lists that cover the terms
/// with acyclic runs into the children of the transition.
pub proof fn lemma_via_covered<S, M>(
    ts: Seq<TransitionView<S, M>>,
    i: int,
    x: Term<u64>,
    q: S,
    subs: Seq<Vec<Term<u64>>>,
    built: Seq<Term<u64>>,
    visited: Seq<bool>,
    fuel: nat,
)
    requires
        acyclic_via(ts, i, x, q, visited, fuel),
        subs.len() == ts[i].0.1.len(),
        forall|m: int, y: Term<u64>|
            0 <= m < subs.len() && #[trigger] acyclic_run(
                ts,
                y,
                ts[i].0.1[m],
                visited.update(i, true),
                (fuel - 1) as nat,
            ) ==> covers(subs[m]@, y, (fuel - 1) as nat),
        forall|c: Seq<usize>| #[trigger] points_into(subs, c) ==> has_built(built, ts[i].0.0, subs, c),
    ensures
        covers(built, x, fuel),
{
    let xs = term_subterms(x);
    assert forall|m: int| 0 <= m < subs.len() implies covers(
        (#[trigger] subs[m])@,
        xs[m],
        (fuel - 1) as nat,
    ) by {
        assert(acyclic_run(ts, xs[m], ts[i].0.1[m], visited.update(i, true), (fuel - 1) as nat));
    }
    let c = lemma_pick_covering(subs, xs, (fuel - 1) as nat, subs.len());
    assert(points_into(subs, c));
    assert(has_built(built, ts[i].0.0, subs, c));
    let k = choose|k: int| 0 <= k < built.len() && built_from(#[trigger] built[k], ts[i].0.0, subs, c);
    assert forall|m: int| 0 <= m < xs.len() implies same_shape(
        #[trigger] xs[m],
        term_subterms(built[k])[m],
        (fuel - 1) as nat,
    ) by {
        lemma_alike_shape(
            xs[m],
            subs[m]@[c[m] as int],
            term_subterms(built[k])[m],
            (fuel - 1) as nat,
        );
    }
    assert(same_shape(x, built[k], fuel));
}

/// The terms built over a transition into `q` that is not marked, from
/// the terms of its children, have acyclic runs into `q`; together with
/// the terms of the transitions before it they cover the terms that have
/// an acyclic run which starts with one of these transitions.
pub proof fn lemma_transition_terms<S, M>(
    ts: Seq<TransitionView<S, M>>,
    t: int,
    q: S,
    subs: Seq<Vec<Term<u64>>>,
    built: Seq<Term<u64>>,
    before: Seq<Term<u64>>,
    visited: Seq<bool>,
    fuel: nat,
)
    requires
        0 <= t < ts.len(),
        t < visited.len(),
        !visited[t],
        fuel > 0,
        ts[t].2 == q,
        subs.len() == ts[t].0.1.len(),
        forall|m: int, k: int|
            0 <= m < subs.len() && 0 <= k < subs[m]@.len() ==> acyclic_run(
                ts,
                #[trigger] subs[m]@[k],
                ts[t].0.1[m],
                visited.update(t, true),
                (fuel - 1) as nat,
            ),
        forall|m: int, y: Term<u64>|
            0 <= m < subs.len() && #[trigger] acyclic_run(
                ts,
                y,
                ts[t].0.1[m],
                visited.update(t, true),
                (fuel - 1) as nat,
            ) ==> covers(subs[m]@, y, (fuel - 1) as nat),
        forall|k: int| 0 <= k < built.len() ==> is_built(#[trigger] built[k], ts[t].0.0, subs),
        forall|c: Seq<usize>| #[trigger] points_into(subs, c) ==> has_built(built, ts[t].0.0, subs, c),
        forall|k: int| 0 <= k < before.len() ==> acyclic_run(ts, #[trigger] before[k], q, visited, fuel),
        forall|x: Term<u64>, i: int|
            0 <= i < t && #[trigger] acyclic_via(ts, i, x, q, visited, fuel) ==> covers(before, x, fuel),
    ensures
        forall|k: int|
            0 <= k < (before + built).len() ==> acyclic_run(
                ts,
                #[trigger] (before + built)[k],
                q,
                visited,
                fuel,
            ),
        forall|x: Term<u64>, i: int|
            0 <= i < t + 1 && #[trigger] acyclic_via(ts, i, x, q, visited, fuel) ==> covers(
                before + built,
                x,
                fuel,
            ),
{
    let all = before + built;
    assert forall|k: int| 0 <= k < all.len() implies acyclic_run(ts, #[trigger] all[k], q, visited, fuel) by {
        if k < before.len() {
            assert(all[k] == before[k]);
        } else {
            let own = k - before.len();
            assert(all[k] == built[own]);
            assert(is_built(built[own], ts[t].0.0, subs));
            let c = choose|c: Seq<usize>|
                points_into(subs, c) && #[trigger] built_from(built[own], ts[t].0.0, subs, c);
            lemma_built_runs(ts, t, built[own], subs, c, visited, fuel);
        }
    }
    assert forall|x: Term<u64>, i: int|
        0 <= i < t + 1 && #[trigger] acyclic_via(ts, i, x, q, visited, fuel) implies covers(
        all,
        x,
        fuel,
    ) by {
        if i < t {
            assert(covers(before, x, fuel));
            let k = choose|k: int| 0 <= k < before.len() && same_shape(x, #[trigger] before[k], fuel);
            assert(all[k] == before[k]);
        } else {
            lemma_via_covered(ts, i, x, q, subs, built, visited, fuel);
            let k = choose|k: int| 0 <= k < built.len() && same_shape(x, #[trigger] built[k], fuel);
            assert(all[before.len() + k] == built[k]);
        }
    }
}

/// A transition that is marked, or does not lead into `q`, starts no
/// acyclic run into `q`.
pub proof fn lemma_transition_skipped<S, M>(
    ts: Seq<TransitionView<S, M>>,
    t: int,
    q: S,
    out: Seq<Term<u64>>,
    visited: Seq<bool>,
    fuel: nat,
)
    requires
        0 <= t < ts.len(),
        t < visited.len(),
        visited[t] || ts[t].2 != q,
        forall|x: Term<u64>, i: int|
            0 <= i < t && #[trigger] acyclic_via(ts, i, x, q, visited, fuel) ==> covers(out, x, fuel),
    ensures
        forall|x: Term<u64>, i: int|
            0 <= i < t + 1 && #[trigger] acyclic_via(ts, i, x, q, visited, fuel) ==> covers(out, x, fuel),
{
    assert forall|x: Term<u64>, i: int|
        0 <= i < t + 1 && #[trigger] acyclic_via(ts, i, x, q, visited, fuel) implies covers(
        out,
        x,
        fuel,
    ) by {
        if i == t {
            assert(fits(ts, i, x, q));
        }
    }
}

/// The terms that have a run into `q` which takes no transition that
/// `visited` marks and no transition twice on one path: each term of the
/// result has such a run, and each term that has one has its shape in the
/// result. The terms come in the order of the transitions; those of one
/// transition in the order of the product of the terms of its children,
/// the last child varying fastest.
pub fn acyclic_terms<Q: Value, L: Value>(aut: &Automaton<Q, L>, q: &Q, visited: &Vec<bool>) -> (r: Vec<
    Term<u64>,
>)
    requires
        visited@.len() == aut.transitions@.len(),
    ensures
        forall|k: int|
            0 <= k < r@.len() ==> acyclic_run(
                aut.transitions_view(),
                #[trigger] r@[k],
                q@,
                visited@,
                unvisited(visited@),
            ),
        forall|x: Term<u64>| #[trigger]
            acyclic_run(aut.transitions_view(), x, q@, visited@, unvisited(visited@)) ==> covers(
                r@,
                x,
                unvisited(visited@),
            ),
    decreases unvisited(visited@),
{
    let ghost ts = aut.transitions_view();
    let ghost fuel = unvisited(visited@);
    let mut out: Vec<Term<u64>> = Vec::new();
    let mut t: usize = 0;
    while t < aut.transitions.len()
        invariant
            0 <= t <= aut.transitions.len(),
            visited@.len() == aut.transitions@.len(),
            ts == aut.transitions_view(),
            fuel == unvisited(visited@),
            forall|k: int| 0 <= k < out@.len() ==> acyclic_run(ts, #[trigger] out@[k], q@, visited@, fuel),
            forall|x: Term<u64>, i: int|
                0 <= i < t && #[trigger] acyclic_via(ts, i, x, q@, visited@, fuel) ==> covers(
                    out@,
                    x,
                    fuel,
                ),
        decreases aut.transitions.len() - t,
    {
        let ghost out_before = out@;
        if !visited[t] && aut.transitions[t].2.same(q) {
            let mut path: Vec<bool> = visited.clone();
            path.set(t, true);
            proof {
                lemma_visit(visited@, t as int);
            }
            let f: Symbol = aut.transitions[t].0.0;
            let children = &aut.transitions[t].0.1;
            let mut subs: Vec<Vec<Term<u64>>> = Vec::new();
            let mut j: usize = 0;
            while j < children.len()
                invariant
                    0 <= j <= children.len(),
                    path@ == visited@.update(t as int, true),
                    path@.len() == aut.transitions@.len(),
                    unvisited(path@) + 1 == fuel,
                    fuel == unvisited(visited@),
                    ts == aut.transitions_view(),
                    0 <= t < aut.transitions.len(),
                    children == &aut.transitions@[t as int].0.1,
                    subs.len() == j,
                    forall|m: int, k: int|
                        0 <= m < j && 0 <= k < subs@[m]@.len() ==> acyclic_run(
                            ts,
                            #[trigger] subs@[m]@[k],
                            children@[m]@,
                            path@,
                            (fuel - 1) as nat,
                        ),
                    forall|m: int, x: Term<u64>|
                        0 <= m < j && #[trigger] acyclic_run(
                            ts,
                            x,
                            children@[m]@,
                            path@,
                            (fuel - 1) as nat,
                        ) ==> covers(subs@[m]@, x, (fuel - 1) as nat),
                decreases children.len() - j,
            {
                let list = acyclic_terms(aut, &children[j], &path);
                subs.push(list);
                j += 1;
            }
            let mut built = combine(f, &subs);
            proof {
                assert(views(children@) == ts[t as int].0.1);
                lemma_transition_terms(ts, t as int, q@, subs@, built@, out_before, visited@, fuel);
            }
            out.append(&mut built);
        } else {
            proof {
                lemma_transition_skipped(ts, t as int, q@, out@, visited@, fuel);
            }
        }
        t += 1;
    }
    proof {
        assert forall|x: Term<u64>| #[trigger] acyclic_run(ts, x, q@, visited@, fuel) implies covers(
            out@,
            x,
            fuel,
        ) by {
            let i = choose|i: int|
                #[trigger] fits(ts, i, x, q@) && i < visited@.len() && !visited@[i] && forall|j: int|
                    0 <= j < ts[i].0.1.len() ==> acyclic_run(
                        ts,
                        #[trigger] term_subterms(x)[j],
                        ts[i].0.1[j],
                        visited@.update(i, true),
                        (fuel - 1) as nat,
                    );
            assert(acyclic_via(ts, i, x, q@, visited@, fuel));
        }
    }
    out
}

/// An acyclic run depends on a term only through its top symbol and its
/// direct subterms.
pub proof fn lemma_acyclic_alike<S, M>(
    ts: Seq<TransitionView<S, M>>,
    a: Term<u64>,
    b: Term<u64>,
    q: S,
    visited: Seq<bool>,
    fuel: nat,
)
    requires
        alike(b, a),
        acyclic_run(ts, a, q, visited, fuel),
    ensures
        acyclic_run(ts, b, q, visited, fuel),
{
    let i = choose|i: int|
        #[trigger] fits(ts, i, a, q) && i < visited.len() && !visited[i] && forall|j: int|
            0 <= j < ts[i].0.1.len() ==> acyclic_run(
                ts,
                #[trigger] term_subterms(a)[j],
                ts[i].0.1[j],
                visited.update(i, true),
                (fuel - 1) as nat,
            );
    assert(fits(ts, i, b, q));
}

/// The position of a counter never exceeds the number of its tuples.
pub proof fn lemma_rank_bound_done(odometer: &Odometer)
    requires
        odometer.wf(),
    ensures
        odometer.position() <= count(odometer.limits@),
        !odometer.done ==> odometer.position() < count(odometer.limits@),
{
    if !odometer.done {
        lemma_rank_bound(odometer.limits@, odometer.cursor@);
    }
}

/// A run depends on a term only through its top symbol and its direct
/// subterms.
pub proof fn lemma_same_shape<S, M>(
    ts: Seq<TransitionView<S, M>>,
    a: Term<u64>,
    b: Term<u64>,
    q: S,
    depth: nat,
)
    requires
        term_symbol(a) == term_symbol(b),
        term_subterms(a) == term_subterms(b),
        run_into(ts, a, q, depth),
    ensures
        run_into(ts, b, q, depth),
{
    let i = choose|i: int|
        #[trigger] fits(ts, i, a, q) && forall|j: int|
            0 <= j < ts[i].0.1.len() ==> run_into(
                ts,
                #[trigger] term_subterms(a)[j],
                ts[i].0.1[j],
                (depth - 1) as nat,
            );
    assert(fits(ts, i, b, q));
}


/// No transition marked, of `n`.
pub open spec fn unmarked(n: nat) -> Seq<bool> {
    Seq::new(n, |i: int| false)
}

/// Whether `t` has a run into one of `finals` that takes no transition
/// twice on one path.
pub open spec fn acyclic_from<S, M>(ts: Seq<TransitionView<S, M>>, finals: Seq<S>, t: Term<u64>) -> bool {
    exists|j: int|
        0 <= j < finals.len() && acyclic_run(
            ts,
            t,
            #[trigger] finals[j],
            unmarked(ts.len()),
            unvisited(unmarked(ts.len())),
        )
}

/// Whether `terms` are the representatives of the automaton with
/// transitions `ts` and accepting states `finals`: each has a run into an
/// accepting state that takes no transition twice on one path, and each
/// term that has such a run has its shape among them.
pub open spec fn represents<S, M>(
    ts: Seq<TransitionView<S, M>>,
    finals: Seq<S>,
    terms: Seq<Term<u64>>,
) -> bool {
    &&& forall|k: int| 0 <= k < terms.len() ==> acyclic_from(ts, finals, #[trigger] terms[k])
    &&& forall|x: Term<u64>| #[trigger]
        acyclic_from(ts, finals, x) ==> covers(terms, x, unvisited(unmarked(ts.len())))
}

/// Lists put one after the other cover what either covers.
pub proof fn lemma_covers_append(a: Seq<Term<u64>>, b: Seq<Term<u64>>, x: Term<u64>, n: nat)
    requires
        covers(a, x, n) || covers(b, x, n),
    ensures
        covers(a + b, x, n),
{
    if covers(a, x, n) {
        let k = choose|k: int| 0 <= k < a.len() && same_shape(x, #[trigger] a[k], n);
        assert((a + b)[k] == a[k]);
    } else {
        let k = choose|k: int| 0 <= k < b.len() && same_shape(x, #[trigger] b[k], n);
        assert((a + b)[a.len() + k] == b[k]);
    }
}

/// The enumeration of the terms that an automaton accepts by a run which
/// takes no transition twice on one path from the root to a leaf.
pub struct Representatives<'a, Q, L> {
    pub automaton: &'a Automaton<Q, L>,
    pub terms: Vec<Term<u64>>,
    pub position: usize,
}

impl<'a, Q: Value, L: Value> Representatives<'a, Q, L> {
    /// The position is within the terms, which are the representatives of
    /// the automaton; the automaton accepts each of them.
    pub open spec fn wf(&self) -> bool {
        &&& self.position <= self.terms@.len()
        &&& represents(
            self.automaton.transitions_view(),
            self.automaton.finals_view(),
            self.terms@,
        )
        &&& forall|k: int|
            0 <= k < self.terms@.len() ==> accepts(
                self.automaton.transitions_view(),
                self.automaton.finals_view(),
                #[trigger] self.terms@[k],
            )
    }

    /// The enumeration for `aut`, at its first term. The terms of one
    /// accepting state come together, in the order of its transitions.
    pub fn new(aut: &'a Automaton<Q, L>) -> (r: Representatives<'a, Q, L>)
        ensures
            r.wf(),
            r.automaton == aut,
            r.position == 0,
    {
        let ghost ts = aut.transitions_view();
        let ghost fs = aut.finals_view();
        let mut visited: Vec<bool> = Vec::new();
        let mut i: usize = 0;
        while i < aut.transitions.len()
            invariant
                0 <= i <= aut.transitions.len(),
                visited.len() == i,
                forall|k: int| 0 <= k < i ==> !visited@[k],
            decreases aut.transitions.len() - i,
        {
            visited.push(false);
            i += 1;
        }
        assert(visited@ =~= unmarked(ts.len()));
        let ghost fuel = unvisited(unmarked(ts.len()));
        let mut terms: Vec<Term<u64>> = Vec::new();
        let mut s: usize = 0;
        while s < aut.final_states.len()
            invariant
                0 <= s <= aut.final_states.len(),
                visited@.len() == aut.transitions@.len(),
                visited@ == unmarked(ts.len()),
                fuel == unvisited(unmarked(ts.len())),
                ts == aut.transitions_view(),
                fs == aut.finals_view(),
                forall|k: int| 0 <= k < terms@.len() ==> accepts(ts, fs, #[trigger] terms@[k]),
                forall|k: int| 0 <= k < terms@.len() ==> acyclic_from(ts, fs, #[trigger] terms@[k]),
                forall|x: Term<u64>, j: int|
                    0 <= j < s && #[trigger] acyclic_run(ts, x, fs[j], visited@, fuel) ==> covers(
                        terms@,
                        x,
                        fuel,
                    ),
            decreases aut.final_states.len() - s,
        {
            let q = &aut.final_states[s];
            let mut found = acyclic_terms(aut, q, &visited);
            let ghost base = terms@;
            let ghost added = found@;
            assert(fs[s as int] == q@);
            proof {
                assert forall|k: int| 0 <= k < added.len() implies accepts(ts, fs, #[trigger] added[k])
                    && acyclic_from(ts, fs, added[k]) by {
                    lemma_acyclic_is_run(ts, added[k], q@, visited@, unvisited(visited@));
                    assert(accepts_into(ts, added[k], q@));
                    assert(fs.contains(q@));
                }
                assert forall|x: Term<u64>, j: int|
                    0 <= j < s + 1 && #[trigger] acyclic_run(ts, x, fs[j], visited@, fuel) implies covers(
                    base + added,
                    x,
                    fuel,
                ) by {
                    if j < s {
                        assert(covers(base, x, fuel));
                    } else {
                        assert(covers(added, x, fuel));
                    }
                    lemma_covers_append(base, added, x, fuel);
                }
            }
            terms.append(&mut found);
            assert(terms@ == base + added);
            s += 1;
        }
        proof {
            assert forall|x: Term<u64>| #[trigger] acyclic_from(ts, fs, x) implies covers(
                terms@,
                x,
                fuel,
            ) by {
                let j = choose|j: int|
                    0 <= j < fs.len() && acyclic_run(ts, x, #[trigger] fs[j], unmarked(ts.len()), fuel);
                assert(acyclic_run(ts, x, fs[j], visited@, fuel));
            }
        }
        Representatives { automaton: aut, terms, position: 0 }
    }

    /// The next term, if there is one. The automaton accepts it.
    pub fn next(&mut self) -> (r: Option<Term<u64>>)
        requires
            old(self).wf(),
        ensures
            final(self).wf(),
            final(self).automaton == old(self).automaton,
            final(self).terms@ == old(self).terms@,
            r.is_some() == (old(self).position < old(self).terms@.len()),
            match r {
                Some(t) => {
                    &&& term_symbol(t) == term_symbol(old(self).terms@[old(self).position as int])
                    &&& term_subterms(t) == term_subterms(
                        old(self).terms@[old(self).position as int],
                    )
                    &&& accepts(
                        old(self).automaton.transitions_view(),
                        old(self).automaton.finals_view(),
                        t,
                    )
                    &&& final(self).position == old(self).position + 1
                },
                None => final(self).position == old(self).position,
            },
    {
        if self.position < self.terms.len() {
            let t = copy_term(&self.terms[self.position]);
            proof {
                let ts = self.automaton.transitions_view();
                let fs = self.automaton.finals_view();
                let orig = self.terms@[self.position as int];
                assert(accepts(ts, fs, orig));
                let q = choose|q: Q::V| fs.contains(q) && #[trigger] accepts_into(ts, orig, q);
                let depth = choose|depth: nat| run_into(ts, orig, q, depth);
                lemma_same_shape(ts, orig, t, q, depth);
                assert(accepts_into(ts, t, q));
            }
            self.position = self.position + 1;
            Some(t)
        } else {
            None
        }
    }
}


impl<Q: Value, L: Value> Automaton<Q, L> {
    /// The joint enumeration of the configurations that `automata` have in
    /// common at `positions`.
    pub fn common_configurations(automata: &[&Automaton<Q, L>], positions: &[Q]) -> (r: CommonConfigurations<
        Q,
        L,
    >)
        requires
            automata@.len() == positions@.len(),
        ensures
            r.wf(),
            r.slots == positions@.len(),
            forall|i: int|
                0 <= i < positions@.len() ==> #[trigger] r.candidates(i)
                    == automata@[i].configurations_of(positions@[i]@),
            !r.product.exhausted() ==> r.product.position() == 0,
    {
        CommonConfigurations::new(automata, positions)
    }

    /// The enumeration of the terms that the automaton accepts by a run
    /// which takes no transition twice on one path.
    pub fn representatives(&self) -> (r: Representatives<'_, Q, L>)
        ensures
            r.wf(),
            r.automaton == self,
            r.position == 0,
    {
        Representatives::new(self)
    }
}


/// Over copies of one list of labeled configurations whose top symbols are
/// pairwise different, the tuples with a common top symbol are those that
/// take the same place in every slot: one for each configuration of the
/// list, with that configuration in every slot.
pub proof fn lemma_common_of_copies<Q: Value, L: Value>(
    search: CommonConfigurations<Q, L>,
    list: Seq<((Symbol, Seq<Q::V>), L::V)>,
    c: Seq<usize>,
)
    requires
        search.wf(),
        search.slots > 0,
        forall|i: int| 0 <= i < search.slots ==> #[trigger] search.candidates(i) == list,
        forall|a: int, b: int| 0 <= a < b < list.len() ==> list[a].0.0 != list[b].0.0,
        c.len() == search.slots,
        forall|i: int| 0 <= i < c.len() ==> (#[trigger] c[i]) < list.len(),
    ensures
        common(search.product.tuple_at(c)) <==> forall|i: int| 0 <= i < c.len() ==> #[trigger] c[i] == c[0],
        common(search.product.tuple_at(c)) ==> forall|i: int|
            0 <= i < c.len() ==> #[trigger] search.product.tuple_at(c)[i] == list[c[0] as int],
{
    let tuple = search.product.tuple_at(c);
    assert forall|i: int| 0 <= i < c.len() implies #[trigger] tuple[i] == list[c[i] as int] by {
        assert(search.candidates(i) == list);
        assert(search.candidates(i)[c[i] as int] == tuple[i]);
    }
    if common(tuple) {
        assert forall|i: int| 0 <= i < c.len() implies #[trigger] c[i] == c[0] by {
            assert(tuple[i].0.0 == tuple[0].0.0);
            assert(tuple[0] == list[c[0] as int]);
            if c[i] < c[0] {
                assert(list[c[i] as int].0.0 != list[c[0] as int].0.0);
            }
            if c[0] < c[i] {
                assert(list[c[0] as int].0.0 != list[c[i] as int].0.0);
            }
        }
    }
    if forall|i: int| 0 <= i < c.len() ==> #[trigger] c[i] == c[0] {
        assert forall|i: int| 0 <= i < tuple.len() implies (#[trigger] tuple[i]).0.0 == tuple[0].0.0 by {
            assert(c[i] == c[0]);
            assert(tuple[0] == list[c[0] as int]);
        }
    }
}

} // verus!
