//! Alternating tree automata: for each state and symbol a clause, that is a
//! disjunction of conjunctions of (child index, state) pairs.
use vstd::prelude::*;
use crate::Symbol;
use crate::value::{Value, views, contains, insert_unique, lemma_views_push};
use crate::bottom_up;
use crate::bottom_up::search::{run_into, fits, accepts, accepts_into};
use crate::bottom_up::lemma_filter_map_has;
use crate::term::{term_symbol, term_subterms};
use terms::Term;
use crate::bottom_up::{TransitionView, states_image, maps_to, lemma_states_image_step};

verus! {

/// A conjunction of (child index, state) pairs. The empty one is true.
pub type Conjuction<Q, I> = Vec<(I, Q)>;

/// A disjunction of conjunctions. The empty one is false.
pub type Clause<Q, I> = Vec<Conjuction<Q, I>>;

/// The mathematical form of a clause.
pub type ClauseView<S, J> = Seq<Seq<(J, S)>>;

/// The clause of one state and one symbol.
pub struct Entry<Q, I> {
    pub state: Q,
    pub symbol: Symbol,
    pub clause: Clause<Q, I>,
}

/// The views of the conjunctions of a clause, in order.
pub open spec fn clause_view<Q: Value, I: Value>(clause: Seq<Conjuction<Q, I>>) -> ClauseView<
    Q::V,
    I::V,
> {
    Seq::new(clause.len(), |k: int| views(clause[k]@))
}

/// An alternating tree automaton. It holds one entry for each pair of a
/// state and a symbol that has a clause, and the initial states, each once.
pub struct Automaton<Q, I> {
    pub initial_states: Vec<Q>,
    pub state_clauses: Vec<Entry<Q, I>>,
}

impl<Q: Value, I: Value> Automaton<Q, I> {
    /// The initial states, in insertion order.
    pub open spec fn initial_view(&self) -> Seq<Q::V> {
        views(self.initial_states@)
    }

    /// Whether entry `k` is the one of state `q` and symbol `f`.
    pub open spec fn is_entry(&self, k: int, q: Q::V, f: Symbol) -> bool {
        &&& 0 <= k < self.state_clauses@.len()
        &&& self.state_clauses@[k].state@ == q
        &&& self.state_clauses@[k].symbol == f
    }

    /// Whether state `q` has a clause for symbol `f`.
    pub open spec fn has_clause(&self, q: Q::V, f: Symbol) -> bool {
        exists|k: int| self.is_entry(k, q, f)
    }

    /// The clause of state `q` and symbol `f`; the empty clause if there is
    /// none.
    pub open spec fn clause(&self, q: Q::V, f: Symbol) -> ClauseView<Q::V, I::V> {
        if self.has_clause(q, f) {
            let k = choose|k: int| self.is_entry(k, q, f);
            clause_view(self.state_clauses@[k].clause@)
        } else {
            Seq::empty()
        }
    }

    /// Whether state `q` and symbol `f` have in `self` what they have in
    /// `other`: a clause in both or in none, and the same one.
    pub open spec fn agrees(&self, other: Automaton<Q, I>, q: Q::V, f: Symbol) -> bool {
        &&& self.has_clause(q, f) == other.has_clause(q, f)
        &&& self.clause(q, f) == other.clause(q, f)
    }

    /// The states that have a clause.
    pub open spec fn state_set(&self) -> Set<Q::V> {
        Seq::new(self.state_clauses@.len(), |k: int| self.state_clauses@[k].state@).to_set()
    }

    /// No pair of a state and a symbol has two entries, and no initial
    /// state is held twice.
    pub open spec fn wf(&self) -> bool {
        &&& self.initial_view().no_duplicates()
        &&& forall|a: int, b: int, q: Q::V, f: Symbol|
            self.is_entry(a, q, f) && self.is_entry(b, q, f) ==> a == b
    }

    /// The empty automaton.
    pub fn new() -> (r: Automaton<Q, I>)
        ensures
            r.wf(),
            r.state_clauses@.len() == 0,
            r.initial_view() == Seq::<Q::V>::empty(),
    {
        let r = Automaton { initial_states: Vec::new(), state_clauses: Vec::new() };
        assert(r.initial_view() =~= Seq::empty());
        r
    }

    /// The index of the entry of `state` and `symbol`, if there is one.
    pub fn find(&self, state: &Q, symbol: Symbol) -> (r: Option<usize>)
        ensures
            match r {
                Some(k) => self.is_entry(k as int, state@, symbol),
                None => !self.has_clause(state@, symbol),
            },
    {
        let mut k: usize = 0;
        while k < self.state_clauses.len()
            invariant
                0 <= k <= self.state_clauses@.len(),
                forall|j: int| 0 <= j < k ==> !self.is_entry(j, state@, symbol),
            decreases self.state_clauses@.len() - k,
        {
            if self.state_clauses[k].symbol == symbol && self.state_clauses[k].state.same(state) {
                return Some(k);
            }
            k += 1;
        }
        None
    }

    /// The states that have a clause, each once.
    pub fn states(&self) -> (r: Vec<Q>)
        ensures
            views(r@).no_duplicates(),
            views(r@).to_set() == self.state_set(),
    {
        let mut out: Vec<Q> = Vec::new();
        let ghost all = Seq::new(self.state_clauses@.len(), |k: int| self.state_clauses@[k].state@);
        let mut i: usize = 0;
        assert(views(out@).to_set() =~= all.take(0).to_set());
        while i < self.state_clauses.len()
            invariant
                0 <= i <= self.state_clauses@.len(),
                all == Seq::new(self.state_clauses@.len(), |k: int| self.state_clauses@[k].state@),
                views(out@).no_duplicates(),
                views(out@).to_set() == all.take(i as int).to_set(),
            decreases self.state_clauses@.len() - i,
        {
            let q = self.state_clauses[i].state.copy();
            proof {
                assert(all.take(i + 1) =~= all.take(i as int).push(q@));
                all.take(i as int).lemma_push_to_set_commute(q@);
            }
            insert_unique(&mut out, q);
            i += 1;
        }
        assert(all.take(i as int) =~= all);
        out
    }

    /// The clauses of state `q`, each with its symbol; none if `q` has no
    /// clause.
    pub fn clauses_for_state(&self, q: &Q) -> (r: Vec<(Symbol, &Clause<Q, I>)>)
        requires
            self.wf(),
        ensures
            forall|k: int|
                0 <= k < r@.len() ==> self.has_clause(q@, (#[trigger] r@[k]).0) && clause_view(
                    r@[k].1@,
                ) == self.clause(q@, r@[k].0),
            forall|f: Symbol|
                self.has_clause(q@, f) ==> exists|k: int| 0 <= k < r@.len() && (#[trigger] r@[k]).0 == f,
            forall|a: int, b: int| 0 <= a < b < r@.len() ==> r@[a].0 != r@[b].0,
    {
        let mut out: Vec<(Symbol, &Clause<Q, I>)> = Vec::new();
        let ghost mut origin: Seq<int> = Seq::empty();
        let mut i: usize = 0;
        while i < self.state_clauses.len()
            invariant
                0 <= i <= self.state_clauses@.len(),
                self.wf(),
                origin.len() == out@.len(),
                forall|k: int|
                    0 <= k < out@.len() ==> 0 <= #[trigger] origin[k] < i && self.is_entry(
                        origin[k],
                        q@,
                        out@[k].0,
                    ) && out@[k].1 == &self.state_clauses@[origin[k]].clause,
                forall|j: int, f: Symbol|
                    0 <= j < i && self.is_entry(j, q@, f) ==> exists|k: int|
                        0 <= k < out@.len() && (#[trigger] out@[k]).0 == f,
                forall|a: int, b: int| 0 <= a < b < out@.len() ==> origin[a] < origin[b],
            decreases self.state_clauses@.len() - i,
        {
            if self.state_clauses[i].state.same(q) {
                let ghost before = out@;
                out.push((self.state_clauses[i].symbol, &self.state_clauses[i].clause));
                proof {
                    origin = origin.push(i as int);
                    assert forall|j: int, f: Symbol|
                        0 <= j < i + 1 && self.is_entry(j, q@, f) implies exists|k: int|
                        0 <= k < out@.len() && (#[trigger] out@[k]).0 == f by {
                        if j < i {
                            let k = choose|k: int| 0 <= k < before.len() && (#[trigger] before[k]).0 == f;
                            assert(out@[k].0 == f);
                        } else {
                            assert(out@[out@.len() - 1].0 == f);
                        }
                    }
                }
            }
            i += 1;
        }
        proof {
            assert forall|k: int| 0 <= k < out@.len() implies self.has_clause(
                q@,
                (#[trigger] out@[k]).0,
            ) && clause_view(out@[k].1@) == self.clause(q@, out@[k].0) by {
                assert(self.is_entry(origin[k], q@, out@[k].0));
            }
            assert forall|f: Symbol| self.has_clause(q@, f) implies exists|k: int|
                0 <= k < out@.len() && (#[trigger] out@[k]).0 == f by {
                let j = choose|j: int| self.is_entry(j, q@, f);
                assert(self.is_entry(j, q@, f));
            }
            assert forall|a: int, b: int| 0 <= a < b < out@.len() implies out@[a].0 != out@[b].0 by {
                assert(self.is_entry(origin[a], q@, out@[a].0));
                assert(self.is_entry(origin[b], q@, out@[b].0));
            }
        }
        out
    }

    /// Adds `conjuction` to the clause of `state` and `symbol`, as its
    /// last disjunct.
    pub fn add(&mut self, state: &Q, symbol: Symbol, conjuction: Conjuction<Q, I>)
        requires
            old(self).wf(),
        ensures
            final(self).wf(),
            final(self).initial_view() == old(self).initial_view(),
            final(self).has_clause(state@, symbol),
            final(self).clause(state@, symbol) == old(self).clause(state@, symbol).push(
                views(conjuction@),
            ),
            forall|q: Q::V, f: Symbol|
                (q != state@ || f != symbol) ==> #[trigger] final(self).agrees(*old(self), q, f),
    {
        let ghost before = *self;
        match self.find(state, symbol) {
            Some(k) => {
                let ghost prev = self.state_clauses@[k as int].clause@;
                self.state_clauses[k].clause.push(conjuction);
                proof {
                    assert(self.state_clauses@[k as int].clause@ == prev.push(conjuction));
                    assert(self.state_clauses@.len() == before.state_clauses@.len());
                    assert(forall|j: int|
                        0 <= j < self.state_clauses@.len() ==> (#[trigger] self.state_clauses@[j]).state
                            == before.state_clauses@[j].state && self.state_clauses@[j].symbol
                            == before.state_clauses@[j].symbol);
                    assert(forall|j: int|
                        0 <= j < self.state_clauses@.len() && j != k ==> (
                        #[trigger] self.state_clauses@[j]).clause == before.state_clauses@[j].clause);
                    assert(forall|j: int, q: Q::V, f: Symbol|
                        #[trigger] self.is_entry(j, q, f) == before.is_entry(j, q, f));
                    assert(self.is_entry(k as int, state@, symbol));
                    assert(before.is_entry(k as int, state@, symbol));
                    assert(clause_view(prev.push(conjuction)) =~= clause_view(prev).push(
                        views(conjuction@),
                    ));
                    assert forall|q: Q::V, f: Symbol| (q != state@ || f != symbol) implies #[trigger] self.agrees(
                        before,
                        q,
                        f,
                    ) by {
                        if before.has_clause(q, f) {
                            let j = choose|j: int| before.is_entry(j, q, f);
                            assert(self.is_entry(j, q, f));
                            let j2 = choose|j: int| self.is_entry(j, q, f);
                            assert(before.is_entry(j2, q, f));
                            assert(j2 == j);
                            assert(j != k);
                        }
                        if self.has_clause(q, f) {
                            let j = choose|j: int| self.is_entry(j, q, f);
                            assert(before.is_entry(j, q, f));
                        }
                    }
                }
            },
            None => {
                let mut clause: Clause<Q, I> = Vec::new();
                clause.push(conjuction);
                let n = self.state_clauses.len();
                self.state_clauses.push(Entry { state: state.copy(), symbol, clause });
                proof {
                    assert(forall|j: int, q: Q::V, f: Symbol|
                        j < n ==> #[trigger] self.is_entry(j, q, f) == before.is_entry(j, q, f));
                    assert(forall|q: Q::V, f: Symbol|
                        #[trigger] self.is_entry(n as int, q, f) ==> q == state@ && f == symbol);
                    assert(self.is_entry(n as int, state@, symbol));
                    assert(before.clause(state@, symbol) =~= Seq::empty());
                    assert(clause_view(clause@) =~= Seq::<Seq<(I::V, Q::V)>>::empty().push(
                        views(conjuction@),
                    ));
                    assert forall|q: Q::V, f: Symbol| (q != state@ || f != symbol) implies #[trigger] self.agrees(
                        before,
                        q,
                        f,
                    ) by {
                        if before.has_clause(q, f) {
                            let j = choose|j: int| before.is_entry(j, q, f);
                            assert(self.is_entry(j, q, f));
                            let j2 = choose|j: int| self.is_entry(j, q, f);
                            assert(before.is_entry(j2, q, f));
                        }
                        if self.has_clause(q, f) {
                            let j = choose|j: int| self.is_entry(j, q, f);
                            assert(before.is_entry(j, q, f));
                        }
                    }
                }
            },
        }
    }

    /// Whether `q` is an initial state.
    pub fn is_initial(&self, q: &Q) -> (r: bool)
        ensures
            r == self.initial_view().contains(q@),
    {
        contains(&self.initial_states, q)
    }

    /// Marks `q` as initial; says whether it was not initial before.
    pub fn set_initial(&mut self, q: Q) -> (r: bool)
        requires
            old(self).wf(),
        ensures
            final(self).wf(),
            final(self).state_clauses@ == old(self).state_clauses@,
            r == !old(self).initial_view().contains(q@),
            r ==> final(self).initial_view() == old(self).initial_view().push(q@),
            !r ==> final(self).initial_view() == old(self).initial_view(),
            forall|s: Q::V, f: Symbol| #[trigger] final(self).agrees(*old(self), s, f),
    {
        let ghost before = *self;
        let ghost prev = self.initial_states@;
        let added = insert_unique(&mut self.initial_states, q);
        proof {
            if added {
                lemma_views_push(prev, q);
            }
            assert(forall|j: int, s: Q::V, f: Symbol|
                #[trigger] self.is_entry(j, s, f) == before.is_entry(j, s, f));
            assert forall|s: Q::V, f: Symbol| #[trigger] self.agrees(before, s, f) by {
                if before.has_clause(s, f) {
                    let j1 = choose|j: int| before.is_entry(j, s, f);
                    assert(self.is_entry(j1, s, f));
                    let j2 = choose|j: int| self.is_entry(j, s, f);
                    assert(before.is_entry(j2, s, f));
                    assert(j1 == j2);
                }
                if self.has_clause(s, f) {
                    let j2 = choose|j: int| self.is_entry(j, s, f);
                    assert(before.is_entry(j2, s, f));
                }
            }
        }
        added
    }
}


/// The conjunction that asks, for each child of a configuration, that the
/// subterm at its index be in the child state.
pub open spec fn enumerated<S>(children: Seq<S>) -> Seq<(u32, S)> {
    Seq::new(children.len(), |i: int| (i as u32, children[i]))
}

/// The conjunctions of the transitions with symbol `f` that lead into `q`,
/// in the order of the transitions.
pub open spec fn conjunctions_of<S, M>(ts: Seq<TransitionView<S, M>>, q: S, f: Symbol) -> ClauseView<
    S,
    u32,
> {
    ts.filter_map(select_conjunction::<S, M>(q, f))
}

/// The selection of the transitions with symbol `f` that lead into `q`:
/// each gives its conjunction.
pub open spec fn select_conjunction<S, M>(q: S, f: Symbol) -> spec_fn(TransitionView<S, M>) -> Option<
    Seq<(u32, S)>,
> {
    |t: TransitionView<S, M>|
        if t.2 == q && t.0.0 == f {
            Some(enumerated(t.0.1))
        } else {
            None
        }
}

impl<Q: Value> Automaton<Q, u32> {
    /// Adds a bottom-up transition: the conjunction of its children, each
    /// with its index, becomes the last disjunct of the clause of `state`
    /// and the symbol.
    pub fn add_transition(&mut self, configuration: &bottom_up::Configuration<Q>, state: &Q)
        requires
            old(self).wf(),
            configuration.1@.len() <= u32::MAX,
        ensures
            final(self).wf(),
            final(self).initial_view() == old(self).initial_view(),
            final(self).has_clause(state@, configuration@.0),
            final(self).clause(state@, configuration@.0) == old(self).clause(
                state@,
                configuration@.0,
            ).push(enumerated(configuration@.1)),
            forall|q: Q::V, f: Symbol|
                (q != state@ || f != configuration@.0) ==> #[trigger] final(self).agrees(
                    *old(self),
                    q,
                    f,
                ),
    {
        let mut conjunction: Conjuction<Q, u32> = Vec::new();
        let mut i: usize = 0;
        while i < configuration.1.len()
            invariant
                0 <= i <= configuration.1@.len(),
                configuration.1@.len() <= u32::MAX,
                conjunction@.len() == i,
                forall|k: int|
                    0 <= k < i ==> (#[trigger] conjunction@[k])@ == (k as u32, configuration.1@[k]@),
            decreases configuration.1@.len() - i,
        {
            conjunction.push((i as u32, configuration.1[i].copy()));
            i += 1;
        }
        assert(views(conjunction@) =~= enumerated(configuration@.1));
        self.add(state, configuration.0, conjunction);
    }

    /// The alternating automaton that holds each transition of `aut` as one
    /// conjunction, and each accepting state of `aut` as an initial state.
    pub fn from_bottom_up<L: Value>(aut: &bottom_up::Automaton<Q, L>) -> (r: Automaton<Q, u32>)
        requires
            aut.wf(),
            forall|i: int|
                0 <= i < aut.transitions@.len() ==> (#[trigger] aut.transitions@[i]).0.1@.len()
                    <= u32::MAX,
        ensures
            r.wf(),
            r.initial_view() == aut.finals_view(),
            forall|q: Q::V, f: Symbol| #[trigger]
                r.clause(q, f) == conjunctions_of(aut.transitions_view(), q, f),
    {
        let mut out: Automaton<Q, u32> = Automaton::new();
        let ghost ts = aut.transitions_view();
        assert forall|q: Q::V, f: Symbol| #[trigger] out.clause(q, f) == conjunctions_of(ts.take(0), q, f) by {
            assert(conjunctions_of(ts.take(0), q, f) =~= Seq::empty());
        }
        let mut i: usize = 0;
        while i < aut.transitions.len()
            invariant
                0 <= i <= aut.transitions@.len(),
                ts == aut.transitions_view(),
                forall|k: int|
                    0 <= k < aut.transitions@.len() ==> (#[trigger] aut.transitions@[k]).0.1@.len()
                        <= u32::MAX,
                out.wf(),
                out.initial_view() == Seq::<Q::V>::empty(),
                forall|q: Q::V, f: Symbol| #[trigger]
                    out.clause(q, f) == conjunctions_of(ts.take(i as int), q, f),
            decreases aut.transitions@.len() - i,
        {
            let t = &aut.transitions[i];
            let ghost before = out;
            out.add_transition(&t.0, &t.2);
            proof {
                assert(ts.take(i + 1).drop_last() =~= ts.take(i as int));
                assert(ts.take(i + 1).last() == t@);
                assert forall|q: Q::V, f: Symbol| #[trigger] out.clause(q, f) == conjunctions_of(
                    ts.take(i + 1),
                    q,
                    f,
                ) by {
                    let sel = select_conjunction::<Q::V, L::V>(q, f);
                    if q == t.2@ && f == t.0@.0 {
                        assert(sel(t@) == Some(enumerated(t.0@.1)));
                        assert(before.clause(q, f).push(enumerated(t.0@.1)) =~= before.clause(q, f)
                            + seq![enumerated(t.0@.1)]);
                    } else {
                        assert(out.agrees(before, q, f));
                        assert(sel(t@).is_none());
                    }
                }
            }
            i += 1;
        }
        assert(ts.take(i as int) =~= ts);
        let mut k: usize = 0;
        let ghost fs = aut.finals_view();
        assert(out.initial_view() =~= fs.take(0));
        while k < aut.final_states.len()
            invariant
                0 <= k <= aut.final_states@.len(),
                fs == aut.finals_view(),
                fs.no_duplicates(),
                out.wf(),
                out.initial_view() == fs.take(k as int),
                forall|q: Q::V, f: Symbol| #[trigger] out.clause(q, f) == conjunctions_of(ts, q, f),
            decreases aut.final_states@.len() - k,
        {
            let ghost before = out;
            let q = aut.final_states[k].copy();
            proof {
                if fs.take(k as int).contains(q@) {
                    let j = choose|j: int| 0 <= j < k && fs.take(k as int)[j] == q@;
                    assert(fs[j] == fs[k as int]);
                }
            }
            out.set_initial(q);
            proof {
                assert(fs.take(k + 1) =~= fs.take(k as int).push(q@));
                assert forall|s: Q::V, f: Symbol| #[trigger] out.clause(s, f) == conjunctions_of(ts, s, f) by {
                    assert(forall|j: int| #[trigger] out.is_entry(j, s, f) == before.is_entry(j, s, f));
                    assert(before.clause(s, f) == conjunctions_of(ts, s, f));
                    if before.has_clause(s, f) {
                        let j1 = choose|j: int| before.is_entry(j, s, f);
                        assert(out.is_entry(j1, s, f));
                        let j2 = choose|j: int| out.is_entry(j, s, f);
                        assert(before.is_entry(j2, s, f));
                        assert(j1 == j2);
                    }
                    if out.has_clause(s, f) {
                        let j2 = choose|j: int| out.is_entry(j, s, f);
                        assert(before.is_entry(j2, s, f));
                    }
                }
            }
            k += 1;
        }
        assert(fs.take(k as int) =~= fs);
        out
    }
}

/// Whether `d` is the conjunction `c` with each state replaced by what `g`
/// gives for it.
pub open spec fn conjunction_image<Q: Value, R: Value, I: Value, G: Fn(&Q) -> R>(
    g: G,
    c: Seq<(I::V, Q::V)>,
    d: Seq<(I::V, R::V)>,
) -> bool {
    &&& c.len() == d.len()
    &&& forall|p: int|
        0 <= p < c.len() ==> (#[trigger] d[p]).0 == c[p].0 && maps_to::<Q, R, G>(g, c[p].1, d[p].1)
}

impl<Q: Value, I: Value> Automaton<Q, I> {
    /// Whether conjunction `a` of entry `k` has an image in `mapped`: a
    /// conjunction of the clause of the entry's symbol and of a state that
    /// `g` gives for the entry's state.
    pub open spec fn carried<R: Value, G: Fn(&Q) -> R>(
        &self,
        g: G,
        mapped: Automaton<R, I>,
        k: int,
        a: int,
    ) -> bool {
        exists|r: R::V, b: int|
            maps_to::<Q, R, G>(g, self.state_clauses@[k].state@, r) && 0 <= b < mapped.clause(
                r,
                self.state_clauses@[k].symbol,
            ).len() && #[trigger] conjunction_image::<Q, R, I, G>(
                g,
                views(self.state_clauses@[k].clause@[a]@),
                mapped.clause(r, self.state_clauses@[k].symbol)[b],
            )
    }

    /// Whether the conjunction `d` of the clause of `r` and `f` is the
    /// image of a conjunction of an entry of `self` for `f`, for whose
    /// state `g` gives `r`.
    pub open spec fn sourced<R: Value, G: Fn(&Q) -> R>(
        &self,
        g: G,
        r: R::V,
        f: Symbol,
        d: Seq<(I::V, R::V)>,
    ) -> bool {
        exists|k: int, a: int|
            0 <= k < self.state_clauses@.len() && 0 <= a < self.state_clauses@[k].clause@.len()
                && self.state_clauses@[k].symbol == f && maps_to::<Q, R, G>(
                g,
                self.state_clauses@[k].state@,
                r,
            ) && #[trigger] conjunction_image::<Q, R, I, G>(
                g,
                views(self.state_clauses@[k].clause@[a]@),
                d,
            )
    }

    /// Whether `mapped` holds an image of every conjunction of the first
    /// `e` entries of `self` and of the first `c` conjunctions of the entry
    /// after them, and no conjunction that is not such an image.
    pub open spec fn mapped_upto<R: Value, G: Fn(&Q) -> R>(
        &self,
        g: G,
        mapped: Automaton<R, I>,
        e: int,
        c: int,
    ) -> bool {
        &&& forall|k: int, a: int|
            0 <= k < self.state_clauses@.len() && 0 <= a < self.state_clauses@[k].clause@.len() && (k
                < e || (k == e && a < c)) ==> #[trigger] self.carried(g, mapped, k, a)
        &&& forall|r: R::V, f: Symbol, b: int|
            0 <= b < mapped.clause(r, f).len() ==> self.sourced(
                g,
                r,
                f,
                #[trigger] mapped.clause(r, f)[b],
            )
    }

    /// An automaton with the same clauses is in the same image relation.
    pub proof fn lemma_mapped_same<R: Value, G: Fn(&Q) -> R>(
        &self,
        g: G,
        before: Automaton<R, I>,
        after: Automaton<R, I>,
        e: int,
        c: int,
    )
        requires
            self.mapped_upto(g, before, e, c),
            forall|r: R::V, f: Symbol| #[trigger] after.clause(r, f) == before.clause(r, f),
        ensures
            self.mapped_upto(g, after, e, c),
    {
        assert forall|k: int, a: int|
            0 <= k < self.state_clauses@.len() && 0 <= a < self.state_clauses@[k].clause@.len() && (k
                < e || (k == e && a < c)) implies #[trigger] self.carried(g, after, k, a) by {
            assert(self.carried(g, before, k, a));
            let (r, b) = choose|r: R::V, b: int|
                maps_to::<Q, R, G>(g, self.state_clauses@[k].state@, r) && 0 <= b < before.clause(
                    r,
                    self.state_clauses@[k].symbol,
                ).len() && #[trigger] conjunction_image::<Q, R, I, G>(
                    g,
                    views(self.state_clauses@[k].clause@[a]@),
                    before.clause(r, self.state_clauses@[k].symbol)[b],
                );
            assert(after.clause(r, self.state_clauses@[k].symbol) == before.clause(
                r,
                self.state_clauses@[k].symbol,
            ));
            assert(conjunction_image::<Q, R, I, G>(
                g,
                views(self.state_clauses@[k].clause@[a]@),
                after.clause(r, self.state_clauses@[k].symbol)[b],
            ));
        }
        assert forall|r: R::V, f: Symbol, b: int| 0 <= b < after.clause(r, f).len() implies self.sourced(
            g,
            r,
            f,
            #[trigger] after.clause(r, f)[b],
        ) by {
            assert(after.clause(r, f) == before.clause(r, f));
            assert(self.sourced(g, r, f, before.clause(r, f)[b]));
        }
    }

    /// One more conjunction and its image keep the two automata in the
    /// image relation.
    pub proof fn lemma_mapped_step<R: Value, G: Fn(&Q) -> R>(
        &self,
        g: G,
        before: Automaton<R, I>,
        after: Automaton<R, I>,
        e: int,
        c: int,
        state: R::V,
        image: Seq<(I::V, R::V)>,
    )
        requires
            0 <= e < self.state_clauses@.len(),
            0 <= c < self.state_clauses@[e].clause@.len(),
            self.mapped_upto(g, before, e, c),
            maps_to::<Q, R, G>(g, self.state_clauses@[e].state@, state),
            conjunction_image::<Q, R, I, G>(g, views(self.state_clauses@[e].clause@[c]@), image),
            after.clause(state, self.state_clauses@[e].symbol) == before.clause(
                state,
                self.state_clauses@[e].symbol,
            ).push(image),
            forall|q: R::V, f: Symbol|
                (q != state || f != self.state_clauses@[e].symbol) ==> #[trigger] after.agrees(
                    before,
                    q,
                    f,
                ),
        ensures
            self.mapped_upto(g, after, e, c + 1),
    {
        let sym = self.state_clauses@[e].symbol;
        assert forall|k: int, a: int|
            0 <= k < self.state_clauses@.len() && 0 <= a < self.state_clauses@[k].clause@.len() && (k
                < e || (k == e && a < c + 1)) implies #[trigger] self.carried(g, after, k, a) by {
            if k == e && a == c {
                let last = before.clause(state, sym).len() as int;
                assert(after.clause(state, sym)[last] == image);
                assert(conjunction_image::<Q, R, I, G>(
                    g,
                    views(self.state_clauses@[k].clause@[a]@),
                    after.clause(state, sym)[last],
                ));
            } else {
                assert(self.carried(g, before, k, a));
                let (r, b) = choose|r: R::V, b: int|
                    maps_to::<Q, R, G>(g, self.state_clauses@[k].state@, r) && 0 <= b < before.clause(
                        r,
                        self.state_clauses@[k].symbol,
                    ).len() && #[trigger] conjunction_image::<Q, R, I, G>(
                        g,
                        views(self.state_clauses@[k].clause@[a]@),
                        before.clause(r, self.state_clauses@[k].symbol)[b],
                    );
                let f = self.state_clauses@[k].symbol;
                if r == state && f == sym {
                    assert(after.clause(r, f)[b] == before.clause(r, f)[b]);
                } else {
                    assert(after.agrees(before, r, f));
                }
                assert(conjunction_image::<Q, R, I, G>(
                    g,
                    views(self.state_clauses@[k].clause@[a]@),
                    after.clause(r, f)[b],
                ));
            }
        }
        assert forall|r: R::V, f: Symbol, b: int| 0 <= b < after.clause(r, f).len() implies self.sourced(
            g,
            r,
            f,
            #[trigger] after.clause(r, f)[b],
        ) by {
            if r == state && f == sym {
                if b < before.clause(r, f).len() {
                    assert(after.clause(r, f)[b] == before.clause(r, f)[b]);
                    assert(self.sourced(g, r, f, before.clause(r, f)[b]));
                } else {
                    assert(after.clause(r, f)[b] == image);
                    assert(conjunction_image::<Q, R, I, G>(
                        g,
                        views(self.state_clauses@[e].clause@[c]@),
                        image,
                    ));
                }
            } else {
                assert(after.agrees(before, r, f));
                assert(self.sourced(g, r, f, before.clause(r, f)[b]));
            }
        }
    }

    /// The automaton in which each state is replaced by what `g` gives for
    /// it: each conjunction is added, with its states replaced, to the
    /// clause of the image of its state, and the images of the initial
    /// states are initial.
    pub fn map_states<R: Value, G: Fn(&Q) -> R>(&self, g: &G) -> (r: Automaton<R, I>)
        requires
            self.wf(),
            forall|q: &Q| #[trigger] g.requires((q,)),
        ensures
            r.wf(),
            states_image::<Q, R, G>(*g, self.initial_view(), r.initial_view()),
            self.mapped_upto(*g, r, self.state_clauses@.len() as int, 0),
    {
        let mut mapped: Automaton<R, I> = Automaton::new();
        let mut e: usize = 0;
        assert(forall|r: R::V, f: Symbol| !#[trigger] mapped.has_clause(r, f));
        while e < self.state_clauses.len()
            invariant
                0 <= e <= self.state_clauses@.len(),
                forall|q: &Q| #[trigger] g.requires((q,)),
                mapped.wf(),
                mapped.initial_view() == Seq::<R::V>::empty(),
                self.mapped_upto(*g, mapped, e as int, 0),
            decreases self.state_clauses@.len() - e,
        {
            let entry = &self.state_clauses[e];
            let state = g(&entry.state);
            assert(maps_to::<Q, R, G>(*g, entry.state@, state@));
            let mut c: usize = 0;
            while c < entry.clause.len()
                invariant
                    0 <= c <= entry.clause@.len(),
                    0 <= e < self.state_clauses@.len(),
                    entry == &self.state_clauses@[e as int],
                    forall|q: &Q| #[trigger] g.requires((q,)),
                    maps_to::<Q, R, G>(*g, entry.state@, state@),
                    mapped.wf(),
                    mapped.initial_view() == Seq::<R::V>::empty(),
                    self.mapped_upto(*g, mapped, e as int, c as int),
                decreases entry.clause@.len() - c,
            {
                let conjunction = &entry.clause[c];
                let mut image: Conjuction<R, I> = Vec::new();
                let mut p: usize = 0;
                while p < conjunction.len()
                    invariant
                        0 <= p <= conjunction@.len(),
                        forall|q: &Q| #[trigger] g.requires((q,)),
                        image@.len() == p,
                        forall|k: int|
                            0 <= k < p ==> (#[trigger] image@[k])@.0 == conjunction@[k]@.0 && maps_to::<
                                Q,
                                R,
                                G,
                            >(*g, conjunction@[k]@.1, image@[k]@.1),
                    decreases conjunction@.len() - p,
                {
                    let index = conjunction[p].0.copy();
                    let target = g(&conjunction[p].1);
                    assert(maps_to::<Q, R, G>(*g, conjunction@[p as int].1@, target@));
                    image.push((index, target));
                    p += 1;
                }
                let ghost before = mapped;
                let ghost shown = views(image@);
                proof {
                    assert(conjunction_image::<Q, R, I, G>(*g, views(conjunction@), shown));
                }
                mapped.add(&state, entry.symbol, image);
                proof {
                    self.lemma_mapped_step(*g, before, mapped, e as int, c as int, state@, shown);
                }
                c += 1;
            }
            e += 1;
        }
        let ghost fs = self.initial_view();
        let mut k: usize = 0;
        while k < self.initial_states.len()
            invariant
                0 <= k <= self.initial_states@.len(),
                fs == self.initial_view(),
                forall|q: &Q| #[trigger] g.requires((q,)),
                mapped.wf(),
                states_image::<Q, R, G>(*g, fs.take(k as int), mapped.initial_view()),
                self.mapped_upto(*g, mapped, self.state_clauses@.len() as int, 0),
            decreases self.initial_states@.len() - k,
        {
            let target = g(&self.initial_states[k]);
            let ghost u = target@;
            let ghost before = mapped;
            assert(maps_to::<Q, R, G>(*g, fs[k as int], u));
            mapped.set_initial(target);
            proof {
                lemma_states_image_step::<Q, R, G>(
                    *g,
                    fs,
                    before.initial_view(),
                    mapped.initial_view(),
                    k as int,
                    u,
                );
                assert forall|r: R::V, f: Symbol| #[trigger] mapped.clause(r, f) == before.clause(r, f) by {
                    assert(mapped.agrees(before, r, f));
                }
                self.lemma_mapped_same(*g, before, mapped, self.state_clauses@.len() as int, 0);
            }
            k += 1;
        }
        assert(fs.take(k as int) =~= fs);
        mapped
    }
}


/// Whether, down to depth `depth`, the term `t` and its subterms have as
/// many direct subterms as the transitions from their symbols have
/// children.
pub open spec fn well_ranked<S, M>(ts: Seq<TransitionView<S, M>>, t: Term<u64>, depth: nat) -> bool
    decreases depth,
{
    depth == 0 || ((forall|i: int|
        0 <= i < ts.len() && (#[trigger] ts[i]).0.0 == term_symbol(t) ==> ts[i].0.1.len()
            == term_subterms(t).len()) && forall|j: int|
        0 <= j < term_subterms(t).len() ==> well_ranked(
            ts,
            #[trigger] term_subterms(t)[j],
            (depth - 1) as nat,
        ))
}

impl<Q: Value> Automaton<Q, u32> {
    /// Whether the conjunction `conjunction` holds of the term `t`: each
    /// pair names a direct subterm of `t` that the automaton accepts from
    /// the pair's state, within `depth` levels.
    pub open spec fn holds(&self, conjunction: Seq<(u32, Q::V)>, t: Term<u64>, depth: nat) -> bool
        decreases depth, 1nat,
    {
        forall|p: int|
            0 <= p < conjunction.len() ==> (#[trigger] conjunction[p]).0 < term_subterms(t).len()
                && self.alt_run(term_subterms(t)[conjunction[p].0 as int], conjunction[p].1, depth)
    }

    /// Whether the automaton accepts `t` from state `q`, within `depth`
    /// levels: some conjunction of the clause of `q` and the top symbol of
    /// `t` holds of `t`.
    pub open spec fn alt_run(&self, t: Term<u64>, q: Q::V, depth: nat) -> bool
        decreases depth, 0nat,
    {
        depth > 0 && exists|b: int|
            0 <= b < self.clause(q, term_symbol(t)).len() && self.holds(
                #[trigger] self.clause(q, term_symbol(t))[b],
                t,
                (depth - 1) as nat,
            )
    }

    /// Whether the automaton accepts `t`: from an initial state, within
    /// some number of levels.
    pub open spec fn alt_accepts(&self, t: Term<u64>) -> bool {
        exists|q: Q::V, depth: nat| self.initial_view().contains(q) && #[trigger] self.alt_run(t, q, depth)
    }
}

/// The alternating automaton that holds the transitions of a bottom-up
/// automaton has its runs: on a term whose subterms are as many as the
/// children of the transitions from their symbols, the one has a run into
/// a state exactly when the other accepts from that state.
pub proof fn lemma_embedding_runs<Q: Value, M>(
    ts: Seq<TransitionView<Q::V, M>>,
    alt: Automaton<Q, u32>,
    t: Term<u64>,
    q: Q::V,
    depth: nat,
)
    requires
        forall|s: Q::V, f: Symbol| #[trigger] alt.clause(s, f) == conjunctions_of(ts, s, f),
        forall|i: int| 0 <= i < ts.len() ==> (#[trigger] ts[i]).0.1.len() <= u32::MAX,
        well_ranked(ts, t, depth),
    ensures
        run_into(ts, t, q, depth) <==> alt.alt_run(t, q, depth),
    decreases depth,
{
    let f = term_symbol(t);
    let sel = select_conjunction::<Q::V, M>(q, f);
    let clause = alt.clause(q, f);
    assert(clause == ts.filter_map(sel));
    if depth > 0 {
        assert forall|j: int, s: Q::V|
            #![trigger run_into(ts, term_subterms(t)[j], s, (depth - 1) as nat)]
            #![trigger alt.alt_run(term_subterms(t)[j], s, (depth - 1) as nat)]
            0 <= j < term_subterms(t).len() implies (run_into(
            ts,
            term_subterms(t)[j],
            s,
            (depth - 1) as nat,
        ) <==> alt.alt_run(term_subterms(t)[j], s, (depth - 1) as nat)) by {
            lemma_embedding_runs(ts, alt, term_subterms(t)[j], s, (depth - 1) as nat);
        }
    }
    if run_into(ts, t, q, depth) {
        let i = choose|i: int|
            #[trigger] fits(ts, i, t, q) && forall|j: int|
                0 <= j < ts[i].0.1.len() ==> run_into(
                    ts,
                    #[trigger] term_subterms(t)[j],
                    ts[i].0.1[j],
                    (depth - 1) as nat,
                );
        let conj = enumerated(ts[i].0.1);
        assert(sel(ts[i]) == Some(conj));
        lemma_filter_map_has(ts, sel, conj);
        let b = choose|b: int| 0 <= b < clause.len() && clause[b] == conj;
        assert forall|p: int| 0 <= p < conj.len() implies (#[trigger] conj[p]).0 < term_subterms(t).len()
            && alt.alt_run(term_subterms(t)[conj[p].0 as int], conj[p].1, (depth - 1) as nat) by {
            assert(conj[p] == (p as u32, ts[i].0.1[p]));
            assert(run_into(ts, term_subterms(t)[p], ts[i].0.1[p], (depth - 1) as nat));
        }
        assert(alt.holds(clause[b], t, (depth - 1) as nat));
    }
    if alt.alt_run(t, q, depth) {
        let b = choose|b: int|
            0 <= b < alt.clause(q, term_symbol(t)).len() && alt.holds(
                #[trigger] alt.clause(q, term_symbol(t))[b],
                t,
                (depth - 1) as nat,
            );
        let conj = clause[b];
        assert(ts.filter_map(sel).contains(conj));
        lemma_filter_map_has(ts, sel, conj);
        let i = choose|i: int| 0 <= i < ts.len() && sel(#[trigger] ts[i]) == Some(conj);
        assert(ts[i].0.0 == term_symbol(t));
        assert(fits(ts, i, t, q));
        assert forall|j: int| 0 <= j < ts[i].0.1.len() implies run_into(
            ts,
            #[trigger] term_subterms(t)[j],
            ts[i].0.1[j],
            (depth - 1) as nat,
        ) by {
            assert(conj[j] == (j as u32, ts[i].0.1[j]));
            assert(alt.alt_run(term_subterms(t)[conj[j].0 as int], conj[j].1, (depth - 1) as nat));
        }
    }
}

/// The alternating automaton that holds the transitions of a bottom-up
/// automaton, with its accepting states as initial states, accepts the
/// terms that the bottom-up automaton accepts, among the terms whose
/// subterms are, at every depth, as many as the children of the
/// transitions from their symbols.
pub proof fn lemma_embedding_language<Q: Value, M>(
    ts: Seq<TransitionView<Q::V, M>>,
    finals: Seq<Q::V>,
    alt: Automaton<Q, u32>,
    t: Term<u64>,
)
    requires
        forall|s: Q::V, f: Symbol| #[trigger] alt.clause(s, f) == conjunctions_of(ts, s, f),
        alt.initial_view() == finals,
        forall|i: int| 0 <= i < ts.len() ==> (#[trigger] ts[i]).0.1.len() <= u32::MAX,
        forall|depth: nat| well_ranked(ts, t, depth),
    ensures
        accepts(ts, finals, t) <==> alt.alt_accepts(t),
{
    if accepts(ts, finals, t) {
        let q = choose|q: Q::V| finals.contains(q) && #[trigger] accepts_into(ts, t, q);
        let depth = choose|depth: nat| run_into(ts, t, q, depth);
        lemma_embedding_runs(ts, alt, t, q, depth);
        assert(alt.alt_run(t, q, depth));
    }
    if alt.alt_accepts(t) {
        let (q, depth) = choose|q: Q::V, depth: nat|
            alt.initial_view().contains(q) && #[trigger] alt.alt_run(t, q, depth);
        lemma_embedding_runs(ts, alt, t, q, depth);
        assert(accepts_into(ts, t, q));
    }
}

} // verus!
