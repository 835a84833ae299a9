//! Bottom-up tree automata with labeled transitions.
use vstd::prelude::*;
use crate::Symbol;
use crate::value::{Value, views, copy_vec, same_vec, contains, insert_unique, lemma_views_push};
use crate::label::NoLabel;
use crate::ranked::Rank;
use crate::utils::{Combinations, count, within, rank, lemma_rank_bound, lemma_rank_injective};

pub mod search;
pub mod width_search;

pub use self::search::{CommonConfigurations, Representatives};
pub use self::width_search::{
    Indexed, Killed, LanguageState, SearchContext, SearchPattern, Step, TermFragment,
};

verus! {

/// The left-hand side of a transition: a symbol applied to child states.
#[derive(Clone, Debug, PartialEq, Eq, Hash)]
pub struct Configuration<Q>(pub Symbol, pub Vec<Q>);

impl<Q: Value> View for Configuration<Q> {
    type V = (Symbol, Seq<Q::V>);

    open spec fn view(&self) -> (Symbol, Seq<Q::V>) {
        (self.0, views(self.1@))
    }
}

impl<Q: Value> Value for Configuration<Q> {
    fn same(&self, other: &Self) -> (r: bool) {
        self.0 == other.0 && same_vec(&self.1, &other.1)
    }

    fn copy(&self) -> (r: Self) {
        Configuration(self.0, copy_vec(&self.1))
    }
}

impl<Q: Value> Configuration<Q> {
    /// The top symbol.
    pub fn symbol(&self) -> (r: Symbol)
        ensures
            r == self@.0,
    {
        self.0
    }

    /// The child states, in order.
    pub fn states(&self) -> (r: &Vec<Q>)
        ensures
            views(r@) == self@.1,
    {
        &self.1
    }

    /// The number of child states.
    pub fn len(&self) -> (r: usize)
        ensures
            r == self@.1.len(),
    {
        self.1.len()
    }

    /// The top symbol with the number of child states.
    pub fn signature(&self) -> (r: (Symbol, usize))
        ensures
            r.0 == self@.0,
            r.1 == self@.1.len(),
    {
        (self.0, self.1.len())
    }

    /// The configuration with each child state replaced by what `g` gives
    /// for it.
    pub fn map<R: Value, M: Fn(&Q) -> R>(&self, g: &M) -> (r: Configuration<R>)
        requires
            forall|q: &Q| #[trigger] g.requires((q,)),
        ensures
            r@.0 == self@.0,
            r.1@.len() == self.1@.len(),
            forall|i: int| 0 <= i < self.1@.len() ==> g.ensures((&self.1@[i],), #[trigger] r.1@[i]),
    {
        let mut states: Vec<R> = Vec::new();
        let mut i: usize = 0;
        while i < self.1.len()
            invariant
                0 <= i <= self.1.len(),
                states.len() == i,
                forall|q: &Q| #[trigger] g.requires((q,)),
                forall|k: int| 0 <= k < i ==> g.ensures((&self.1@[k],), #[trigger] states@[k]),
            decreases self.1.len() - i,
        {
            let s = g(&self.1[i]);
            states.push(s);
            i += 1;
        }
        Configuration(self.0, states)
    }
}

/// The mathematical form of a transition: configuration, label, target.
pub type TransitionView<S, M> = ((Symbol, Seq<S>), M, S);

/// The labeled configurations that lead into `q`, in the order of `ts`.
pub open spec fn configurations_into<S, M>(ts: Seq<TransitionView<S, M>>, q: S) -> Seq<
    ((Symbol, Seq<S>), M),
> {
    ts.filter_map(select_into(q))
}

/// The selection of the transitions that lead into `q`: each gives its
/// labeled configuration.
pub open spec fn select_into<S, M>(q: S) -> spec_fn(TransitionView<S, M>) -> Option<
    ((Symbol, Seq<S>), M),
> {
    |t: TransitionView<S, M>|
        if t.2 == q {
            Some((t.0, t.1))
        } else {
            None
        }
}

/// The selection of the transitions that start from `c`: each gives its
/// labeled target.
pub open spec fn select_from<S, M>(c: (Symbol, Seq<S>)) -> spec_fn(TransitionView<S, M>) -> Option<
    (S, M),
> {
    |t: TransitionView<S, M>|
        if t.0 == c {
            Some((t.2, t.1))
        } else {
            None
        }
}

/// The labeled states that `c` leads into, in the order of `ts`.
pub open spec fn states_from<S, M>(ts: Seq<TransitionView<S, M>>, c: (Symbol, Seq<S>)) -> Seq<
    (S, M),
> {
    ts.filter_map(select_from(c))
}

/// The targets of the transitions, in order, with repetitions.
pub open spec fn targets<S, M>(ts: Seq<TransitionView<S, M>>) -> Seq<S> {
    ts.map_values(|t: TransitionView<S, M>| t.2)
}

/// The top symbols of the transitions, in order, with repetitions.
pub open spec fn top_symbols<S, M>(ts: Seq<TransitionView<S, M>>) -> Seq<Symbol> {
    ts.map_values(|t: TransitionView<S, M>| t.0.0)
}

/// Whether every configuration has as many children as `arity` gives to its
/// symbol.
pub open spec fn ranked_by<S, M>(ts: Seq<TransitionView<S, M>>, arity: spec_fn(Symbol) -> nat) -> bool {
    forall|i: int| 0 <= i < ts.len() ==> (#[trigger] ts[i]).0.1.len() == arity(ts[i].0.0)
}

/// Whether `g` can give a state with view `r` for a state with view `q`.
pub open spec fn maps_to<Q: Value, R: Value, G: Fn(&Q) -> R>(g: G, q: Q::V, r: R::V) -> bool {
    exists|q0: Q, r0: R| q0@ == q && r0@ == r && #[trigger] g.ensures((&q0,), r0)
}

/// Whether `g` can give each state of `rs` for the state of `qs` at the
/// same place.
pub open spec fn maps_all<Q: Value, R: Value, G: Fn(&Q) -> R>(g: G, qs: Seq<Q::V>, rs: Seq<R::V>) -> bool {
    &&& qs.len() == rs.len()
    &&& forall|i: int| 0 <= i < qs.len() ==> maps_to::<Q, R, G>(g, #[trigger] qs[i], rs[i])
}

/// Whether `u` is `t` with each state replaced by what `g` gives for it.
pub open spec fn image_of<Q: Value, R: Value, L: Value, G: Fn(&Q) -> R>(
    g: G,
    t: TransitionView<Q::V, L::V>,
    u: TransitionView<R::V, L::V>,
) -> bool {
    &&& u.0.0 == t.0.0
    &&& u.1 == t.1
    &&& maps_to::<Q, R, G>(g, t.2, u.2)
    &&& maps_all::<Q, R, G>(g, t.0.1, u.0.1)
}

/// Whether every transition of `ts` has an image among `us`, and every
/// transition of `us` is the image of one of `ts`.
pub open spec fn image_of_all<Q: Value, R: Value, L: Value, G: Fn(&Q) -> R>(
    g: G,
    ts: Seq<TransitionView<Q::V, L::V>>,
    us: Seq<TransitionView<R::V, L::V>>,
) -> bool {
    &&& forall|i: int| 0 <= i < ts.len() ==> #[trigger] has_image::<Q, R, L, G>(g, ts[i], us)
    &&& forall|j: int| 0 <= j < us.len() ==> #[trigger] has_source::<Q, R, L, G>(g, ts, us[j])
}

/// Whether `t` has an image among `us`.
pub open spec fn has_image<Q: Value, R: Value, L: Value, G: Fn(&Q) -> R>(
    g: G,
    t: TransitionView<Q::V, L::V>,
    us: Seq<TransitionView<R::V, L::V>>,
) -> bool {
    exists|j: int| 0 <= j < us.len() && #[trigger] image_of::<Q, R, L, G>(g, t, us[j])
}

/// Whether `u` is the image of one of `ts`.
pub open spec fn has_source<Q: Value, R: Value, L: Value, G: Fn(&Q) -> R>(
    g: G,
    ts: Seq<TransitionView<Q::V, L::V>>,
    u: TransitionView<R::V, L::V>,
) -> bool {
    exists|i: int| 0 <= i < ts.len() && #[trigger] image_of::<Q, R, L, G>(g, ts[i], u)
}

/// Whether `q` has an image among `rs`.
pub open spec fn state_has_image<Q: Value, R: Value, G: Fn(&Q) -> R>(g: G, q: Q::V, rs: Seq<R::V>) -> bool {
    exists|j: int| 0 <= j < rs.len() && #[trigger] maps_to::<Q, R, G>(g, q, rs[j])
}

/// Whether `r` is the image of one of `qs`.
pub open spec fn state_has_source<Q: Value, R: Value, G: Fn(&Q) -> R>(g: G, qs: Seq<Q::V>, r: R::V) -> bool {
    exists|i: int| 0 <= i < qs.len() && #[trigger] maps_to::<Q, R, G>(g, qs[i], r)
}

/// Whether every state of `qs` has an image among `rs`, and every state of
/// `rs` is the image of one of `qs`.
pub open spec fn states_image<Q: Value, R: Value, G: Fn(&Q) -> R>(g: G, qs: Seq<Q::V>, rs: Seq<R::V>) -> bool {
    &&& forall|i: int| 0 <= i < qs.len() ==> #[trigger] state_has_image::<Q, R, G>(g, qs[i], rs)
    &&& forall|j: int| 0 <= j < rs.len() ==> #[trigger] state_has_source::<Q, R, G>(g, qs, rs[j])
}

/// One more transition and its image keep the two sequences in the image
/// relation.
pub proof fn lemma_image_step<Q: Value, R: Value, L: Value, G: Fn(&Q) -> R>(
    g: G,
    ts: Seq<TransitionView<Q::V, L::V>>,
    before: Seq<TransitionView<R::V, L::V>>,
    after: Seq<TransitionView<R::V, L::V>>,
    i: int,
    u: TransitionView<R::V, L::V>,
)
    requires
        0 <= i < ts.len(),
        image_of_all::<Q, R, L, G>(g, ts.take(i), before),
        image_of::<Q, R, L, G>(g, ts[i], u),
        before.contains(u) ==> after == before,
        !before.contains(u) ==> after == before.push(u),
    ensures
        image_of_all::<Q, R, L, G>(g, ts.take(i + 1), after),
{
    let a = ts.take(i);
    let b = ts.take(i + 1);
    assert(after.contains(u)) by {
        if !before.contains(u) {
            assert(after[before.len() as int] == u);
        }
    }
    let w = choose|w: int| 0 <= w < after.len() && after[w] == u;
    assert forall|m: int| 0 <= m < b.len() implies #[trigger] has_image::<Q, R, L, G>(
        g,
        b[m],
        after,
    ) by {
        if m < i {
            assert(a[m] == b[m]);
            assert(has_image::<Q, R, L, G>(g, a[m], before));
            let j = choose|j: int|
                0 <= j < before.len() && #[trigger] image_of::<Q, R, L, G>(g, a[m], before[j]);
            assert(after[j] == before[j]);
            assert(image_of::<Q, R, L, G>(g, b[m], after[j]));
        } else {
            assert(image_of::<Q, R, L, G>(g, b[m], after[w]));
        }
    }
    assert forall|j: int| 0 <= j < after.len() implies #[trigger] has_source::<Q, R, L, G>(
        g,
        b,
        after[j],
    ) by {
        if j < before.len() {
            assert(after[j] == before[j]);
            assert(has_source::<Q, R, L, G>(g, a, before[j]));
            let m = choose|m: int|
                0 <= m < a.len() && #[trigger] image_of::<Q, R, L, G>(g, a[m], before[j]);
            assert(a[m] == b[m]);
            assert(image_of::<Q, R, L, G>(g, b[m], after[j]));
        } else {
            assert(after[j] == u);
            assert(image_of::<Q, R, L, G>(g, b[i], after[j]));
        }
    }
}

/// One more state and its image keep the two sequences in the image
/// relation.
pub proof fn lemma_states_image_step<Q: Value, R: Value, G: Fn(&Q) -> R>(
    g: G,
    qs: Seq<Q::V>,
    before: Seq<R::V>,
    after: Seq<R::V>,
    i: int,
    u: R::V,
)
    requires
        0 <= i < qs.len(),
        states_image::<Q, R, G>(g, qs.take(i), before),
        maps_to::<Q, R, G>(g, qs[i], u),
        before.contains(u) ==> after == before,
        !before.contains(u) ==> after == before.push(u),
    ensures
        states_image::<Q, R, G>(g, qs.take(i + 1), after),
{
    let a = qs.take(i);
    let b = qs.take(i + 1);
    assert(after.contains(u)) by {
        if !before.contains(u) {
            assert(after[before.len() as int] == u);
        }
    }
    let w = choose|w: int| 0 <= w < after.len() && after[w] == u;
    assert forall|m: int| 0 <= m < b.len() implies #[trigger] state_has_image::<Q, R, G>(
        g,
        b[m],
        after,
    ) by {
        if m < i {
            assert(a[m] == b[m]);
            assert(state_has_image::<Q, R, G>(g, a[m], before));
            let j = choose|j: int| 0 <= j < before.len() && #[trigger] maps_to::<Q, R, G>(g, a[m], before[j]);
            assert(after[j] == before[j]);
            assert(maps_to::<Q, R, G>(g, b[m], after[j]));
        } else {
            assert(maps_to::<Q, R, G>(g, b[m], after[w]));
        }
    }
    assert forall|j: int| 0 <= j < after.len() implies #[trigger] state_has_source::<Q, R, G>(
        g,
        b,
        after[j],
    ) by {
        if j < before.len() {
            assert(after[j] == before[j]);
            assert(state_has_source::<Q, R, G>(g, a, before[j]));
            let m = choose|m: int| 0 <= m < a.len() && #[trigger] maps_to::<Q, R, G>(g, a[m], before[j]);
            assert(a[m] == b[m]);
            assert(maps_to::<Q, R, G>(g, b[m], after[j]));
        } else {
            assert(after[j] == u);
            assert(maps_to::<Q, R, G>(g, b[i], after[j]));
        }
    }
}

/// Replacing states keeps an automaton ranked: where every configuration
/// of `ts` has as many children as `arity` gives to its symbol, so has
/// every configuration of an image of `ts`.
pub proof fn lemma_image_ranked<Q: Value, R: Value, L: Value, G: Fn(&Q) -> R>(
    g: G,
    ts: Seq<TransitionView<Q::V, L::V>>,
    us: Seq<TransitionView<R::V, L::V>>,
    arity: spec_fn(Symbol) -> nat,
)
    requires
        image_of_all::<Q, R, L, G>(g, ts, us),
        ranked_by(ts, arity),
    ensures
        ranked_by(us, arity),
{
    assert forall|j: int| 0 <= j < us.len() implies (#[trigger] us[j]).0.1.len() == arity(us[j].0.0) by {
        assert(has_source::<Q, R, L, G>(g, ts, us[j]));
        let i = choose|i: int| 0 <= i < ts.len() && #[trigger] image_of::<Q, R, L, G>(g, ts[i], us[j]);
        assert(ts[i].0.1.len() == arity(ts[i].0.0));
    }
}

/// A bottom-up tree automaton: a set of labeled transitions and a set of
/// accepting states. Both are kept in insertion order, without repetition.
#[derive(Clone, Debug)]
pub struct Automaton<Q, L> {
    pub transitions: Vec<(Configuration<Q>, L, Q)>,
    pub final_states: Vec<Q>,
}

impl<Q: Value, L: Value> Automaton<Q, L> {
    /// The transitions, in insertion order.
    pub open spec fn transitions_view(&self) -> Seq<TransitionView<Q::V, L::V>> {
        views(self.transitions@)
    }

    /// The accepting states, in insertion order.
    pub open spec fn finals_view(&self) -> Seq<Q::V> {
        views(self.final_states@)
    }

    /// No transition and no accepting state is held twice.
    pub open spec fn wf(&self) -> bool {
        &&& self.transitions_view().no_duplicates()
        &&& self.finals_view().no_duplicates()
    }

    /// The states that some transition leads into.
    pub open spec fn state_set(&self) -> Set<Q::V> {
        targets(self.transitions_view()).to_set()
    }

    /// The symbols on the left of some transition.
    pub open spec fn symbol_set(&self) -> Set<Symbol> {
        top_symbols(self.transitions_view()).to_set()
    }

    /// The labeled configurations that lead into `q`.
    pub open spec fn configurations_of(&self, q: Q::V) -> Seq<((Symbol, Seq<Q::V>), L::V)> {
        configurations_into(self.transitions_view(), q)
    }

    /// The labeled states that `c` leads into.
    pub open spec fn states_of(&self, c: (Symbol, Seq<Q::V>)) -> Seq<(Q::V, L::V)> {
        states_from(self.transitions_view(), c)
    }

    /// The empty automaton.
    pub fn new() -> (a: Automaton<Q, L>)
        ensures
            a.wf(),
            a.transitions_view() == Seq::<TransitionView<Q::V, L::V>>::empty(),
            a.finals_view() == Seq::<Q::V>::empty(),
    {
        let a = Automaton { transitions: Vec::new(), final_states: Vec::new() };
        assert(a.transitions_view() =~= Seq::empty());
        assert(a.finals_view() =~= Seq::empty());
        a
    }

    /// Adds the transition from `conf` with `label` into `state`, unless it
    /// is already there.
    pub fn add(&mut self, conf: Configuration<Q>, label: L, state: Q)
        requires
            old(self).wf(),
        ensures
            final(self).wf(),
            final(self).finals_view() == old(self).finals_view(),
            old(self).transitions_view().contains((conf@, label@, state@))
                ==> final(self).transitions_view() == old(self).transitions_view(),
            !old(self).transitions_view().contains((conf@, label@, state@))
                ==> final(self).transitions_view() == old(self).transitions_view().push(
                (conf@, label@, state@),
            ),
            final(self).transitions_view().to_set() == old(self).transitions_view().to_set().insert(
                (conf@, label@, state@),
            ),
            forall|arity: spec_fn(Symbol) -> nat|
                ranked_by(old(self).transitions_view(), arity) && conf@.1.len() == arity(conf@.0)
                    ==> #[trigger] ranked_by(final(self).transitions_view(), arity),
    {
        let ghost before = self.transitions@;
        let t = (conf, label, state);
        let added = insert_unique(&mut self.transitions, t);
        proof {
            if added {
                lemma_views_push(before, t);
            }
        }
    }

    /// Marks `q` as accepting; says whether it was not accepting before.
    pub fn set_final(&mut self, q: Q) -> (r: bool)
        requires
            old(self).wf(),
        ensures
            final(self).wf(),
            r == !old(self).finals_view().contains(q@),
            final(self).transitions_view() == old(self).transitions_view(),
            r ==> final(self).finals_view() == old(self).finals_view().push(q@),
            !r ==> final(self).finals_view() == old(self).finals_view(),
            final(self).finals_view().to_set() == old(self).finals_view().to_set().insert(q@),
    {
        let ghost before = self.final_states@;
        let added = insert_unique(&mut self.final_states, q);
        proof {
            if added {
                lemma_views_push(before, q);
            }
        }
        added
    }

    /// Whether `q` is an accepting state.
    pub fn is_final(&self, q: &Q) -> (r: bool)
        ensures
            r == self.finals_view().contains(q@),
    {
        contains(&self.final_states, q)
    }

    /// The accepting states, each once.
    pub fn final_states(&self) -> (r: Vec<Q>)
        ensures
            views(r@) == self.finals_view(),
    {
        copy_vec(&self.final_states)
    }

    /// The labeled configurations that lead into `q`; none if `q` is unknown.
    pub fn configurations_for_state(&self, q: &Q) -> (r: Vec<(Configuration<Q>, L)>)
        ensures
            views(r@) == self.configurations_of(q@),
    {
        let mut out: Vec<(Configuration<Q>, L)> = Vec::new();
        let ghost ts = self.transitions_view();
        let mut i: usize = 0;
        assert(views(out@) =~= configurations_into(ts.take(0), q@));
        while i < self.transitions.len()
            invariant
                0 <= i <= self.transitions.len(),
                ts == self.transitions_view(),
                views(out@) == configurations_into(ts.take(i as int), q@),
            decreases self.transitions.len() - i,
        {
            let t = &self.transitions[i];
            proof {
                assert(ts.take(i + 1).drop_last() =~= ts.take(i as int));
                assert(ts.take(i + 1).last() == t@);
            }
            if t.2.same(q) {
                let ghost prev = out@;
                let item = (t.0.copy(), t.1.copy());
                out.push(item);
                proof {
                    lemma_views_push(prev, item);
                    assert(views(prev).push(item@) =~= views(prev) + seq![item@]);
                }
            }
            i += 1;
        }
        assert(ts.take(i as int) =~= ts);
        out
    }

    /// The labeled states that `conf` leads into; none if `conf` has no
    /// transition.
    pub fn states_for_configuration(&self, conf: &Configuration<Q>) -> (r: Vec<(Q, L)>)
        ensures
            views(r@) == self.states_of(conf@),
    {
        let mut out: Vec<(Q, L)> = Vec::new();
        let ghost ts = self.transitions_view();
        let mut i: usize = 0;
        assert(views(out@) =~= states_from(ts.take(0), conf@));
        while i < self.transitions.len()
            invariant
                0 <= i <= self.transitions.len(),
                ts == self.transitions_view(),
                views(out@) == states_from(ts.take(i as int), conf@),
            decreases self.transitions.len() - i,
        {
            let t = &self.transitions[i];
            proof {
                assert(ts.take(i + 1).drop_last() =~= ts.take(i as int));
                assert(ts.take(i + 1).last() == t@);
            }
            if t.0.same(conf) {
                let ghost prev = out@;
                let item = (t.2.copy(), t.1.copy());
                out.push(item);
                proof {
                    lemma_views_push(prev, item);
                    assert(views(prev).push(item@) =~= views(prev) + seq![item@]);
                }
            }
            i += 1;
        }
        assert(ts.take(i as int) =~= ts);
        out
    }

    /// The states that some transition leads into, each once.
    pub fn states(&self) -> (r: Vec<Q>)
        ensures
            views(r@).no_duplicates(),
            views(r@).to_set() == self.state_set(),
    {
        let mut out: Vec<Q> = Vec::new();
        let ghost ts = self.transitions_view();
        let mut i: usize = 0;
        assert(views(out@).to_set() =~= targets(ts.take(0)).to_set());
        while i < self.transitions.len()
            invariant
                0 <= i <= self.transitions.len(),
                ts == self.transitions_view(),
                views(out@).no_duplicates(),
                views(out@).to_set() == targets(ts.take(i as int)).to_set(),
            decreases self.transitions.len() - i,
        {
            let q = self.transitions[i].2.copy();
            proof {
                assert(targets(ts.take(i + 1)) =~= targets(ts.take(i as int)).push(q@));
                targets(ts.take(i as int)).lemma_push_to_set_commute(q@);
            }
            insert_unique(&mut out, q);
            i += 1;
        }
        assert(ts.take(i as int) =~= ts);
        out
    }

    /// The number of states that some transition leads into.
    pub fn len(&self) -> (r: usize)
        ensures
            r == self.state_set().len(),
    {
        let states = self.states();
        proof {
            views(states@).unique_seq_to_set();
        }
        states.len()
    }

    /// Whether some transition leads into `q`.
    pub fn includes(&self, q: &Q) -> (r: bool)
        ensures
            r == self.state_set().contains(q@),
    {
        let ghost ts = self.transitions_view();
        let mut i: usize = 0;
        while i < self.transitions.len()
            invariant
                0 <= i <= self.transitions.len(),
                ts == self.transitions_view(),
                forall|k: int| 0 <= k < i ==> ts[k].2 != q@,
            decreases self.transitions.len() - i,
        {
            if self.transitions[i].2.same(q) {
                assert(targets(ts)[i as int] == q@);
                return true;
            }
            i += 1;
        }
        proof {
            if targets(ts).contains(q@) {
                let k = choose|k: int| 0 <= k < targets(ts).len() && targets(ts)[k] == q@;
                assert(ts[k].2 == q@);
            }
        }
        false
    }

    /// The walk over the transitions, each once.
    pub fn transitions(&self) -> (r: Transifions<'_, Q, L>)
        ensures
            r.wf(),
            r.automaton == self,
            r.remaining() == self.transitions_view(),
    {
        Transifions::new(self)
    }

    /// The symbols on the left of some transition, each once.
    pub fn alphabet(&self) -> (r: Vec<Symbol>)
        ensures
            r@.no_duplicates(),
            r@.to_set() == self.symbol_set(),
    {
        let mut out: Vec<Symbol> = Vec::new();
        let ghost ts = self.transitions_view();
        let mut i: usize = 0;
        assert(views(out@).to_set() =~= top_symbols(ts.take(0)).to_set());
        while i < self.transitions.len()
            invariant
                0 <= i <= self.transitions.len(),
                ts == self.transitions_view(),
                views(out@).no_duplicates(),
                views(out@).to_set() == top_symbols(ts.take(i as int)).to_set(),
            decreases self.transitions.len() - i,
        {
            let f: Symbol = self.transitions[i].0.0;
            proof {
                assert(top_symbols(ts.take(i + 1)) =~= top_symbols(ts.take(i as int)).push(f));
                top_symbols(ts.take(i as int)).lemma_push_to_set_commute(f);
            }
            insert_unique(&mut out, f);
            i += 1;
        }
        assert(ts.take(i as int) =~= ts);
        assert(views(out@) =~= out@);
        out
    }

    /// The automaton in which each state is replaced by what `g` gives for
    /// it. Transitions that fall together are held once; so are accepting
    /// states.
    pub fn map_states<R: Value, G: Fn(&Q) -> R>(&self, g: &G) -> (r: Automaton<R, L>)
        requires
            forall|q: &Q| #[trigger] g.requires((q,)),
        ensures
            r.wf(),
            image_of_all::<Q, R, L, G>(*g, self.transitions_view(), r.transitions_view()),
            states_image::<Q, R, G>(*g, self.finals_view(), r.finals_view()),
    {
        let mut out: Automaton<R, L> = Automaton::new();
        let ghost ts = self.transitions_view();
        let mut i: usize = 0;
        while i < self.transitions.len()
            invariant
                0 <= i <= self.transitions@.len(),
                ts == self.transitions_view(),
                forall|q: &Q| #[trigger] g.requires((q,)),
                out.wf(),
                out.finals_view() == Seq::<R::V>::empty(),
                image_of_all::<Q, R, L, G>(*g, ts.take(i as int), out.transitions_view()),
            decreases self.transitions@.len() - i,
        {
            let t = &self.transitions[i];
            let conf = t.0.map(g);
            let label = t.1.copy();
            let target = g(&t.2);
            let ghost u = (conf@, label@, target@);
            let ghost before = out.transitions_view();
            proof {
                assert(maps_to::<Q, R, G>(*g, ts[i as int].2, u.2));
                assert forall|k: int| 0 <= k < ts[i as int].0.1.len() implies maps_to::<Q, R, G>(
                    *g,
                    #[trigger] ts[i as int].0.1[k],
                    u.0.1[k],
                ) by {
                    assert(g.ensures((&t.0.1@[k],), conf.1@[k]));
                }
                assert(image_of::<Q, R, L, G>(*g, ts[i as int], u));
            }
            out.add(conf, label, target);
            proof {
                lemma_image_step::<Q, R, L, G>(*g, ts, before, out.transitions_view(), i as int, u);
            }
            i += 1;
        }
        assert(ts.take(i as int) =~= ts);
        let ghost fs = self.finals_view();
        let mut k: usize = 0;
        while k < self.final_states.len()
            invariant
                0 <= k <= self.final_states@.len(),
                fs == self.finals_view(),
                forall|q: &Q| #[trigger] g.requires((q,)),
                out.wf(),
                image_of_all::<Q, R, L, G>(*g, ts, out.transitions_view()),
                states_image::<Q, R, G>(*g, fs.take(k as int), out.finals_view()),
            decreases self.final_states@.len() - k,
        {
            let target = g(&self.final_states[k]);
            let ghost u = target@;
            let ghost before = out.finals_view();
            proof {
                assert(maps_to::<Q, R, G>(*g, fs[k as int], u));
            }
            out.set_final(target);
            proof {
                lemma_states_image_step::<Q, R, G>(*g, fs, before, out.finals_view(), k as int, u);
            }
            k += 1;
        }
        assert(fs.take(k as int) =~= fs);
        out
    }

    /// Replaces the accepting states by the states of the automaton that
    /// were not accepting.
    pub fn complement(&mut self)
        requires
            old(self).wf(),
        ensures
            final(self).wf(),
            final(self).transitions_view() == old(self).transitions_view(),
            final(self).finals_view().to_set() == old(self).state_set().difference(
                old(self).finals_view().to_set(),
            ),
    {
        let states = self.states();
        let mut out: Vec<Q> = Vec::new();
        let ghost all = views(states@);
        let ghost fin = self.finals_view();
        let mut i: usize = 0;
        assert(views(out@).to_set() =~= all.take(0).to_set().difference(fin.to_set()));
        while i < states.len()
            invariant
                0 <= i <= states.len(),
                all == views(states@),
                fin == self.finals_view(),
                views(out@).no_duplicates(),
                views(out@).to_set() == all.take(i as int).to_set().difference(fin.to_set()),
            decreases states.len() - i,
        {
            let q = states[i].copy();
            proof {
                assert(all.take(i + 1) =~= all.take(i as int).push(q@));
                all.take(i as int).lemma_push_to_set_commute(q@);
            }
            if !contains(&self.final_states, &q) {
                insert_unique(&mut out, q);
                assert(views(out@).to_set() =~= all.take(i + 1).to_set().difference(fin.to_set()));
            } else {
                assert(views(out@).to_set() =~= all.take(i + 1).to_set().difference(fin.to_set()));
            }
            i += 1;
        }
        assert(all.take(i as int) =~= all);
        self.final_states = out;
    }
}


/// The walk over the transitions of an automaton, in insertion order.
pub struct Transifions<'a, Q, L> {
    pub automaton: &'a Automaton<Q, L>,
    pub position: usize,
}

impl<'a, Q: Value, L: Value> Transifions<'a, Q, L> {
    /// The transitions that are still to come.
    pub open spec fn remaining(&self) -> Seq<TransitionView<Q::V, L::V>> {
        self.automaton.transitions_view().skip(self.position as int)
    }

    pub open spec fn wf(&self) -> bool {
        self.position <= self.automaton.transitions@.len()
    }

    /// The walk at the first transition of `aut`.
    pub fn new(aut: &'a Automaton<Q, L>) -> (r: Transifions<'a, Q, L>)
        ensures
            r.wf(),
            r.automaton == aut,
            r.remaining() == aut.transitions_view(),
    {
        let r = Transifions { automaton: aut, position: 0 };
        assert(r.remaining() =~= aut.transitions_view());
        r
    }

    /// The next transition, if there is one.
    pub fn next(&mut self) -> (r: Option<&'a (Configuration<Q>, L, Q)>)
        requires
            old(self).wf(),
        ensures
            final(self).wf(),
            final(self).automaton == old(self).automaton,
            match r {
                Some(t) => old(self).remaining().len() > 0 && t@ == old(self).remaining()[0]
                    && final(self).remaining() == old(self).remaining().skip(1),
                None => old(self).remaining().len() == 0 && final(self).remaining() == old(self).remaining(),
            },
    {
        if self.position < self.automaton.transitions.len() {
            let t = &self.automaton.transitions[self.position];
            self.position = self.position + 1;
            assert(self.remaining() =~= old(self).remaining().skip(1));
            Some(t)
        } else {
            None
        }
    }
}

/// The walk over a list of labeled configurations that gives out a copy of
/// each configuration, without its label.
pub struct CloneConfigurations<Q, L> {
    pub it: Vec<(Configuration<Q>, L)>,
    pub position: usize,
}

impl<Q: Value, L: Value> CloneConfigurations<Q, L> {
    /// The views of the configurations that are still to come.
    pub open spec fn remaining(&self) -> Seq<(Symbol, Seq<Q::V>)> {
        views(self.it@).map_values(|c: ((Symbol, Seq<Q::V>), L::V)| c.0).skip(self.position as int)
    }

    pub open spec fn wf(&self) -> bool {
        self.position <= self.it@.len()
    }

    /// The walk at the first configuration of `it`.
    pub fn new(it: Vec<(Configuration<Q>, L)>) -> (r: CloneConfigurations<Q, L>)
        ensures
            r.wf(),
            r.it@ == it@,
            r.position == 0,
    {
        CloneConfigurations { it, position: 0 }
    }

    /// A copy of the next configuration, if there is one.
    pub fn next(&mut self) -> (r: Option<Configuration<Q>>)
        requires
            old(self).wf(),
        ensures
            final(self).wf(),
            final(self).it@ == old(self).it@,
            match r {
                Some(c) => old(self).remaining().len() > 0 && c@ == old(self).remaining()[0]
                    && final(self).remaining() == old(self).remaining().skip(1),
                None => old(self).remaining().len() == 0 && final(self).remaining() == old(self).remaining(),
            },
    {
        if self.position < self.it.len() {
            let c = self.it[self.position].0.copy();
            assert(old(self).remaining()[0] == views(self.it@)[self.position as int].0);
            self.position = self.position + 1;
            assert(self.remaining() =~= old(self).remaining().skip(1));
            Some(c)
        } else {
            None
        }
    }
}

/// An item is in the selection exactly when some element is selected to it.
pub proof fn lemma_filter_map_has<A, B>(s: Seq<A>, f: spec_fn(A) -> Option<B>, b: B)
    ensures
        s.filter_map(f).contains(b) <==> exists|i: int| 0 <= i < s.len() && f(#[trigger] s[i]) == Some(b),
    decreases s.len(),
{
    if s.len() > 0 {
        let rest = s.drop_last();
        lemma_filter_map_has(rest, f, b);
        let sub = rest.filter_map(f);
        if s.filter_map(f).contains(b) {
            let k = choose|k: int| 0 <= k < s.filter_map(f).len() && s.filter_map(f)[k] == b;
            if k < sub.len() {
                assert(sub[k] == b);
                assert(sub.contains(b));
                let i = choose|i: int| 0 <= i < rest.len() && f(#[trigger] rest[i]) == Some(b);
                assert(s[i] == rest[i]);
            } else {
                assert(f(s[s.len() - 1]) == Some(b));
            }
        }
        if exists|i: int| 0 <= i < s.len() && f(#[trigger] s[i]) == Some(b) {
            let i = choose|i: int| 0 <= i < s.len() && f(#[trigger] s[i]) == Some(b);
            if i < s.len() - 1 {
                assert(rest[i] == s[i]);
                assert(sub.contains(b));
                let k = choose|k: int| 0 <= k < sub.len() && sub[k] == b;
                assert(s.filter_map(f)[k] == b);
            } else {
                assert(s.filter_map(f)[sub.len() as int] == b);
            }
        }
    } else {
        assert(s.filter_map(f) =~= Seq::empty());
    }
}

/// The two lookups are inverse to each other: a labeled configuration leads
/// into a state exactly when the state, with that label, is among those
/// that the configuration leads into; and both hold exactly of the
/// transitions.
pub proof fn lemma_lookups_agree<S, M>(
    ts: Seq<TransitionView<S, M>>,
    c: (Symbol, Seq<S>),
    l: M,
    q: S,
)
    ensures
        configurations_into(ts, q).contains((c, l)) <==> ts.contains((c, l, q)),
        states_from(ts, c).contains((q, l)) <==> ts.contains((c, l, q)),
        configurations_into(ts, q).contains((c, l)) <==> states_from(ts, c).contains((q, l)),
{
    let f = select_into::<S, M>(q);
    let g = select_from::<S, M>(c);
    lemma_filter_map_has(ts, f, (c, l));
    lemma_filter_map_has(ts, g, (q, l));
    if ts.contains((c, l, q)) {
        let i = choose|i: int| 0 <= i < ts.len() && ts[i] == (c, l, q);
        assert(f(ts[i]) == Some((c, l)));
        assert(g(ts[i]) == Some((q, l)));
    }
    if exists|i: int| 0 <= i < ts.len() && f(#[trigger] ts[i]) == Some((c, l)) {
        let i = choose|i: int| 0 <= i < ts.len() && f(#[trigger] ts[i]) == Some((c, l));
        assert(ts[i] == (c, l, q));
    }
    if exists|i: int| 0 <= i < ts.len() && g(#[trigger] ts[i]) == Some((q, l)) {
        let i = choose|i: int| 0 <= i < ts.len() && g(#[trigger] ts[i]) == Some((q, l));
        assert(ts[i] == (c, l, q));
    }
}

/// Complementing twice gives back the accepting states, where each of them
/// is a state of the automaton: `before`, `once` and `twice` are the
/// accepting states at the start, after one complement and after two, and
/// `states` the states of the automaton, which a complement leaves alone.
pub proof fn lemma_complement_twice<S>(states: Set<S>, before: Set<S>, once: Set<S>, twice: Set<S>)
    requires
        before.subset_of(states),
        once == states.difference(before),
        twice == states.difference(once),
    ensures
        twice == before,
{
    assert(twice =~= before);
}


/// A tree whose inner nodes are symbol applications and whose leaves are
/// states.
pub enum Pattern<Q> {
    Cons(Symbol, Vec<Pattern<Q>>),
    Var(Q),
}

/// What gives a state and a label to a configuration that has none yet.
pub trait Normalizer<Q, L> {
    fn normalize(&mut self, configuration: &Configuration<Q>) -> (Q, L);
}

/// Whether the transitions `ts` lead from `pattern` into `q`: a leaf is
/// its own state; an inner node has a transition from its symbol and the
/// states of its children.
pub open spec fn recognizes<Q: Value, M>(ts: Seq<TransitionView<Q::V, M>>, pattern: Pattern<Q>, q: Q::V) -> bool
    decreases pattern,
{
    match pattern {
        Pattern::Var(x) => q == x@,
        Pattern::Cons(f, subs) => exists|i: int|
            #[trigger] heads(ts, i, f, subs@.len(), q) && forall|j: int|
                0 <= j < subs@.len() ==> recognizes(ts, #[trigger] subs@[j], ts[i].0.1[j]),
    }
}

/// Whether `pattern` has an inner node with symbol `f` and `n` children.
pub open spec fn has_node<Q>(pattern: Pattern<Q>, f: Symbol, n: nat) -> bool
    decreases pattern,
{
    match pattern {
        Pattern::Var(_) => false,
        Pattern::Cons(g, subs) => (g == f && subs@.len() == n) || exists|j: int|
            0 <= j < subs@.len() && has_node(#[trigger] subs@[j], f, n),
    }
}

/// Whether transition `i` leads from symbol `f` and `n` children into `q`.
pub open spec fn heads<S, M>(ts: Seq<TransitionView<S, M>>, i: int, f: Symbol, n: nat, q: S) -> bool {
    &&& 0 <= i < ts.len()
    &&& ts[i].2 == q
    &&& ts[i].0.0 == f
    &&& ts[i].0.1.len() == n
}

/// Whether `ts` goes on from `old`: it starts with the same transitions.
pub open spec fn extends<T>(old: Seq<T>, ts: Seq<T>) -> bool {
    old.len() <= ts.len() && ts.take(old.len() as int) == old
}

/// What more transitions recognize, fewer recognized already.
pub proof fn lemma_recognizes_extends<Q: Value, M>(
    old: Seq<TransitionView<Q::V, M>>,
    ts: Seq<TransitionView<Q::V, M>>,
    pattern: Pattern<Q>,
    q: Q::V,
)
    requires
        extends(old, ts),
        recognizes(old, pattern, q),
    ensures
        recognizes(ts, pattern, q),
    decreases pattern,
{
    match pattern {
        Pattern::Var(x) => {},
        Pattern::Cons(f, subs) => {
            let i = choose|i: int|
                #[trigger] heads(old, i, f, subs@.len(), q) && forall|j: int|
                    0 <= j < subs@.len() ==> recognizes(old, #[trigger] subs@[j], old[i].0.1[j]);
            assert(ts.take(old.len() as int)[i] == old[i]);
            assert(heads(ts, i, f, subs@.len(), q));
            assert forall|j: int| 0 <= j < subs@.len() implies recognizes(
                ts,
                #[trigger] subs@[j],
                ts[i].0.1[j],
            ) by {
                lemma_recognizes_extends(old, ts, subs@[j], old[i].0.1[j]);
            }
        },
    }
}

/// Going on is transitive.
pub proof fn lemma_extends_trans<T>(a: Seq<T>, b: Seq<T>, c: Seq<T>)
    requires
        extends(a, b),
        extends(b, c),
    ensures
        extends(a, c),
{
    assert(c.take(a.len() as int) =~= c.take(b.len() as int).take(a.len() as int));
}

impl<Q: Value, L: Value> Automaton<Q, L> {
    /// Adds what is missing for the automaton to lead from `pattern` into a
    /// state, and returns that state. The children are taken first, in
    /// order. A node whose configuration already has a transition takes
    /// the first state that it leads into; another gets its state and its
    /// label from `normalizer`. `pattern` is not a leaf.
    pub fn add_normalized<N: Normalizer<Q, L>>(&mut self, pattern: &Pattern<Q>, normalizer: &mut N) -> (r: Q)
        requires
            old(self).wf(),
            pattern is Cons,
        ensures
            final(self).wf(),
            final(self).finals_view() == old(self).finals_view(),
            extends(old(self).transitions_view(), final(self).transitions_view()),
            recognizes(final(self).transitions_view(), *pattern, r@),
            forall|j: int|
                old(self).transitions_view().len() <= j < final(self).transitions_view().len()
                    ==> has_node(
                    *pattern,
                    (#[trigger] final(self).transitions_view()[j]).0.0,
                    final(self).transitions_view()[j].0.1.len(),
                ),
        decreases pattern,
    {
        match pattern {
            Pattern::Cons(f, subs) => {
                let mut states: Vec<Q> = Vec::new();
                let mut i: usize = 0;
                proof {
                    assert(self.transitions_view().take(self.transitions_view().len() as int)
                        =~= self.transitions_view());
                }
                while i < subs.len()
                    invariant
                        0 <= i <= subs@.len(),
                        pattern == &Pattern::Cons(*f, *subs),
                        self.wf(),
                        self.finals_view() == old(self).finals_view(),
                        extends(old(self).transitions_view(), self.transitions_view()),
                        forall|j: int|
                            old(self).transitions_view().len() <= j < self.transitions_view().len()
                                ==> has_node(
                                *pattern,
                                (#[trigger] self.transitions_view()[j]).0.0,
                                self.transitions_view()[j].0.1.len(),
                            ),
                        states@.len() == i,
                        forall|j: int|
                            0 <= j < i ==> recognizes(
                                self.transitions_view(),
                                #[trigger] subs@[j],
                                states@[j]@,
                            ),
                    decreases subs@.len() - i,
                {
                    let ghost before = self.transitions_view();
                    let ghost prev = states@;
                    proof {
                        assert(*pattern == Pattern::Cons(*f, *subs));
                        let whole = *pattern;
                        let list = whole->Cons_1;
                        assert(list == *subs);
                        assert(decreases_to!(whole => list));
                        assert(decreases_to!(list => list@));
                        assert(decreases_to!(list@ => list@[i as int]));
                        assert(decreases_to!(whole => list@[i as int]));
                    }
                    let q = match &subs[i] {
                        Pattern::Var(x) => x.copy(),
                        Pattern::Cons(_, _) => self.add_normalized(&subs[i], normalizer),
                    };
                    proof {
                        let now = self.transitions_view();
                        assert(extends(before, now)) by {
                            assert(now.take(now.len() as int) =~= now);
                        }
                        lemma_extends_trans(old(self).transitions_view(), before, now);
                        assert forall|j: int|
                            old(self).transitions_view().len() <= j < now.len() implies has_node(
                            *pattern,
                            (#[trigger] now[j]).0.0,
                            now[j].0.1.len(),
                        ) by {
                            if j < before.len() {
                                assert(now.take(before.len() as int)[j] == before[j]);
                            } else {
                                assert(has_node(subs@[i as int], now[j].0.0, now[j].0.1.len()));
                            }
                        }
                        assert forall|j: int| 0 <= j < i implies recognizes(
                            now,
                            #[trigger] subs@[j],
                            prev[j]@,
                        ) by {
                            lemma_recognizes_extends(before, now, subs@[j], prev[j]@);
                        }
                    }
                    states.push(q);
                    i += 1;
                }
                let conf = Configuration(*f, states);
                let known = self.states_for_configuration(&conf);
                if known.len() > 0 {
                    let r = known[0].0.copy();
                    proof {
                        let ts = self.transitions_view();
                        let sel = select_from::<Q::V, L::V>(conf@);
                        let hit = views(known@)[0];
                        assert(ts.filter_map(sel).contains(hit));
                        lemma_filter_map_has(ts, sel, hit);
                        let k = choose|k: int| 0 <= k < ts.len() && sel(#[trigger] ts[k]) == Some(hit);
                        assert(heads(ts, k, *f, subs@.len(), r@));
                        assert forall|j: int| 0 <= j < subs@.len() implies recognizes(
                            ts,
                            #[trigger] subs@[j],
                            ts[k].0.1[j],
                        ) by {
                            assert(ts[k].0.1[j] == conf.1@[j]@);
                        }
                    }
                    r
                } else {
                    let ghost shown = conf@;
                    let (state, label) = normalizer.normalize(&conf);
                    let r = state.copy();
                    let ghost before = self.transitions_view();
                    let ghost children = conf.1@;
                    self.add(conf, label, state);
                    proof {
                        let ts = self.transitions_view();
                        let t = (shown, label@, r@);
                        assert(extends(before, ts)) by {
                            if before.contains(t) {
                                assert(ts.take(ts.len() as int) =~= ts);
                            } else {
                                assert(before.push(t).take(before.len() as int) =~= before);
                            }
                        }
                        lemma_extends_trans(old(self).transitions_view(), before, ts);
                        assert forall|j: int|
                            old(self).transitions_view().len() <= j < ts.len() implies has_node(
                            *pattern,
                            (#[trigger] ts[j]).0.0,
                            ts[j].0.1.len(),
                        ) by {
                            if j < before.len() {
                                assert(ts.take(before.len() as int)[j] == before[j]);
                            } else {
                                assert(ts[j] == t);
                            }
                        }
                        assert(ts.to_set().contains(t));
                        let k = choose|k: int| 0 <= k < ts.len() && ts[k] == t;
                        assert(heads(ts, k, *f, subs@.len(), r@));
                        assert forall|j: int| 0 <= j < subs@.len() implies recognizes(
                            ts,
                            #[trigger] subs@[j],
                            ts[k].0.1[j],
                        ) by {
                            assert(ts[k].0.1[j] == children[j]@);
                            lemma_recognizes_extends(before, ts, subs@[j], children[j]@);
                        }
                    }
                    r
                }
            },
            Pattern::Var(x) => x.copy(),
        }
    }
}


/// Whether `arity` gives to each symbol of `alphabet` the arity that it has
/// there.
pub open spec fn agrees_with(alphabet: Seq<Rank<Symbol>>, arity: spec_fn(Symbol) -> nat) -> bool {
    forall|a: int| 0 <= a < alphabet.len() ==> arity((#[trigger] alphabet[a]).0) == alphabet[a].1
}

/// Whether `t` starts from a symbol of `alphabet`, with as many children
/// as its arity there.
pub open spec fn over_alphabet<S, M>(alphabet: Seq<Rank<Symbol>>, t: TransitionView<S, M>) -> bool {
    exists|a: int|
        0 <= a < alphabet.len() && (#[trigger] alphabet[a]).0 == t.0.0 && alphabet[a].1
            == t.0.1.len()
}

/// Whether every state of `s` is in `pool`.
pub open spec fn drawn_from<S>(pool: Seq<S>, s: Seq<S>) -> bool {
    forall|m: int| 0 <= m < s.len() ==> pool.contains(#[trigger] s[m])
}

/// Whether `conf` is served: `ts` has a transition from it, or `theirs` has
/// none from what `into` gives for it.
pub open spec fn served<Q: Value, R: Value, A: Fn(&Q) -> R>(
    ts: Seq<TransitionView<Q::V, ()>>,
    theirs: Seq<TransitionView<R::V, ()>>,
    into: A,
    conf: (Symbol, Seq<Q::V>),
) -> bool {
    states_from(ts, conf).len() > 0 || exists|parent: Seq<R::V>|
        #[trigger] maps_all::<Q, R, A>(into, conf.1, parent) && states_from(
            theirs,
            (conf.0, parent),
        ).len() == 0
}

/// Whether, for each of the first `upto` symbols of `alphabet`, every
/// sequence of states of `pool` of the symbol's arity is served.
pub open spec fn completed<Q: Value, R: Value, A: Fn(&Q) -> R>(
    ts: Seq<TransitionView<Q::V, ()>>,
    theirs: Seq<TransitionView<R::V, ()>>,
    into: A,
    alphabet: Seq<Rank<Symbol>>,
    pool: Seq<Q::V>,
    upto: int,
) -> bool {
    forall|a: int, s: Seq<Q::V>|
        0 <= a < upto && s.len() == alphabet[a].1 && drawn_from(pool, s) ==> #[trigger] served::<
            Q,
            R,
            A,
        >(ts, theirs, into, (alphabet[a].0, s))
}

/// Whether `t` is borrowed from `theirs`: it leads from its configuration
/// into what `from` gives for the first state that `theirs` leads into
/// from what `into` gives for the configuration.
pub open spec fn borrowed<Q: Value, R: Value, A: Fn(&Q) -> R, B: Fn(&R) -> Q>(
    theirs: Seq<TransitionView<R::V, ()>>,
    into: A,
    from: B,
    t: TransitionView<Q::V, ()>,
) -> bool {
    exists|parent: Seq<R::V>|
        #[trigger] maps_all::<Q, R, A>(into, t.0.1, parent) && states_from(
            theirs,
            (t.0.0, parent),
        ).len() > 0 && maps_to::<R, Q, B>(from, states_from(theirs, (t.0.0, parent))[0].0, t.2)
}

/// Whether `pool` holds the states of `own` and, for each state of
/// `theirs`, a state that `from` gives for it, and nothing else.
pub open spec fn pool_of<Q: Value, R: Value, B: Fn(&R) -> Q>(
    own: Set<Q::V>,
    theirs: Set<R::V>,
    from: B,
    pool: Seq<Q::V>,
) -> bool {
    &&& forall|q: Q::V| own.contains(q) ==> pool.contains(q)
    &&& forall|r: R::V| #[trigger] theirs.contains(r) ==> given(pool, from, r)
    &&& forall|j: int|
        0 <= j < pool.len() ==> own.contains(#[trigger] pool[j]) || taken::<Q, R, B>(
            theirs,
            from,
            pool[j],
        )
}

/// Whether `pool` holds a state that `from` gives for `r`.
pub open spec fn given<Q: Value, R: Value, B: Fn(&R) -> Q>(pool: Seq<Q::V>, from: B, r: R::V) -> bool {
    exists|j: int| 0 <= j < pool.len() && maps_to::<R, Q, B>(from, r, #[trigger] pool[j])
}

/// Whether `from` gives `q` for a state of `theirs`.
pub open spec fn taken<Q: Value, R: Value, B: Fn(&R) -> Q>(theirs: Set<R::V>, from: B, q: Q::V) -> bool {
    exists|r: R::V| theirs.contains(r) && #[trigger] maps_to::<R, Q, B>(from, r, q)
}

/// A configuration that has a transition keeps one as transitions are
/// added.
pub proof fn lemma_states_from_extends<S, M>(
    old: Seq<TransitionView<S, M>>,
    ts: Seq<TransitionView<S, M>>,
    c: (Symbol, Seq<S>),
)
    requires
        extends(old, ts),
        states_from(old, c).len() > 0,
    ensures
        states_from(ts, c).len() > 0,
{
    let sel = select_from::<S, M>(c);
    let hit = states_from(old, c)[0];
    assert(old.filter_map(sel).contains(hit));
    lemma_filter_map_has(old, sel, hit);
    let i = choose|i: int| 0 <= i < old.len() && sel(#[trigger] old[i]) == Some(hit);
    assert(ts.take(old.len() as int)[i] == old[i]);
    assert(sel(ts[i]) == Some(hit));
    lemma_filter_map_has(ts, sel, hit);
    assert(ts.filter_map(sel).contains(hit));
}

/// What is completed stays completed as transitions are added.
pub proof fn lemma_completed_extends<Q: Value, R: Value, A: Fn(&Q) -> R>(
    old: Seq<TransitionView<Q::V, ()>>,
    ts: Seq<TransitionView<Q::V, ()>>,
    theirs: Seq<TransitionView<R::V, ()>>,
    into: A,
    alphabet: Seq<Rank<Symbol>>,
    pool: Seq<Q::V>,
    upto: int,
)
    requires
        extends(old, ts),
        completed::<Q, R, A>(old, theirs, into, alphabet, pool, upto),
    ensures
        completed::<Q, R, A>(ts, theirs, into, alphabet, pool, upto),
{
    assert forall|a: int, s: Seq<Q::V>|
        0 <= a < upto && s.len() == alphabet[a].1 && drawn_from(pool, s) implies #[trigger] served::<
        Q,
        R,
        A,
    >(ts, theirs, into, (alphabet[a].0, s)) by {
        assert(served::<Q, R, A>(old, theirs, into, (alphabet[a].0, s)));
        if states_from(old, (alphabet[a].0, s)).len() > 0 {
            lemma_states_from_extends(old, ts, (alphabet[a].0, s));
        }
    }
}

/// A configuration that is served stays served as transitions are added.
pub proof fn lemma_served_extends<Q: Value, R: Value, A: Fn(&Q) -> R>(
    old: Seq<TransitionView<Q::V, ()>>,
    ts: Seq<TransitionView<Q::V, ()>>,
    theirs: Seq<TransitionView<R::V, ()>>,
    into: A,
    conf: (Symbol, Seq<Q::V>),
)
    requires
        extends(old, ts),
        served::<Q, R, A>(old, theirs, into, conf),
    ensures
        served::<Q, R, A>(ts, theirs, into, conf),
{
    if states_from(old, conf).len() > 0 {
        lemma_states_from_extends(old, ts, conf);
    }
}

/// A transition that is there serves its configuration.
pub proof fn lemma_transition_serves<S, M>(ts: Seq<TransitionView<S, M>>, t: TransitionView<S, M>)
    requires
        ts.contains(t),
    ensures
        states_from(ts, t.0).len() > 0,
{
    lemma_lookups_agree(ts, t.0, t.1, t.2);
    assert(states_from(ts, t.0).contains((t.2, t.1)));
}

impl<Q: Value> Automaton<Q, NoLabel> {
    /// The states of the automaton and, for each state of `lang`, what
    /// `from` gives for it.
    pub fn pool<R: Value, B: Fn(&R) -> Q>(&self, lang: &Automaton<R, NoLabel>, from: &B) -> (r: Vec<Q>)
        requires
            forall|r: &R| #[trigger] from.requires((r,)),
        ensures
            pool_of::<Q, R, B>(self.state_set(), lang.state_set(), *from, views(r@)),
    {
        let mut states: Vec<Q> = self.states();
        let ghost own = views(states@);
        let theirs = lang.states();
        let ghost them = views(theirs@);
        let mut s: usize = 0;
        while s < theirs.len()
            invariant
                0 <= s <= theirs@.len(),
                them == views(theirs@),
                forall|r: &R| #[trigger] from.requires((r,)),
                own.len() <= states@.len(),
                views(states@).take(own.len() as int) == own,
                states@.len() == own.len() + s,
                forall|j: int|
                    0 <= j < s ==> maps_to::<R, Q, B>(*from, them[j], #[trigger] views(states@)[own.len() + j]),
            decreases theirs@.len() - s,
        {
            let ghost before = states@;
            let q = from(&theirs[s]);
            states.push(q);
            proof {
                lemma_views_push(before, q);
                assert(views(states@).take(own.len() as int) =~= views(before).take(own.len() as int));
                assert(maps_to::<R, Q, B>(*from, them[s as int], q@));
                assert forall|j: int| 0 <= j < s + 1 implies maps_to::<R, Q, B>(
                    *from,
                    them[j],
                    #[trigger] views(states@)[own.len() + j],
                ) by {
                    if j < s {
                        assert(views(states@)[own.len() + j] == views(before)[own.len() + j]);
                    }
                }
            }
            s += 1;
        }
        proof {
            let pool = views(states@);
            assert forall|q: Q::V| self.state_set().contains(q) implies pool.contains(q) by {
                assert(own.to_set().contains(q));
                let k = choose|k: int| 0 <= k < own.len() && own[k] == q;
                assert(pool.take(own.len() as int)[k] == q);
                assert(pool[k] == q);
            }
            assert forall|r: R::V| #[trigger] lang.state_set().contains(r) implies given::<Q, R, B>(
                pool,
                *from,
                r,
            ) by {
                assert(them.to_set().contains(r));
                let k = choose|k: int| 0 <= k < them.len() && them[k] == r;
                assert(maps_to::<R, Q, B>(*from, r, pool[own.len() + k]));
            }
            assert forall|j: int| 0 <= j < pool.len() implies self.state_set().contains(
                #[trigger] pool[j],
            ) || taken::<Q, R, B>(lang.state_set(), *from, pool[j]) by {
                if j < own.len() {
                    assert(pool.take(own.len() as int)[j] == pool[j]);
                    assert(own.to_set().contains(own[j]));
                } else {
                    let k = j - own.len();
                    assert(them.to_set().contains(them[k]));
                    assert(maps_to::<R, Q, B>(*from, them[k], pool[own.len() + k]));
                }
            }
        }
        states
    }

    /// Serves every sequence of `arity` states of `states` under `f`: where
    /// the sequence has no transition from `f` yet and `lang` has one from
    /// what `into` gives for it, the first state that `lang` leads into
    /// becomes, through `from`, the target of a new transition.
    pub fn complete_symbol<R: Value, A: Fn(&Q) -> R, B: Fn(&R) -> Q>(
        &mut self,
        f: Symbol,
        arity: usize,
        states: &Vec<Q>,
        lang: &Automaton<R, NoLabel>,
        into: &A,
        from: &B,
    )
        requires
            old(self).wf(),
            forall|q: &Q| #[trigger] into.requires((q,)),
            forall|r: &R| #[trigger] from.requires((r,)),
        ensures
            final(self).wf(),
            final(self).finals_view() == old(self).finals_view(),
            extends(old(self).transitions_view(), final(self).transitions_view()),
            forall|j: int|
                old(self).transitions_view().len() <= j < final(self).transitions_view().len() ==> (
                #[trigger] final(self).transitions_view()[j]).0.0 == f
                    && final(self).transitions_view()[j].0.1.len() == arity
                    && borrowed::<Q, R, A, B>(
                    lang.transitions_view(),
                    *into,
                    *from,
                    final(self).transitions_view()[j],
                ),
            forall|s: Seq<Q::V>|
                s.len() == arity && drawn_from(views(states@), s) ==> #[trigger] served::<Q, R, A>(
                    final(self).transitions_view(),
                    lang.transitions_view(),
                    *into,
                    (f, s),
                ),
    {
        let ghost first = self.transitions_view();
        let ghost theirs = lang.transitions_view();
        let ghost pool = views(states@);
        assert(extends(first, first)) by {
            assert(first.take(first.len() as int) =~= first);
        }
        let mut sources: Vec<Vec<Q>> = Vec::new();
        let mut k: usize = 0;
        while k < arity
            invariant
                0 <= k <= arity,
                sources@.len() == k,
                forall|m: int| 0 <= m < k ==> views((#[trigger] sources@[m])@) == views(states@),
            decreases arity - k,
        {
            sources.push(copy_vec(states));
            k += 1;
        }
        let mut tuples = Combinations::new(sources);
        let ghost start = tuples;
        let ghost limits = tuples.limits();
        loop
            invariant
                tuples.wf(),
                tuples.sources@ == start.sources@,
                tuples.limits() == limits,
                start.sources@.len() == arity,
                forall|m: int| 0 <= m < arity ==> views((#[trigger] start.sources@[m])@) == pool,
                !start.exhausted() ==> start.position() == 0,
                start.exhausted() ==> tuples.exhausted(),
                start.exhausted() ==> arity > 0 && pool.len() == 0,
                first == old(self).transitions_view(),
                theirs == lang.transitions_view(),
                pool == views(states@),
                forall|q: &Q| #[trigger] into.requires((q,)),
                forall|r: &R| #[trigger] from.requires((r,)),
                self.wf(),
                self.finals_view() == old(self).finals_view(),
                extends(first, self.transitions_view()),
                forall|j: int|
                    first.len() <= j < self.transitions_view().len() ==> (
                    #[trigger] self.transitions_view()[j]).0.0 == f && self.transitions_view()[j].0.1.len()
                        == arity && borrowed::<Q, R, A, B>(
                        theirs,
                        *into,
                        *from,
                        self.transitions_view()[j],
                    ),
                forall|c: Seq<usize>|
                    !start.exhausted() && within(limits, c) && #[trigger] rank(limits, c)
                        < tuples.position() ==> served::<Q, R, A>(
                        self.transitions_view(),
                        theirs,
                        *into,
                        (f, start.tuple_at(c)),
                    ),
            ensures
                tuples.exhausted(),
            decreases
                    (if tuples.exhausted() {
                        0
                    } else {
                        count(tuples.limits()) - tuples.position() + 1
                    }),
        {
            let ghost before = tuples;
            let ghost ts_before = self.transitions_view();
            proof {
                if !tuples.exhausted() {
                    lemma_rank_bound(tuples.limits(), tuples.cursor());
                }
            }
            match tuples.next() {
                None => {
                    break ;
                },
                Some(tuple) => {
                    proof {
                        if !tuples.exhausted() {
                            lemma_rank_bound(tuples.limits(), tuples.cursor());
                        }
                        assert(views(tuple@) == before.current());
                        assert(before.tuple_at(before.cursor()) =~= start.tuple_at(before.cursor()));
                    }
                    let conf = Configuration(f, tuple);
                    let ghost shown = conf@;
                    if self.states_for_configuration(&conf).len() == 0 {
                        let parent = conf.map(into);
                        let found = lang.states_for_configuration(&parent);
                        proof {
                            assert(maps_all::<Q, R, A>(*into, shown.1, parent@.1)) by {
                                assert forall|m: int| 0 <= m < shown.1.len() implies maps_to::<Q, R, A>(
                                    *into,
                                    #[trigger] shown.1[m],
                                    parent@.1[m],
                                ) by {
                                    assert(into.ensures((&conf.1@[m],), parent.1@[m]));
                                }
                            }
                        }
                        if found.len() > 0 {
                            let target = from(&found[0].0);
                            let ghost t = (shown, (), target@);
                            self.add(conf, NoLabel, target);
                            proof {
                                let ts = self.transitions_view();
                                assert(extends(ts_before, ts)) by {
                                    if ts_before.contains(t) {
                                        assert(ts.take(ts.len() as int) =~= ts);
                                    } else {
                                        assert(ts_before.push(t).take(ts_before.len() as int) =~= ts_before);
                                    }
                                }
                                lemma_extends_trans(first, ts_before, ts);
                                assert(borrowed::<Q, R, A, B>(theirs, *into, *from, t)) by {
                                    assert(views(found@)[0] == found@[0]@);
                                    assert(maps_to::<R, Q, B>(*from, found@[0].0@, target@));
                                    assert(maps_all::<Q, R, A>(*into, t.0.1, parent@.1));
                                }
                                assert forall|j: int| first.len() <= j < ts.len() implies (#[trigger] ts[j]).0.0
                                    == f && ts[j].0.1.len() == arity && borrowed::<Q, R, A, B>(
                                    theirs,
                                    *into,
                                    *from,
                                    ts[j],
                                ) by {
                                    if j < ts_before.len() {
                                        assert(ts.take(ts_before.len() as int)[j] == ts_before[j]);
                                    } else {
                                        assert(ts[j] == t);
                                    }
                                }
                                assert(ts.to_set().contains(t));
                                lemma_transition_serves(ts, t);
                            }
                        } else {
                            assert(served::<Q, R, A>(ts_before, theirs, *into, shown));
                        }
                    }
                    proof {
                        let ts = self.transitions_view();
                        assert(extends(ts_before, ts)) by {
                            if ts == ts_before {
                                assert(ts.take(ts.len() as int) =~= ts);
                            }
                        }
                        assert(served::<Q, R, A>(ts, theirs, *into, shown));
                        assert forall|c: Seq<usize>|
                            !start.exhausted() && within(limits, c) && #[trigger] rank(limits, c)
                                < tuples.position() implies served::<Q, R, A>(
                            ts,
                            theirs,
                            *into,
                            (f, start.tuple_at(c)),
                        ) by {
                            if rank(limits, c) < before.position() {
                                lemma_served_extends::<Q, R, A>(
                                    ts_before,
                                    ts,
                                    theirs,
                                    *into,
                                    (f, start.tuple_at(c)),
                                );
                            } else {
                                lemma_rank_injective(limits, before.cursor(), c);
                            }
                        }
                    }
                },
            }
        }
        proof {
            let ts = self.transitions_view();
            assert forall|s: Seq<Q::V>|
                s.len() == arity && drawn_from(pool, s) implies #[trigger] served::<Q, R, A>(
                ts,
                theirs,
                *into,
                (f, s),
            ) by {
                let lists = Seq::new(arity as nat, |m: int| pool);
                assert forall|m: int| 0 <= m < lists.len() implies (#[trigger] lists[m]).contains(s[m])
                    && lists[m].len() <= usize::MAX by {
                    assert(states@.len() == states.len());
                }
                let c = crate::utils::lemma_located(lists, s, arity as nat);
                if arity > 0 {
                    assert(c[0] < pool.len());
                }
                assert(!start.exhausted());
                assert forall|m: int| 0 <= m < c.len() implies c[m] <= limits[m] by {
                    assert(start.sources@[m]@.len() == limits[m] + 1);
                    assert(views(start.sources@[m]@).len() == pool.len());
                    assert(c[m] < lists[m].len());
                }
                assert(within(limits, c));
                lemma_rank_bound(limits, c);
                assert(start.tuple_at(c) =~= s) by {
                    assert forall|m: int| 0 <= m < s.len() implies start.tuple_at(c)[m] == s[m] by {
                        assert(views(start.sources@[m]@) == pool);
                        assert(lists[m][c[m] as int] == s[m]);
                    }
                }
            }
        }
    }

    /// Completes the automaton with transitions borrowed from `lang`. The
    /// states considered are those of the automaton and, through `from`,
    /// those of `lang`. For each symbol of `alphabet` and each sequence of
    /// such states of its arity that has no transition yet, the first state
    /// that `lang` leads into from the sequence taken through `into`
    /// becomes, through `from`, the target of a new transition.
    pub fn complete_with<R: Value, A: Fn(&Q) -> R, B: Fn(&R) -> Q>(
        &mut self,
        alphabet: &[Rank<Symbol>],
        lang: &Automaton<R, NoLabel>,
        into: &A,
        from: &B,
    )
        requires
            old(self).wf(),
            forall|q: &Q| #[trigger] into.requires((q,)),
            forall|r: &R| #[trigger] from.requires((r,)),
        ensures
            final(self).wf(),
            final(self).finals_view() == old(self).finals_view(),
            extends(old(self).transitions_view(), final(self).transitions_view()),
            forall|j: int|
                old(self).transitions_view().len() <= j < final(self).transitions_view().len()
                    ==> over_alphabet(alphabet@, #[trigger] final(self).transitions_view()[j])
                    && borrowed::<Q, R, A, B>(
                    lang.transitions_view(),
                    *into,
                    *from,
                    final(self).transitions_view()[j],
                ),
            forall|arity: spec_fn(Symbol) -> nat|
                ranked_by(old(self).transitions_view(), arity) && agrees_with(alphabet@, arity)
                    ==> #[trigger] ranked_by(final(self).transitions_view(), arity),
            exists|pool: Seq<Q::V>|
                #[trigger] pool_of::<Q, R, B>(old(self).state_set(), lang.state_set(), *from, pool)
                    && completed::<Q, R, A>(
                    final(self).transitions_view(),
                    lang.transitions_view(),
                    *into,
                    alphabet@,
                    pool,
                    alphabet@.len() as int,
                ),
    {
        let states = self.pool(lang, from);
        let ghost pool = views(states@);
        let ghost first = self.transitions_view();
        let ghost theirs = lang.transitions_view();
        assert(extends(first, first)) by {
            assert(first.take(first.len() as int) =~= first);
        }
        let mut a: usize = 0;
        while a < alphabet.len()
            invariant
                0 <= a <= alphabet@.len(),
                first == old(self).transitions_view(),
                theirs == lang.transitions_view(),
                pool == views(states@),
                forall|q: &Q| #[trigger] into.requires((q,)),
                forall|r: &R| #[trigger] from.requires((r,)),
                self.wf(),
                self.finals_view() == old(self).finals_view(),
                extends(first, self.transitions_view()),
                forall|j: int|
                    first.len() <= j < self.transitions_view().len() ==> over_alphabet(
                        alphabet@,
                        #[trigger] self.transitions_view()[j],
                    ) && borrowed::<Q, R, A, B>(theirs, *into, *from, self.transitions_view()[j]),
                completed::<Q, R, A>(self.transitions_view(), theirs, *into, alphabet@, pool, a as int),
            decreases alphabet@.len() - a,
        {
            let ghost before = self.transitions_view();
            self.complete_symbol(alphabet[a].0, alphabet[a].1, &states, lang, into, from);
            proof {
                let ts = self.transitions_view();
                lemma_extends_trans(first, before, ts);
                lemma_completed_extends::<Q, R, A>(before, ts, theirs, *into, alphabet@, pool, a as int);
                assert forall|j: int| first.len() <= j < ts.len() implies over_alphabet(
                    alphabet@,
                    #[trigger] ts[j],
                ) && borrowed::<Q, R, A, B>(theirs, *into, *from, ts[j]) by {
                    if j < before.len() {
                        assert(ts.take(before.len() as int)[j] == before[j]);
                    } else {
                        assert(alphabet@[a as int].0 == ts[j].0.0);
                    }
                }
            }
            a += 1;
        }
        proof {
            let ts = self.transitions_view();
            assert forall|arity: spec_fn(Symbol) -> nat|
                ranked_by(first, arity) && agrees_with(alphabet@, arity) implies #[trigger] ranked_by(
                ts,
                arity,
            ) by {
                assert forall|j: int| 0 <= j < ts.len() implies (#[trigger] ts[j]).0.1.len() == arity(
                    ts[j].0.0,
                ) by {
                    if j < first.len() {
                        assert(ts.take(first.len() as int)[j] == first[j]);
                    } else {
                        assert(over_alphabet(alphabet@, ts[j]));
                    }
                }
            }
        }
    }
}

} // verus!
