//! The product construction: the automaton that accepts what each of
//! several automata accepts.
use vstd::prelude::*;
use crate::Symbol;
use crate::value::{Value, views, same_vec, copy_vec, insert_unique, lemma_views_push};
use crate::bottom_up::{Automaton, Configuration, TransitionView, lemma_filter_map_has, select_into};
use crate::bottom_up::search::{CommonConfigurations, common, run_into, fits, accepts, accepts_into};
use crate::bottom_up::lemma_lookups_agree;
use crate::term::{term_symbol, term_subterms};
use terms::Term;
use crate::utils::{Combinations, within, rank, count, lemma_rank_bound, lemma_rank_injective, lemma_located};

verus! {

/// A product state: one state of each automaton, in order.
#[derive(Clone, Debug, PartialEq, Eq, Hash)]
pub struct Product<Q> {
    pub states: Vec<Q>,
}

impl<Q: Value> View for Product<Q> {
    type V = Seq<Q::V>;

    open spec fn view(&self) -> Seq<Q::V> {
        views(self.states@)
    }
}

impl<Q: Value> Value for Product<Q> {
    fn same(&self, other: &Self) -> (r: bool) {
        same_vec(&self.states, &other.states)
    }

    fn copy(&self) -> (r: Self) {
        Product { states: copy_vec(&self.states) }
    }
}

/// Whether configurations with the same symbol have the same number of
/// children, within each automaton and across them.
pub open spec fn jointly_ranked<Q: Value, L: Value>(automata: Seq<&Automaton<Q, L>>) -> bool {
    forall|i: int, j: int, a: int, b: int|
        0 <= i < automata.len() && 0 <= j < automata.len() && 0 <= a
            < automata[i].transitions_view().len() && 0 <= b < automata[j].transitions_view().len()
            && (#[trigger] automata[i].transitions_view()[a]).0.0 == (
        #[trigger] automata[j].transitions_view()[b]).0.0
            ==> automata[i].transitions_view()[a].0.1.len()
            == automata[j].transitions_view()[b].0.1.len()
}

/// Whether labeled configurations with the same symbol have the same
/// number of children, across the slots.
pub open spec fn uniform<Q: Value, L: Value>(sources: Seq<Vec<(Configuration<Q>, L)>>) -> bool {
    forall|i: int, j: int, a: int, b: int|
        0 <= i < sources.len() && 0 <= j < sources.len() && 0 <= a < sources[i]@.len() && 0 <= b
            < sources[j]@.len() && (#[trigger] sources[i]@[a]).0.0 == (#[trigger] sources[j]@[b]).0.0
            ==> sources[i]@[a].0.1@.len() == sources[j]@[b].0.1@.len()
}

/// The product of a tuple of labeled configurations with a common symbol:
/// the symbol, for each child index the product of the children at that
/// index, and the label of the first.
pub open spec fn product_of<S, M>(tuple: Seq<((Symbol, Seq<S>), M)>) -> ((Symbol, Seq<Seq<S>>), M) {
    (
        (
            tuple[0].0.0,
            Seq::new(tuple[0].0.1.len(), |i: int| Seq::new(tuple.len(), |j: int| tuple[j].0.1[i])),
        ),
        tuple[0].1,
    )
}

/// The product of a tuple of labeled configurations.
pub fn product_configuration<Q: Value, L: Value>(confs: &Vec<(Configuration<Q>, L)>) -> (r: (
    Configuration<Product<Q>>,
    L,
))
    requires
        confs@.len() > 0,
        forall|j: int| 0 <= j < confs@.len() ==> (#[trigger] confs@[j]).0.1@.len() == confs@[0].0.1@.len(),
    ensures
        r@ == product_of(views(confs@)),
{
    let arity: usize = confs[0].0.1.len();
    let mut states: Vec<Product<Q>> = Vec::new();
    let mut i: usize = 0;
    while i < arity
        invariant
            0 <= i <= arity,
            arity == confs@[0].0.1@.len(),
            confs@.len() > 0,
            forall|j: int|
                0 <= j < confs@.len() ==> (#[trigger] confs@[j]).0.1@.len() == confs@[0].0.1@.len(),
            states@.len() == i,
            forall|m: int| 0 <= m < i ==> (#[trigger] states@[m])@ == product_of(views(confs@)).0.1[m],
        decreases arity - i,
    {
        let mut product: Vec<Q> = Vec::new();
        let mut j: usize = 0;
        while j < confs.len()
            invariant
                0 <= j <= confs@.len(),
                0 <= i < arity,
                arity == confs@[0].0.1@.len(),
                forall|j: int|
                    0 <= j < confs@.len() ==> (#[trigger] confs@[j]).0.1@.len()
                        == confs@[0].0.1@.len(),
                product@.len() == j,
                forall|m: int| 0 <= m < j ==> (#[trigger] product@[m])@ == confs@[m].0.1@[i as int]@,
            decreases confs@.len() - j,
        {
            assert(confs@[j as int].0.1@.len() == arity);
            product.push(confs[j].0.1[i].copy());
            j += 1;
        }
        let state = Product { states: product };
        assert(state@ =~= product_of(views(confs@)).0.1[i as int]);
        states.push(state);
        i += 1;
    }
    let r = (Configuration(confs[0].0.0, states), confs[0].1.copy());
    assert(r@.0.1 =~= product_of(views(confs@)).0.1);
    r
}

/// The configurations of a product state: the products of the tuples of
/// configurations, one per automaton, that lead into its states and have a
/// common symbol.
pub struct ProductConfigurations<Q, L> {
    pub it: CommonConfigurations<Q, L>,
}

impl<Q: Value, L: Value> ProductConfigurations<Q, L> {
    pub open spec fn wf(&self) -> bool {
        &&& self.it.wf()
        &&& uniform(self.it.product.sources@)
    }

    /// The product of the next tuple with a common symbol, if there is one.
    pub fn next(&mut self) -> (r: Option<(Configuration<Product<Q>>, L)>)
        requires
            old(self).wf(),
        ensures
            final(self).wf(),
            final(self).it.product.sources@ == old(self).it.product.sources@,
            final(self).it.product.limits() == old(self).it.product.limits(),
            final(self).it.slots == old(self).it.slots,
            r.is_some() ==> !old(self).it.product.exhausted() && old(self).it.product.position()
                < final(self).it.product.position() <= count(old(self).it.product.limits()),
            match r {
                Some(item) => exists|tuple: Seq<((Symbol, Seq<Q::V>), L::V)>| #[trigger]
                    old(self).it.yields(final(self).it, tuple) && item@ == product_of(tuple),
                None => old(self).it.ends(final(self).it),
            },
    {
        match self.it.next() {
            Some(confs) => {
                proof {
                    let tuple = views(confs@);
                    let c = choose|c: Seq<usize>| #[trigger]
                        old(self).it.first_at(c, tuple) && self.it.product.position() == rank(
                            old(self).it.product.limits(),
                            c,
                        ) + 1;
                    let sources = old(self).it.product.sources@;
                    assert(old(self).it.selects(c));
                    assert(old(self).it.slots > 0);
                    assert(tuple == old(self).it.product.tuple_at(c));
                    assert(tuple.len() == sources.len());
                    assert(confs@.len() == tuple.len());
                    assert forall|j: int| 0 <= j < confs@.len() implies (#[trigger] confs@[j]).0.1@.len()
                        == confs@[0].0.1@.len() by {
                        assert(tuple[j] == sources[j]@[c[j] as int]@);
                        assert(tuple[0] == sources[0]@[c[0] as int]@);
                        assert(tuple[j].0.0 == tuple[0].0.0);
                        assert(sources[j]@[c[j] as int].0.0 == sources[0]@[c[0] as int].0.0);
                        assert(within(old(self).it.product.limits(), c));
                        assert(sources[j]@.len() == old(self).it.product.limits()[j] + 1);
                        assert(sources[0]@.len() == old(self).it.product.limits()[0] + 1);
                        assert(sources[j]@[c[j] as int].0.1@.len() == sources[0]@[c[0] as int].0.1@.len());
                        assert(confs@[j]@ == tuple[j]);
                        assert(confs@[0]@ == tuple[0]);
                        assert(confs@[j].0.1@.len() == tuple[j].0.1.len());
                        assert(sources[j]@[c[j] as int].0.1@.len() == tuple[j].0.1.len());
                        assert(confs@[0].0.1@.len() == tuple[0].0.1.len());
                        assert(sources[0]@[c[0] as int].0.1@.len() == tuple[0].0.1.len());
                    }
                }
                Some(product_configuration(&confs))
            },
            None => None,
        }
    }
}

impl<Q: Value> Product<Q> {
    /// The product of `states`.
    pub fn new(states: &[Q]) -> (r: Product<Q>)
        ensures
            r@ == views(states@),
    {
        let mut out: Vec<Q> = Vec::new();
        let mut i: usize = 0;
        while i < states.len()
            invariant
                0 <= i <= states@.len(),
                out@.len() == i,
                forall|k: int| 0 <= k < i ==> (#[trigger] out@[k])@ == states@[k]@,
            decreases states@.len() - i,
        {
            out.push(states[i].copy());
            i += 1;
        }
        let r = Product { states: out };
        assert(r@ =~= views(states@));
        r
    }

    /// The product that holds `states`.
    pub fn from_vec(states: Vec<Q>) -> (r: Product<Q>)
        ensures
            r@ == views(states@),
    {
        Product { states }
    }

    /// The configurations of this product state in `automata`.
    pub fn configurations<L: Value>(&self, automata: &[&Automaton<Q, L>]) -> (r: ProductConfigurations<
        Q,
        L,
    >)
        requires
            automata@.len() == self.states@.len(),
            jointly_ranked(automata@),
        ensures
            r.wf(),
            r.it.slots == self.states@.len(),
            forall|i: int|
                0 <= i < self.states@.len() ==> #[trigger] r.it.candidates(i)
                    == automata@[i].configurations_of(self@[i]),
            !r.it.product.exhausted() ==> r.it.product.position() == 0,
            r.it.product.exhausted() ==> exists|i: int|
                0 <= i < self.states@.len() && (#[trigger] r.it.candidates(i)).len() == 0,
    {
        let it = CommonConfigurations::new(automata, self.states.as_slice());
        proof {
            let sources = it.product.sources@;
            if it.product.exhausted() {
                let i = choose|i: int|
                    0 <= i < self.states@.len() && (#[trigger] automata@[i]).configurations_of(
                        self.states@[i]@,
                    ).len() == 0;
                assert(it.candidates(i).len() == 0);
            }
            assert forall|i: int, j: int, a: int, b: int|
                0 <= i < sources.len() && 0 <= j < sources.len() && 0 <= a < sources[i]@.len() && 0
                    <= b < sources[j]@.len() && (#[trigger] sources[i]@[a]).0.0 == (
                #[trigger] sources[j]@[b]).0.0 implies sources[i]@[a].0.1@.len()
                == sources[j]@[b].0.1@.len() by {
                let x = it.candidates(i)[a];
                let y = it.candidates(j)[b];
                assert(it.candidates(i) == automata@[i].configurations_of(self@[i]));
                assert(it.candidates(j) == automata@[j].configurations_of(self@[j]));
                let ti = automata@[i].transitions_view();
                let tj = automata@[j].transitions_view();
                assert(ti.filter_map(select_into(self@[i])).contains(x));
                assert(tj.filter_map(select_into(self@[j])).contains(y));
                lemma_filter_map_has(ti, select_into(self@[i]), x);
                lemma_filter_map_has(tj, select_into(self@[j]), y);
                let m = choose|m: int| 0 <= m < ti.len() && select_into(self@[i])(#[trigger] ti[m]) == Some(x);
                let n = choose|n: int| 0 <= n < tj.len() && select_into(self@[j])(#[trigger] tj[n]) == Some(y);
                assert(ti[m].0 == x.0);
                assert(tj[n].0 == y.0);
                assert(x.0.1.len() == sources[i]@[a].0.1@.len());
                assert(y.0.1.len() == sources[j]@[b].0.1@.len());
            }
        }
        ProductConfigurations { it }
    }
}


/// Whether `t` is a transition of the product: it leads into a product
/// state, and it is the product of a tuple of labeled configurations, one
/// of each automaton, that lead into the states of that product state and
/// have a common symbol.
pub open spec fn is_product_transition<Q: Value, L: Value>(
    automata: Seq<&Automaton<Q, L>>,
    t: TransitionView<Seq<Q::V>, L::V>,
) -> bool {
    exists|tuple: Seq<((Symbol, Seq<Q::V>), L::V)>| #[trigger]
        joins(automata, tuple, t.2) && (t.0, t.1) == product_of(tuple)
}

/// Whether `tuple` holds, for each automaton, a labeled configuration that
/// leads into the state of `p` for that automaton, all with a common
/// symbol.
pub open spec fn joins<Q: Value, L: Value>(
    automata: Seq<&Automaton<Q, L>>,
    tuple: Seq<((Symbol, Seq<Q::V>), L::V)>,
    p: Seq<Q::V>,
) -> bool {
    &&& automata.len() > 0
    &&& tuple.len() == automata.len()
    &&& p.len() == automata.len()
    &&& common(tuple)
    &&& forall|i: int|
        0 <= i < tuple.len() ==> automata[i].configurations_of(p[i]).contains(#[trigger] tuple[i])
}

/// Whether `p` holds an accepting state of each automaton.
pub open spec fn is_final_tuple<Q: Value, L: Value>(automata: Seq<&Automaton<Q, L>>, p: Seq<Q::V>) -> bool {
    &&& p.len() == automata.len()
    &&& forall|i: int| 0 <= i < p.len() ==> automata[i].finals_view().contains(#[trigger] p[i])
}

/// Whether every transition of `ts` is a transition of the product.
pub open spec fn all_product_transitions<Q: Value, L: Value>(
    automata: Seq<&Automaton<Q, L>>,
    ts: Seq<TransitionView<Seq<Q::V>, L::V>>,
) -> bool {
    forall|j: int| 0 <= j < ts.len() ==> is_product_transition(automata, #[trigger] ts[j])
}

/// Whether every state of `ps` is a tuple of accepting states.
pub open spec fn all_final_tuples<Q: Value, L: Value>(
    automata: Seq<&Automaton<Q, L>>,
    ps: Seq<Seq<Q::V>>,
) -> bool {
    forall|j: int| 0 <= j < ps.len() ==> is_final_tuple(automata, #[trigger] ps[j])
}

/// The accepting states of each automaton, in order.
pub fn final_lists<Q: Value, L: Value>(automata: &[&Automaton<Q, L>]) -> (r: Vec<Vec<Q>>)
    ensures
        r@.len() == automata@.len(),
        forall|i: int| 0 <= i < r@.len() ==> views(#[trigger] r@[i]@) == automata@[i].finals_view(),
{
    let mut lists: Vec<Vec<Q>> = Vec::new();
    let mut i: usize = 0;
    while i < automata.len()
        invariant
            0 <= i <= automata@.len(),
            lists@.len() == i,
            forall|k: int| 0 <= k < i ==> views(#[trigger] lists@[k]@) == automata@[k].finals_view(),
        decreases automata@.len() - i,
    {
        lists.push(automata[i].final_states());
        i += 1;
    }
    lists
}

/// Whether the product state `p` is reached within `n` steps down from a
/// tuple of accepting states: it is such a tuple, or a child of a product
/// transition into a state that is reached within `n - 1` steps.
pub open spec fn reach<Q: Value, L: Value>(automata: Seq<&Automaton<Q, L>>, p: Seq<Q::V>, n: nat) -> bool
    decreases n,
{
    if n == 0 {
        is_final_tuple(automata, p)
    } else {
        reach(automata, p, (n - 1) as nat) || exists|t: TransitionView<Seq<Q::V>, L::V>|
            #[trigger] is_product_transition(automata, t) && reach(
                automata,
                t.2,
                (n - 1) as nat,
            ) && t.0.1.contains(p)
    }
}

/// Whether the product state `p` is reached from a tuple of accepting
/// states.
pub open spec fn reachable<Q: Value, L: Value>(automata: Seq<&Automaton<Q, L>>, p: Seq<Q::V>) -> bool {
    exists|n: nat| reach(automata, p, n)
}

/// The transition into `p` that is the product of `tuple`.
pub open spec fn product_transition<S, M>(tuple: Seq<((Symbol, Seq<S>), M)>, p: Seq<S>) -> TransitionView<
    Seq<S>,
    M,
> {
    (product_of(tuple).0, product_of(tuple).1, p)
}

/// Whether `ts` holds every product transition into `p`.
pub open spec fn closed_under<Q: Value, L: Value>(
    automata: Seq<&Automaton<Q, L>>,
    ts: Seq<TransitionView<Seq<Q::V>, L::V>>,
    p: Seq<Q::V>,
) -> bool {
    forall|tuple: Seq<((Symbol, Seq<Q::V>), L::V)>| #[trigger]
        joins(automata, tuple, p) ==> ts.contains(product_transition(tuple, p))
}

/// Whether the transitions of `ts` are exactly the product transitions
/// into the product states that are reached from a tuple of accepting
/// states.
pub open spec fn is_product<Q: Value, L: Value>(
    automata: Seq<&Automaton<Q, L>>,
    ts: Seq<TransitionView<Seq<Q::V>, L::V>>,
) -> bool {
    forall|t: TransitionView<Seq<Q::V>, L::V>|
        ts.contains(t) <==> #[trigger] is_product_transition(automata, t) && reachable(automata, t.2)
}

/// The state of an exploration: `seen` holds the product states that were
/// met, each once and each reached; each is still `pending` or was
/// `processed`; `ts` holds every product transition into a processed
/// state, and only product transitions into reached states; the children
/// of `ts` and the tuples of accepting states were met.
pub open spec fn explored<Q: Value, L: Value>(
    automata: Seq<&Automaton<Q, L>>,
    ts: Seq<TransitionView<Seq<Q::V>, L::V>>,
    seen: Seq<Seq<Q::V>>,
    pending: Seq<Seq<Q::V>>,
    processed: Seq<Seq<Q::V>>,
) -> bool {
    &&& seen.no_duplicates()
    &&& seen.len() == processed.len() + pending.len()
    &&& forall|j: int| 0 <= j < seen.len() ==> reachable(automata, #[trigger] seen[j])
    &&& forall|j: int|
        0 <= j < seen.len() ==> processed.contains(#[trigger] seen[j]) || pending.contains(seen[j])
    &&& forall|j: int| 0 <= j < pending.len() ==> seen.contains(#[trigger] pending[j])
    &&& forall|j: int| 0 <= j < pending.len() ==> (#[trigger] pending[j]).len() == automata.len()
    &&& forall|j: int|
        0 <= j < processed.len() ==> closed_under(automata, ts, #[trigger] processed[j])
    &&& forall|j: int, m: int|
        0 <= j < ts.len() && 0 <= m < ts[j].0.1.len() ==> seen.contains(#[trigger] ts[j].0.1[m])
    &&& forall|p: Seq<Q::V>| #[trigger] is_final_tuple(automata, p) ==> seen.contains(p)
    &&& forall|j: int|
        0 <= j < ts.len() ==> is_product_transition(automata, #[trigger] ts[j]) && reachable(
            automata,
            ts[j].2,
        )
}

/// The pending states may be taken in another order.
pub proof fn lemma_explored_rotate<Q: Value, L: Value>(
    automata: Seq<&Automaton<Q, L>>,
    ts: Seq<TransitionView<Seq<Q::V>, L::V>>,
    seen: Seq<Seq<Q::V>>,
    pending: Seq<Seq<Q::V>>,
    p: Seq<Q::V>,
    processed: Seq<Seq<Q::V>>,
)
    requires
        explored(automata, ts, seen, pending.push(p), processed),
    ensures
        explored(automata, ts, seen, seq![p] + pending, processed),
        reachable(automata, p),
        p.len() == automata.len(),
{
    let a = pending.push(p);
    let b = seq![p] + pending;
    assert(a[pending.len() as int] == p);
    assert(seen.contains(p));
    assert forall|x: Seq<Q::V>| a.contains(x) implies b.contains(x) by {
        let k = choose|k: int| 0 <= k < a.len() && a[k] == x;
        if k < pending.len() {
            assert(b[k + 1] == x);
        } else {
            assert(b[0] == x);
        }
    }
    assert forall|j: int| 0 <= j < b.len() implies seen.contains(#[trigger] b[j]) && b[j].len()
        == automata.len() by {
        if j == 0 {
            assert(b[j] == a[pending.len() as int]);
        } else {
            assert(b[j] == a[j - 1]);
        }
    }
}

/// A state whose product transitions are all there has been processed.
pub proof fn lemma_explored_done<Q: Value, L: Value>(
    automata: Seq<&Automaton<Q, L>>,
    ts: Seq<TransitionView<Seq<Q::V>, L::V>>,
    seen: Seq<Seq<Q::V>>,
    pending: Seq<Seq<Q::V>>,
    p: Seq<Q::V>,
    processed: Seq<Seq<Q::V>>,
)
    requires
        explored(automata, ts, seen, seq![p] + pending, processed),
        closed_under(automata, ts, p),
    ensures
        explored(automata, ts, seen, pending, processed.push(p)),
{
    let a = seq![p] + pending;
    let done = processed.push(p);
    assert forall|j: int| 0 <= j < seen.len() implies done.contains(#[trigger] seen[j])
        || pending.contains(seen[j]) by {
        if processed.contains(seen[j]) {
            let k = choose|k: int| 0 <= k < processed.len() && processed[k] == seen[j];
            assert(done[k] == seen[j]);
        } else {
            let k = choose|k: int| 0 <= k < a.len() && a[k] == seen[j];
            if k == 0 {
                assert(done[processed.len() as int] == seen[j]);
            } else {
                assert(pending[k - 1] == seen[j]);
            }
        }
    }
    assert forall|j: int| 0 <= j < pending.len() implies seen.contains(#[trigger] pending[j])
        && pending[j].len() == automata.len() by {
        assert(a[j + 1] == pending[j]);
    }
    assert forall|j: int| 0 <= j < done.len() implies closed_under(automata, ts, #[trigger] done[j]) by {
        if j < processed.len() {
            assert(done[j] == processed[j]);
        }
    }
}

/// A reached state that was not met before is met and pending.
pub proof fn lemma_explored_queue<Q: Value, L: Value>(
    automata: Seq<&Automaton<Q, L>>,
    ts: Seq<TransitionView<Seq<Q::V>, L::V>>,
    seen: Seq<Seq<Q::V>>,
    pending: Seq<Seq<Q::V>>,
    c: Seq<Q::V>,
    processed: Seq<Seq<Q::V>>,
)
    requires
        explored(automata, ts, seen, pending, processed),
        reachable(automata, c),
        c.len() == automata.len(),
        !seen.contains(c),
    ensures
        explored(automata, ts, seen.push(c), pending.push(c), processed),
{
    let met = seen.push(c);
    let queued = pending.push(c);
    crate::value::lemma_push_unique(seen, c);
    assert forall|x: Seq<Q::V>| seen.contains(x) implies met.contains(x) by {
        let k = choose|k: int| 0 <= k < seen.len() && seen[k] == x;
        assert(met[k] == x);
    }
    assert forall|x: Seq<Q::V>| pending.contains(x) implies queued.contains(x) by {
        let k = choose|k: int| 0 <= k < pending.len() && pending[k] == x;
        assert(queued[k] == x);
    }
    assert(met[seen.len() as int] == c);
    assert(queued[pending.len() as int] == c);
    assert forall|j: int| 0 <= j < met.len() implies reachable(automata, #[trigger] met[j]) && (
    processed.contains(met[j]) || queued.contains(met[j])) by {
        if j < seen.len() {
            assert(met[j] == seen[j]);
        }
    }
    assert forall|j: int| 0 <= j < queued.len() implies met.contains(#[trigger] queued[j]) && queued[j].len()
        == automata.len() by {
        if j < pending.len() {
            assert(queued[j] == pending[j]);
        }
    }
}

/// One more product transition into a reached state, whose children were
/// met, keeps the exploration in order; so does one that is there already.
pub proof fn lemma_explored_add<Q: Value, L: Value>(
    automata: Seq<&Automaton<Q, L>>,
    ts: Seq<TransitionView<Seq<Q::V>, L::V>>,
    after: Seq<TransitionView<Seq<Q::V>, L::V>>,
    seen: Seq<Seq<Q::V>>,
    pending: Seq<Seq<Q::V>>,
    processed: Seq<Seq<Q::V>>,
    t: TransitionView<Seq<Q::V>, L::V>,
)
    requires
        explored(automata, ts, seen, pending, processed),
        is_product_transition(automata, t),
        reachable(automata, t.2),
        forall|m: int| 0 <= m < t.0.1.len() ==> seen.contains(#[trigger] t.0.1[m]),
        ts.contains(t) ==> after == ts,
        !ts.contains(t) ==> after == ts.push(t),
    ensures
        explored(automata, after, seen, pending, processed),
        after.contains(t),
        forall|x: TransitionView<Seq<Q::V>, L::V>| ts.contains(x) ==> after.contains(x),
{
    if !ts.contains(t) {
        assert(after[ts.len() as int] == t);
        assert forall|x: TransitionView<Seq<Q::V>, L::V>| ts.contains(x) implies after.contains(x) by {
            let k = choose|k: int| 0 <= k < ts.len() && ts[k] == x;
            assert(after[k] == x);
        }
        assert forall|j: int| 0 <= j < processed.len() implies closed_under(
            automata,
            after,
            #[trigger] processed[j],
        ) by {
            assert(closed_under(automata, ts, processed[j]));
        }
        assert forall|j: int, m: int| 0 <= j < after.len() && 0 <= m < after[j].0.1.len() implies seen.contains(
            #[trigger] after[j].0.1[m],
        ) by {
            if j < ts.len() {
                assert(after[j] == ts[j]);
            }
        }
        assert forall|j: int| 0 <= j < after.len() implies is_product_transition(
            automata,
            #[trigger] after[j],
        ) && reachable(automata, after[j].2) by {
            if j < ts.len() {
                assert(after[j] == ts[j]);
            }
        }
    }
}

/// A child of a product transition into a reached state is reached.
pub proof fn lemma_reach_child<Q: Value, L: Value>(
    automata: Seq<&Automaton<Q, L>>,
    t: TransitionView<Seq<Q::V>, L::V>,
    m: int,
)
    requires
        is_product_transition(automata, t),
        reachable(automata, t.2),
        0 <= m < t.0.1.len(),
    ensures
        reachable(automata, t.0.1[m]),
        t.0.1[m].len() == automata.len(),
{
    let n = choose|n: nat| reach(automata, t.2, n);
    assert(t.0.1.contains(t.0.1[m]));
    assert(reach(automata, t.0.1[m], n + 1));
    let tuple = choose|tuple: Seq<((Symbol, Seq<Q::V>), L::V)>| #[trigger]
        joins(automata, tuple, t.2) && (t.0, t.1) == product_of(tuple);
    assert(t.0.1[m] == product_of(tuple).0.1[m]);
}

/// Once nothing is pending, every reached state was met and processed.
pub proof fn lemma_reached_is_seen<Q: Value, L: Value>(
    automata: Seq<&Automaton<Q, L>>,
    ts: Seq<TransitionView<Seq<Q::V>, L::V>>,
    seen: Seq<Seq<Q::V>>,
    processed: Seq<Seq<Q::V>>,
    p: Seq<Q::V>,
    n: nat,
)
    requires
        explored(automata, ts, seen, Seq::empty(), processed),
        reach(automata, p, n),
    ensures
        seen.contains(p),
        processed.contains(p),
        closed_under(automata, ts, p),
    decreases n,
{
    if n == 0 {
        assert(is_final_tuple(automata, p));
    } else if reach(automata, p, (n - 1) as nat) {
        lemma_reached_is_seen(automata, ts, seen, processed, p, (n - 1) as nat);
    } else {
        let t = choose|t: TransitionView<Seq<Q::V>, L::V>|
            #[trigger] is_product_transition(automata, t) && reach(
                automata,
                t.2,
                (n - 1) as nat,
            ) && t.0.1.contains(p);
        lemma_reached_is_seen(automata, ts, seen, processed, t.2, (n - 1) as nat);
        let tuple = choose|tuple: Seq<((Symbol, Seq<Q::V>), L::V)>| #[trigger]
            joins(automata, tuple, t.2) && (t.0, t.1) == product_of(tuple);
        assert(ts.contains(product_transition(tuple, t.2)));
        assert(product_transition(tuple, t.2) == t);
        let j = choose|j: int| 0 <= j < ts.len() && ts[j] == t;
        let m = choose|m: int| 0 <= m < t.0.1.len() && t.0.1[m] == p;
        assert(seen.contains(ts[j].0.1[m]));
    }
    let k = choose|k: int| 0 <= k < seen.len() && seen[k] == p;
    assert(processed.contains(seen[k]) || Seq::<Seq<Q::V>>::empty().contains(seen[k]));
    let i = choose|i: int| 0 <= i < processed.len() && processed[i] == p;
    assert(closed_under(automata, ts, processed[i]));
}

/// Once nothing is pending, the transitions are exactly those of the
/// product.
pub proof fn lemma_explored_is_product<Q: Value, L: Value>(
    automata: Seq<&Automaton<Q, L>>,
    ts: Seq<TransitionView<Seq<Q::V>, L::V>>,
    seen: Seq<Seq<Q::V>>,
    processed: Seq<Seq<Q::V>>,
)
    requires
        explored(automata, ts, seen, Seq::empty(), processed),
    ensures
        is_product(automata, ts),
{
    assert forall|t: TransitionView<Seq<Q::V>, L::V>|
        ts.contains(t) <==> #[trigger] is_product_transition(automata, t) && reachable(
            automata,
            t.2,
        ) by {
        if ts.contains(t) {
            let j = choose|j: int| 0 <= j < ts.len() && ts[j] == t;
            assert(is_product_transition(automata, ts[j]));
        }
        if is_product_transition(automata, t) && reachable(automata, t.2) {
            let n = choose|n: nat| reach(automata, t.2, n);
            lemma_reached_is_seen(automata, ts, seen, processed, t.2, n);
            let tuple = choose|tuple: Seq<((Symbol, Seq<Q::V>), L::V)>| #[trigger]
                joins(automata, tuple, t.2) && (t.0, t.1) == product_of(tuple);
            assert(ts.contains(product_transition(tuple, t.2)));
            assert(product_transition(tuple, t.2) == t);
        }
    }
}

/// Whether more than `steps` product states are reached from the tuples
/// of accepting states.
pub open spec fn more_reached_than<Q: Value, L: Value>(automata: Seq<&Automaton<Q, L>>, steps: nat) -> bool {
    exists|reached: Seq<Seq<Q::V>>|
        #[trigger] reached.no_duplicates() && reached.len() > steps && forall|j: int|
            0 <= j < reached.len() ==> reachable(automata, #[trigger] reached[j])
}

/// The start of an exploration: the automaton whose accepting states are
/// the tuples of accepting states, and those tuples as the states that
/// were met and are pending.
fn seed<Q: Value, L: Value>(automata: &[&Automaton<Q, L>]) -> (r: (
    Automaton<Product<Q>, L>,
    Vec<Product<Q>>,
    Vec<Product<Q>>,
))
    ensures
        r.0.wf(),
        all_final_tuples(automata@, r.0.finals_view()),
        forall|p: Seq<Q::V>| #[trigger] is_final_tuple(automata@, p) ==> r.0.finals_view().contains(p),
        explored(
            automata@,
            r.0.transitions_view(),
            views(r.1@),
            views(r.2@),
            Seq::<Seq<Q::V>>::empty(),
        ),
{
    let mut aut: Automaton<Product<Q>, L> = Automaton::new();
    let mut pending: Vec<Product<Q>> = Vec::new();
    let mut seen: Vec<Product<Q>> = Vec::new();
    let lists = final_lists(automata);
    let ghost finals = lists@;
    let mut combos = Combinations::new(lists);
    let ghost start = combos;
    assert(views(seen@) =~= aut.finals_view());
    assert(views(pending@) =~= aut.finals_view());
    loop
        invariant
            combos.wf(),
            combos.sources@ == finals,
            combos.limits() == start.limits(),
            finals.len() == automata@.len(),
            forall|i: int|
                0 <= i < finals.len() ==> views(#[trigger] finals[i]@) == automata@[i].finals_view(),
            aut.wf(),
            aut.transitions_view() == Seq::<TransitionView<Seq<Q::V>, L::V>>::empty(),
            all_final_tuples(automata@, aut.finals_view()),
            views(seen@) == aut.finals_view(),
            views(pending@) == aut.finals_view(),
            forall|c: Seq<usize>|
                !start.exhausted() && within(combos.limits(), c) && rank(combos.limits(), c)
                    < combos.position() ==> aut.finals_view().contains(#[trigger] combos.tuple_at(c)),
        ensures
            combos.exhausted(),
        decreases
                (if combos.exhausted() {
                    0
                } else {
                    count(combos.limits()) - combos.position() + 1
                }),
    {
        let ghost before = combos;
        let ghost fin_before = aut.finals_view();
        proof {
            if !before.exhausted() {
                lemma_rank_bound(before.limits(), before.cursor());
            }
        }
        match combos.next() {
            None => {
                proof {
                    assert forall|c: Seq<usize>|
                        !start.exhausted() && within(combos.limits(), c) && rank(combos.limits(), c)
                            < combos.position() implies aut.finals_view().contains(
                        #[trigger] combos.tuple_at(c),
                    ) by {
                        assert(combos.tuple_at(c) =~= before.tuple_at(c));
                    }
                }
                break ;
            },
            Some(tuple) => {
                let p = Product::from_vec(tuple);
                proof {
                    if !combos.exhausted() {
                        lemma_rank_bound(combos.limits(), combos.cursor());
                    }
                    assert(p@ == before.current());
                    assert(is_final_tuple(automata@, p@)) by {
                        assert forall|i: int| 0 <= i < p@.len() implies automata@[i].finals_view().contains(
                            #[trigger] p@[i],
                        ) by {
                            let k = before.cursor()[i] as int;
                            assert(finals[i]@.len() == before.limits()[i] + 1);
                            assert(views(finals[i]@)[k] == p@[i]);
                        }
                    }
                }
                let ghost seen_before = seen@;
                let ghost pending_before = pending@;
                let one = p.copy();
                let fresh = insert_unique(&mut seen, one);
                if fresh {
                    let two = p.copy();
                    pending.push(two);
                    proof {
                        lemma_views_push(seen_before, one);
                        lemma_views_push(pending_before, two);
                    }
                }
                aut.set_final(p);
                proof {
                    let fin = aut.finals_view();
                    assert(fin.to_set().contains(p@));
                    assert(fin.contains(p@));
                    assert forall|j: int| 0 <= j < fin.len() implies is_final_tuple(
                        automata@,
                        #[trigger] fin[j],
                    ) by {
                        if j < fin_before.len() {
                            assert(fin[j] == fin_before[j]);
                        }
                    }
                    assert forall|c: Seq<usize>|
                        !start.exhausted() && within(combos.limits(), c) && rank(combos.limits(), c)
                            < combos.position() implies fin.contains(#[trigger] combos.tuple_at(c)) by {
                        assert(combos.tuple_at(c) =~= before.tuple_at(c));
                        if rank(before.limits(), c) < before.position() {
                            assert(fin_before.contains(before.tuple_at(c)));
                            let j = choose|j: int|
                                0 <= j < fin_before.len() && fin_before[j] == before.tuple_at(c);
                            assert(fin[j] == fin_before[j]);
                        } else {
                            lemma_rank_injective(before.limits(), before.cursor(), c);
                        }
                    }
                }
            },
        }
    }
    proof {
        let fin = aut.finals_view();
        assert forall|p: Seq<Q::V>| #[trigger] is_final_tuple(automata@, p) implies fin.contains(p) by {
            let lists = Seq::new(finals.len(), |i: int| views(finals[i]@));
            assert forall|i: int| 0 <= i < lists.len() implies (#[trigger] lists[i]).len() <= usize::MAX by {
                assert(finals[i]@.len() == finals[i].len());
            }
            let c = lemma_located(lists, p, finals.len());
            assert(!start.exhausted()) by {
                if start.exhausted() {
                    let i = choose|i: int| 0 <= i < finals.len() && (#[trigger] finals[i])@.len() == 0;
                    assert(c[i] < lists[i].len());
                }
            }
            assert forall|i: int| 0 <= i < c.len() implies c[i] <= start.limits()[i] by {
                assert(finals[i]@.len() == start.limits()[i] + 1);
                assert(c[i] < lists[i].len());
            }
            assert(within(combos.limits(), c));
            lemma_rank_bound(combos.limits(), c);
            assert(combos.tuple_at(c) =~= p) by {
                assert forall|i: int| 0 <= i < p.len() implies combos.tuple_at(c)[i] == p[i] by {
                    assert(lists[i][c[i] as int] == p[i]);
                }
            }
        }
        assert forall|j: int| 0 <= j < fin.len() implies reachable(automata@, #[trigger] fin[j]) by {
            assert(is_final_tuple(automata@, fin[j]));
            assert(reach(automata@, fin[j], 0));
        }
        assert forall|j: int| 0 <= j < fin.len() implies (#[trigger] fin[j]).len() == automata@.len() by {
            assert(is_final_tuple(automata@, fin[j]));
        }
    }
    (aut, seen, pending)
}

/// Takes the product state `p` in hand: adds every product transition
/// into it, and puts those of their children that were not met before
/// among the pending states.
fn expand<Q: Value, L: Value>(
    automata: &[&Automaton<Q, L>],
    p: Product<Q>,
    aut: &mut Automaton<Product<Q>, L>,
    seen: &mut Vec<Product<Q>>,
    pending: &mut Vec<Product<Q>>,
    Ghost(processed): Ghost<Seq<Seq<Q::V>>>,
)
    requires
        jointly_ranked(automata@),
        old(aut).wf(),
        p@.len() == automata@.len(),
        reachable(automata@, p@),
        explored(
            automata@,
            old(aut).transitions_view(),
            views(old(seen)@),
            seq![p@] + views(old(pending)@),
            processed,
        ),
    ensures
        final(aut).wf(),
        final(aut).finals_view() == old(aut).finals_view(),
        explored(
            automata@,
            final(aut).transitions_view(),
            views(final(seen)@),
            views(final(pending)@),
            processed.push(p@),
        ),
{
    let mut confs = p.configurations(automata);
    let ghost start = confs;
    let ghost limits = start.it.product.limits();
    loop
        invariant
            aut.wf(),
            aut.finals_view() == old(aut).finals_view(),
            confs.wf(),
            confs.it.slots == automata@.len(),
            confs.it.product.sources@ == start.it.product.sources@,
            confs.it.product.limits() == limits,
            limits == start.it.product.limits(),
            !start.it.product.exhausted() ==> start.it.product.position() == 0,
            start.it.product.exhausted() ==> confs.it.product.exhausted(),
            start.it.product.exhausted() ==> exists|i: int|
                0 <= i < p@.len() && (#[trigger] start.it.candidates(i)).len() == 0,
            p@.len() == automata@.len(),
            reachable(automata@, p@),
            forall|i: int|
                0 <= i < p@.len() ==> #[trigger] start.it.candidates(i)
                    == automata@[i].configurations_of(p@[i]),
            explored(
                automata@,
                aut.transitions_view(),
                views(seen@),
                seq![p@] + views(pending@),
                processed,
            ),
            forall|c: Seq<usize>|
                #[trigger] start.it.selects(c) && rank(limits, c) < confs.it.product.position()
                    ==> aut.transitions_view().contains(
                    product_transition(start.it.product.tuple_at(c), p@),
                ),
        ensures
            confs.it.slots == 0 || confs.it.product.exhausted(),
        decreases
                (if confs.it.product.exhausted() {
                    0
                } else {
                    count(confs.it.product.limits()) - confs.it.product.position() + 1
                }),
    {
        let ghost before = confs;
        let ghost ts_before = aut.transitions_view();
        proof {
            if !before.it.product.exhausted() {
                lemma_rank_bound(before.it.product.limits(), before.it.product.cursor());
            }
        }
        let r = confs.next();
        match r {
            None => {
                proof {
                    assert forall|c: Seq<usize>|
                        #[trigger] start.it.selects(c) && rank(limits, c)
                            < confs.it.product.position() implies aut.transitions_view().contains(
                        product_transition(start.it.product.tuple_at(c), p@),
                    ) by {
                        lemma_rank_bound(limits, c);
                        if !before.it.product.exhausted() {
                            if rank(limits, c) >= before.it.product.position() {
                                assert(before.it.product.tuple_at(c) =~= start.it.product.tuple_at(c));
                                assert(before.it.selects(c));
                            }
                        }
                    }
                }
                break ;
            },
            Some(item) => {
                let ghost shown = item@;
                let (conf, label) = item;
                let ghost t = (conf@, label@, p@);
                let ghost tuple = choose|tuple: Seq<((Symbol, Seq<Q::V>), L::V)>| #[trigger]
                    before.it.yields(confs.it, tuple) && shown == product_of(tuple);
                let ghost c0 = choose|c: Seq<usize>| #[trigger]
                    before.it.first_at(c, tuple) && confs.it.product.position() == rank(
                        before.it.product.limits(),
                        c,
                    ) + 1;
                proof {
                    assert(shown == (conf@, label@));
                    assert(before.it.selects(c0));
                    lemma_rank_bound(limits, c0);
                    assert(tuple == before.it.product.tuple_at(c0));
                    assert(before.it.product.tuple_at(c0) =~= start.it.product.tuple_at(c0));
                    assert forall|i: int| 0 <= i < tuple.len() implies automata@[i].configurations_of(
                        p@[i],
                    ).contains(#[trigger] tuple[i]) by {
                        assert(before.it.product.sources@[i]@.len() == limits[i] + 1);
                        assert(start.it.candidates(i)[c0[i] as int] == tuple[i]);
                    }
                    assert(joins(automata@, tuple, p@));
                    assert(t == product_transition(tuple, p@));
                    assert(joins(automata@, tuple, t.2) && (t.0, t.1) == product_of(tuple));
                    assert(is_product_transition(automata@, t));
                }
                let mut m: usize = 0;
                while m < conf.1.len()
                    invariant
                        0 <= m <= conf.1@.len(),
                        t == (conf@, label@, p@),
                        is_product_transition(automata@, t),
                        reachable(automata@, p@),
                        explored(
                            automata@,
                            aut.transitions_view(),
                            views(seen@),
                            seq![p@] + views(pending@),
                            processed,
                        ),
                        forall|k: int| 0 <= k < m ==> views(seen@).contains(#[trigger] t.0.1[k]),
                    decreases conf.1@.len() - m,
                {
                    let ghost seen_before = seen@;
                    let ghost pending_before = pending@;
                    let one = conf.1[m].copy();
                    proof {
                        assert(t.0.1[m as int] == one@);
                        lemma_reach_child(automata@, t, m as int);
                    }
                    let fresh = insert_unique(seen, one);
                    if fresh {
                        let two = conf.1[m].copy();
                        pending.push(two);
                        proof {
                            lemma_views_push(seen_before, one);
                            lemma_views_push(pending_before, two);
                            lemma_explored_queue(
                                automata@,
                                aut.transitions_view(),
                                views(seen_before),
                                seq![p@] + views(pending_before),
                                one@,
                                processed,
                            );
                            assert((seq![p@] + views(pending_before)).push(one@) =~= seq![p@] + views(
                                pending@,
                            ));
                        }
                    }
                    proof {
                        let sv = views(seen@);
                        assert(sv.to_set().contains(one@));
                        assert(sv.contains(one@));
                        assert forall|k: int| 0 <= k < m + 1 implies sv.contains(#[trigger] t.0.1[k]) by {
                            if k < m {
                                assert(views(seen_before).contains(t.0.1[k]));
                                assert(views(seen_before).to_set().contains(t.0.1[k]));
                                assert(sv.to_set().contains(t.0.1[k]));
                            }
                        }
                    }
                    m += 1;
                }
                aut.add(conf, label, p.copy());
                proof {
                    let ts = aut.transitions_view();
                    lemma_explored_add(
                        automata@,
                        ts_before,
                        ts,
                        views(seen@),
                        seq![p@] + views(pending@),
                        processed,
                        t,
                    );
                    assert forall|c: Seq<usize>|
                        #[trigger] start.it.selects(c) && rank(limits, c)
                            < confs.it.product.position() implies ts.contains(
                        product_transition(start.it.product.tuple_at(c), p@),
                    ) by {
                        if rank(limits, c) < before.it.product.position() {
                            assert(ts_before.contains(
                                product_transition(start.it.product.tuple_at(c), p@),
                            ));
                        } else {
                            assert(before.it.product.tuple_at(c) =~= start.it.product.tuple_at(c));
                            assert(before.it.selects(c));
                            lemma_rank_injective(limits, c0, c);
                        }
                    }
                }
            },
        }
    }
    proof {
        let ts = aut.transitions_view();
        assert forall|tuple: Seq<((Symbol, Seq<Q::V>), L::V)>| #[trigger]
            joins(automata@, tuple, p@) implies ts.contains(product_transition(tuple, p@)) by {
            let k = automata@.len();
            let lists = Seq::new(k, |i: int| start.it.candidates(i));
            let sources = start.it.product.sources@;
            assert forall|i: int| 0 <= i < lists.len() implies (#[trigger] lists[i]).contains(tuple[i])
                && lists[i].len() <= usize::MAX by {
                assert(start.it.candidates(i) == automata@[i].configurations_of(p@[i]));
                assert(sources[i]@.len() == sources[i].len());
            }
            let c = lemma_located(lists, tuple, k);
            assert(!start.it.product.exhausted()) by {
                if start.it.product.exhausted() {
                    let i = choose|i: int|
                        0 <= i < p@.len() && (#[trigger] start.it.candidates(i)).len() == 0;
                    assert(lists[i].contains(tuple[i]));
                }
            }
            assert forall|i: int| 0 <= i < c.len() implies c[i] <= limits[i] by {
                assert(sources[i]@.len() == limits[i] + 1);
                assert(c[i] < lists[i].len());
            }
            assert(within(limits, c));
            lemma_rank_bound(limits, c);
            assert(start.it.product.tuple_at(c) =~= tuple) by {
                assert forall|i: int| 0 <= i < tuple.len() implies start.it.product.tuple_at(c)[i]
                    == tuple[i] by {
                    assert(lists[i][c[i] as int] == tuple[i]);
                }
            }
            assert(start.it.selects(c));
        }
        lemma_explored_done(automata@, ts, views(seen@), views(pending@), p@, processed);
    }
}

/// The product automaton of `automata`, explored from the tuples of
/// accepting states, taking at most `steps` product states in hand. Its
/// accepting states are the tuples of accepting states; its transitions
/// are the product transitions into the product states that are reached
/// from those tuples. `None` only if more than `steps` product states are
/// reached.
pub fn inter_within<Q: Value, L: Value>(automata: &[&Automaton<Q, L>], steps: usize) -> (r: Option<
    Automaton<Product<Q>, L>,
>)
    requires
        jointly_ranked(automata@),
    ensures
        match r {
            Some(product) => {
                &&& product.wf()
                &&& is_product(automata@, product.transitions_view())
                &&& all_product_transitions(automata@, product.transitions_view())
                &&& all_final_tuples(automata@, product.finals_view())
                &&& forall|p: Seq<Q::V>| #[trigger]
                    is_final_tuple(automata@, p) ==> product.finals_view().contains(p)
            },
            None => more_reached_than(automata@, steps as nat),
        },
{
    let (mut aut, mut seen, mut pending) = seed(automata);
    let ghost mut processed: Seq<Seq<Q::V>> = Seq::empty();
    let mut left: usize = steps;
    while pending.len() > 0 && left > 0
        invariant
            jointly_ranked(automata@),
            aut.wf(),
            all_final_tuples(automata@, aut.finals_view()),
            forall|p: Seq<Q::V>| #[trigger]
                is_final_tuple(automata@, p) ==> aut.finals_view().contains(p),
            explored(automata@, aut.transitions_view(), views(seen@), views(pending@), processed),
            processed.len() + left == steps,
        decreases left,
    {
        left = left - 1;
        let ghost before = pending@;
        let p = pending.pop().unwrap();
        proof {
            assert(views(before) =~= views(pending@).push(p@));
            lemma_explored_rotate(
                automata@,
                aut.transitions_view(),
                views(seen@),
                views(pending@),
                p@,
                processed,
            );
        }
        let ghost shown = p@;
        expand(automata, p, &mut aut, &mut seen, &mut pending, Ghost(processed));
        proof {
            processed = processed.push(shown);
        }
    }
    if pending.len() > 0 {
        proof {
            let reached = views(seen@);
            assert(reached.no_duplicates() && reached.len() > steps);
        }
        None
    } else {
        proof {
            assert(views(pending@) =~= Seq::<Seq<Q::V>>::empty());
            lemma_explored_is_product(automata@, aut.transitions_view(), views(seen@), processed);
            let ts = aut.transitions_view();
            assert forall|j: int| 0 <= j < ts.len() implies is_product_transition(
                automata@,
                #[trigger] ts[j],
            ) by {}
        }
        Some(aut)
    }
}

/// The product automaton of `automata`: its states are tuples of states,
/// one of each automaton; its accepting states are the tuples of accepting
/// states; its transitions are the products of the tuples of
/// configurations with a common symbol that lead into the product states
/// reached from the accepting ones. `None` only if more product states are
/// reached than a machine word counts.
pub fn inter<Q: Value, L: Value>(automata: &[&Automaton<Q, L>]) -> (r: Option<Automaton<Product<Q>, L>>)
    requires
        jointly_ranked(automata@),
    ensures
        match r {
            Some(product) => {
                &&& product.wf()
                &&& is_product(automata@, product.transitions_view())
                &&& all_product_transitions(automata@, product.transitions_view())
                &&& all_final_tuples(automata@, product.finals_view())
                &&& forall|p: Seq<Q::V>| #[trigger]
                    is_final_tuple(automata@, p) ==> product.finals_view().contains(p)
            },
            None => more_reached_than(automata@, usize::MAX as nat),
        },
{
    inter_within(automata, usize::MAX)
}


/// A run that fits within a height fits within any greater height.
pub proof fn lemma_run_deeper<S, M>(ts: Seq<TransitionView<S, M>>, t: Term<u64>, q: S, d: nat, e: nat)
    requires
        run_into(ts, t, q, d),
        d <= e,
    ensures
        run_into(ts, t, q, e),
    decreases d,
{
    let i = choose|i: int|
        #[trigger] fits(ts, i, t, q) && forall|j: int|
            0 <= j < ts[i].0.1.len() ==> run_into(
                ts,
                #[trigger] term_subterms(t)[j],
                ts[i].0.1[j],
                (d - 1) as nat,
            );
    assert forall|j: int| 0 <= j < ts[i].0.1.len() implies run_into(
        ts,
        #[trigger] term_subterms(t)[j],
        ts[i].0.1[j],
        (e - 1) as nat,
    ) by {
        lemma_run_deeper(ts, term_subterms(t)[j], ts[i].0.1[j], (d - 1) as nat, (e - 1) as nat);
    }
    assert(fits(ts, i, t, q));
}

/// A run of the product on a term gives a run of each automaton on it,
/// into its own state of the product state.
pub proof fn lemma_product_run_projects<Q: Value, L: Value>(
    automata: Seq<&Automaton<Q, L>>,
    ts: Seq<TransitionView<Seq<Q::V>, L::V>>,
    t: Term<u64>,
    p: Seq<Q::V>,
    d: nat,
    i: int,
)
    requires
        jointly_ranked(automata),
        all_product_transitions(automata, ts),
        run_into(ts, t, p, d),
        0 <= i < automata.len(),
    ensures
        p.len() == automata.len(),
        run_into(automata[i].transitions_view(), t, p[i], d),
    decreases d,
{
    let j = choose|j: int|
        #[trigger] fits(ts, j, t, p) && forall|m: int|
            0 <= m < ts[j].0.1.len() ==> run_into(
                ts,
                #[trigger] term_subterms(t)[m],
                ts[j].0.1[m],
                (d - 1) as nat,
            );
    assert(is_product_transition(automata, ts[j]));
    let tuple = choose|tuple: Seq<((Symbol, Seq<Q::V>), L::V)>| #[trigger]
        joins(automata, tuple, ts[j].2) && (ts[j].0, ts[j].1) == product_of(tuple);
    let own = automata[i].transitions_view();
    assert(automata[i].configurations_of(p[i]).contains(tuple[i]));
    lemma_lookups_agree(own, tuple[i].0, tuple[i].1, p[i]);
    let a = choose|a: int| 0 <= a < own.len() && own[a] == (tuple[i].0, tuple[i].1, p[i]);
    assert(automata[0].configurations_of(p[0]).contains(tuple[0]));
    let first = automata[0].transitions_view();
    lemma_lookups_agree(first, tuple[0].0, tuple[0].1, p[0]);
    let b = choose|b: int| 0 <= b < first.len() && first[b] == (tuple[0].0, tuple[0].1, p[0]);
    assert(tuple[i].0.0 == tuple[0].0.0);
    assert(own[a].0.0 == first[b].0.0);
    assert(own[a].0.1.len() == first[b].0.1.len());
    assert(fits(own, a, t, p[i]));
    assert forall|m: int| 0 <= m < own[a].0.1.len() implies run_into(
        own,
        #[trigger] term_subterms(t)[m],
        own[a].0.1[m],
        (d - 1) as nat,
    ) by {
        assert(run_into(ts, term_subterms(t)[m], ts[j].0.1[m], (d - 1) as nat));
        lemma_product_run_projects(
            automata,
            ts,
            term_subterms(t)[m],
            ts[j].0.1[m],
            (d - 1) as nat,
            i,
        );
        assert(ts[j].0.1[m][i] == tuple[i].0.1[m]);
    }
}

/// Runs of every automaton on a term, into the states of a reached product
/// state, give a run of the product into that product state.
pub proof fn lemma_runs_give_product_run<Q: Value, L: Value>(
    automata: Seq<&Automaton<Q, L>>,
    ts: Seq<TransitionView<Seq<Q::V>, L::V>>,
    t: Term<u64>,
    p: Seq<Q::V>,
    d: nat,
)
    requires
        jointly_ranked(automata),
        is_product(automata, ts),
        automata.len() > 0,
        p.len() == automata.len(),
        reachable(automata, p),
        forall|i: int|
            0 <= i < automata.len() ==> run_into(
                (#[trigger] automata[i]).transitions_view(),
                t,
                p[i],
                d,
            ),
    ensures
        run_into(ts, t, p, d),
    decreases d,
{
    let k = automata.len();
    let pick = |i: int|
        choose|a: int|
            #[trigger] fits(automata[i].transitions_view(), a, t, p[i]) && forall|m: int|
                0 <= m < automata[i].transitions_view()[a].0.1.len() ==> run_into(
                    automata[i].transitions_view(),
                    #[trigger] term_subterms(t)[m],
                    automata[i].transitions_view()[a].0.1[m],
                    (d - 1) as nat,
                );
    let tuple = Seq::new(
        k,
        |i: int| (automata[i].transitions_view()[pick(i)].0, automata[i].transitions_view()[pick(i)].1),
    );
    assert forall|i: int| 0 <= i < k implies {
        let own = automata[i].transitions_view();
        &&& fits(own, pick(i), t, p[i])
        &&& forall|m: int|
            0 <= m < own[pick(i)].0.1.len() ==> run_into(
                own,
                #[trigger] term_subterms(t)[m],
                own[pick(i)].0.1[m],
                (d - 1) as nat,
            )
        &&& automata[i].configurations_of(p[i]).contains(#[trigger] tuple[i])
    } by {
        let own = automata[i].transitions_view();
        assert(run_into(automata[i].transitions_view(), t, p[i], d));
        let a = pick(i);
        assert(own.contains((tuple[i].0, tuple[i].1, p[i]))) by {
            assert(own[a] == (tuple[i].0, tuple[i].1, p[i]));
        }
        lemma_lookups_agree(own, tuple[i].0, tuple[i].1, p[i]);
    }
    assert(common(tuple)) by {
        assert forall|i: int| 0 <= i < tuple.len() implies (#[trigger] tuple[i]).0.0 == tuple[0].0.0 by {
            assert(automata[i].configurations_of(p[i]).contains(tuple[i]));
            assert(automata[0].configurations_of(p[0]).contains(tuple[0]));
        }
    }
    assert(joins(automata, tuple, p));
    let u = product_transition(tuple, p);
    assert(joins(automata, tuple, u.2) && (u.0, u.1) == product_of(tuple));
    assert(is_product_transition(automata, u));
    assert(ts.contains(u));
    let j = choose|j: int| 0 <= j < ts.len() && ts[j] == u;
    assert(automata[0].configurations_of(p[0]).contains(tuple[0]));
    assert(fits(ts, j, t, p));
    assert forall|m: int| 0 <= m < ts[j].0.1.len() implies run_into(
        ts,
        #[trigger] term_subterms(t)[m],
        ts[j].0.1[m],
        (d - 1) as nat,
    ) by {
        let child = ts[j].0.1[m];
        lemma_reach_child(automata, u, m);
        assert forall|i: int| 0 <= i < automata.len() implies run_into(
            (#[trigger] automata[i]).transitions_view(),
            term_subterms(t)[m],
            child[i],
            (d - 1) as nat,
        ) by {
            let own = automata[i].transitions_view();
            assert(automata[i].configurations_of(p[i]).contains(tuple[i]));
            assert(automata[0].configurations_of(p[0]).contains(tuple[0]));
            let first = automata[0].transitions_view();
            assert(own[pick(i)].0.0 == first[pick(0)].0.0);
            assert(own[pick(i)].0.1.len() == first[pick(0)].0.1.len());
            assert(child[i] == tuple[i].0.1[m]);
            assert(run_into(own, term_subterms(t)[m], own[pick(i)].0.1[m], (d - 1) as nat));
        }
        lemma_runs_give_product_run(automata, ts, term_subterms(t)[m], child, (d - 1) as nat);
    }
}

/// A height within which the first `n` automata each have their run.
pub proof fn lemma_common_height<Q: Value, L: Value>(
    automata: Seq<&Automaton<Q, L>>,
    t: Term<u64>,
    p: Seq<Q::V>,
    n: nat,
) -> (d: nat)
    requires
        n <= automata.len(),
        forall|i: int|
            0 <= i < automata.len() ==> accepts_into(
                (#[trigger] automata[i]).transitions_view(),
                t,
                p[i],
            ),
    ensures
        forall|i: int|
            0 <= i < n ==> run_into((#[trigger] automata[i]).transitions_view(), t, p[i], d),
    decreases n,
{
    if n == 0 {
        0
    } else {
        let rest = lemma_common_height(automata, t, p, (n - 1) as nat);
        let last = (n - 1) as int;
        assert(accepts_into(automata[last].transitions_view(), t, p[last]));
        let own = choose|own: nat| run_into(automata[last].transitions_view(), t, p[last], own);
        let d = if rest < own {
            own
        } else {
            rest
        };
        assert forall|i: int| 0 <= i < n implies run_into(
            (#[trigger] automata[i]).transitions_view(),
            t,
            p[i],
            d,
        ) by {
            if i < n - 1 {
                lemma_run_deeper(automata[i].transitions_view(), t, p[i], rest, d);
            } else {
                lemma_run_deeper(automata[i].transitions_view(), t, p[i], own, d);
            }
        }
        d
    }
}

/// The product accepts exactly the terms that every automaton accepts:
/// `ts` and `finals` are the transitions and the accepting states of the
/// product of `automata`, of which there is at least one.
pub proof fn lemma_product_language<Q: Value, L: Value>(
    automata: Seq<&Automaton<Q, L>>,
    ts: Seq<TransitionView<Seq<Q::V>, L::V>>,
    finals: Seq<Seq<Q::V>>,
    t: Term<u64>,
)
    requires
        automata.len() > 0,
        jointly_ranked(automata),
        is_product(automata, ts),
        all_product_transitions(automata, ts),
        all_final_tuples(automata, finals),
        forall|p: Seq<Q::V>| #[trigger] is_final_tuple(automata, p) ==> finals.contains(p),
    ensures
        accepts(ts, finals, t) <==> forall|i: int|
            0 <= i < automata.len() ==> accepts(
                (#[trigger] automata[i]).transitions_view(),
                automata[i].finals_view(),
                t,
            ),
{
    if accepts(ts, finals, t) {
        let p = choose|p: Seq<Q::V>| finals.contains(p) && #[trigger] accepts_into(ts, t, p);
        let d = choose|d: nat| run_into(ts, t, p, d);
        let k = choose|k: int| 0 <= k < finals.len() && finals[k] == p;
        assert(is_final_tuple(automata, finals[k]));
        assert forall|i: int| 0 <= i < automata.len() implies accepts(
            (#[trigger] automata[i]).transitions_view(),
            automata[i].finals_view(),
            t,
        ) by {
            lemma_product_run_projects(automata, ts, t, p, d, i);
            assert(accepts_into(automata[i].transitions_view(), t, p[i]));
            assert(automata[i].finals_view().contains(p[i]));
        }
    }
    if forall|i: int|
        0 <= i < automata.len() ==> accepts(
            (#[trigger] automata[i]).transitions_view(),
            automata[i].finals_view(),
            t,
        ) {
        let p = Seq::new(
            automata.len(),
            |i: int|
                choose|q: Q::V|
                    automata[i].finals_view().contains(q) && #[trigger] accepts_into(
                        automata[i].transitions_view(),
                        t,
                        q,
                    ),
        );
        assert forall|i: int| 0 <= i < automata.len() implies automata[i].finals_view().contains(
            #[trigger] p[i],
        ) && accepts_into(automata[i].transitions_view(), t, p[i]) by {
            assert(accepts(automata[i].transitions_view(), automata[i].finals_view(), t));
        }
        assert(is_final_tuple(automata, p));
        assert(reach(automata, p, 0));
        let d = lemma_common_height(automata, t, p, automata.len());
        lemma_runs_give_product_run(automata, ts, t, p, d);
        assert(accepts_into(ts, t, p));
        assert(finals.contains(p));
    }
}


/// The product of ranked automata is ranked: where every configuration of
/// the first automaton has as many children as `arity` gives to its
/// symbol, so has every configuration of the product.
pub proof fn lemma_product_ranked<Q: Value, L: Value>(
    automata: Seq<&Automaton<Q, L>>,
    ts: Seq<TransitionView<Seq<Q::V>, L::V>>,
    arity: spec_fn(Symbol) -> nat,
)
    requires
        all_product_transitions(automata, ts),
        automata.len() > 0 ==> crate::bottom_up::ranked_by(automata[0].transitions_view(), arity),
    ensures
        crate::bottom_up::ranked_by(ts, arity),
{
    assert forall|j: int| 0 <= j < ts.len() implies (#[trigger] ts[j]).0.1.len() == arity(ts[j].0.0) by {
        assert(is_product_transition(automata, ts[j]));
        let tuple = choose|tuple: Seq<((Symbol, Seq<Q::V>), L::V)>| #[trigger]
            joins(automata, tuple, ts[j].2) && (ts[j].0, ts[j].1) == product_of(tuple);
        let first = automata[0].transitions_view();
        assert(automata[0].configurations_of(ts[j].2[0]).contains(tuple[0]));
        lemma_lookups_agree(first, tuple[0].0, tuple[0].1, ts[j].2[0]);
        let b = choose|b: int| 0 <= b < first.len() && first[b] == (tuple[0].0, tuple[0].1, ts[j].2[0]);
        assert(first[b].0.1.len() == arity(first[b].0.0));
    }
}

} // verus!
