//! Width-first, pattern-driven term search over one or several automata.
use vstd::prelude::*;
use crate::Symbol;
use crate::value::{Value, views, insert_unique, lemma_views_push};
use crate::label::NoLabel;
use crate::term::{term_symbol, term_subterms, new_term, copy_term};
use crate::bottom_up::{
    Automaton, Configuration, TransitionView, extends, targets, lemma_extends_trans,
};
use terms::Term;
use crossbeam_channel::Receiver;

verus! {

/// `crossbeam_channel::Receiver`, the receiving side of a channel. It is
/// only carried through and polled.
#[verifier::external_type_specification]
#[verifier::external_body]
#[verifier::reject_recursive_types(T)]
pub struct ExReceiver<T>(crossbeam_channel::Receiver<T>);

/// `Receiver::try_recv`, without blocking: whether a message was taken from
/// the channel. What it returns depends on what was sent, so nothing is
/// claimed of it.
#[verifier::external_body]
pub(crate) fn signaled(channel: &Receiver<()>) -> (r: bool) {
    channel.try_recv().is_ok()
}

/// `Receiver::clone`: another handle on the same channel.
#[verifier::external_body]
pub(crate) fn share(channel: &Receiver<()>) -> (r: Receiver<()>) {
    channel.clone()
}

/// The search was cancelled.
#[derive(Debug, Clone, Copy)]
pub struct Killed;

/// A state together with the index of the automaton that it belongs to.
#[derive(Clone, Debug, PartialEq, Eq, Hash)]
pub struct Indexed<Q>(pub Q, pub usize);

impl<Q: Value> View for Indexed<Q> {
    type V = (Q::V, usize);

    open spec fn view(&self) -> (Q::V, usize) {
        (self.0@, self.1)
    }
}

impl<Q: Value> Value for Indexed<Q> {
    fn same(&self, other: &Self) -> (r: bool) {
        self.0.same(&other.0) && self.1 == other.1
    }

    fn copy(&self) -> (r: Self) {
        Indexed(self.0.copy(), self.1)
    }
}

/// A state that, in an environment `E`, has configurations whose children
/// are states of the same kind.
pub trait LanguageState<E>: Value {
    /// The configurations of `self` in `env`, as a sequence of views.
    spec fn configurations_in(&self, env: &E) -> Seq<(Symbol, Seq<Self::V>)>;

    fn configurations(&self, env: &E) -> (r: Vec<Configuration<Self>>)
        ensures
            views(r@) == self.configurations_in(env),
    ;
}

/// The configurations of `list`, without their labels.
pub open spec fn unlabeled<S, M>(list: Seq<((Symbol, Seq<S>), M)>) -> Seq<(Symbol, Seq<S>)> {
    list.map_values(|c: ((Symbol, Seq<S>), M)| c.0)
}

/// The configuration `c` with each child state tagged by `index`.
pub open spec fn tagged<S>(c: (Symbol, Seq<S>), index: usize) -> (Symbol, Seq<(S, usize)>) {
    (c.0, c.1.map_values(|q: S| (q, index)))
}

/// In a single automaton, a state has the configurations that lead into it.
impl<Q: Value> LanguageState<Automaton<Q, NoLabel>> for Q {
    open spec fn configurations_in(&self, env: &Automaton<Q, NoLabel>) -> Seq<(Symbol, Seq<Q::V>)> {
        unlabeled(env.configurations_of(self@))
    }

    fn configurations(&self, env: &Automaton<Q, NoLabel>) -> (r: Vec<Configuration<Q>>) {
        let mut list = env.configurations_for_state(self);
        let ghost all = views(list@);
        let mut out: Vec<Configuration<Q>> = Vec::new();
        let mut i: usize = 0;
        while i < list.len()
            invariant
                0 <= i <= list.len(),
                all == views(list@),
                out.len() == i,
                forall|k: int| 0 <= k < i ==> out@[k]@ == all[k].0,
            decreases list.len() - i,
        {
            out.push(list[i].0.copy());
            i += 1;
        }
        assert(views(out@) =~= unlabeled(all));
        out
    }
}

/// In an array of automata, an indexed state has the configurations that
/// lead into it in its own automaton, the children tagged with the same
/// index. An index outside the array has none.
impl<'e, Q: Value> LanguageState<Vec<&'e Automaton<Q, NoLabel>>> for Indexed<Q> {
    open spec fn configurations_in(&self, env: &Vec<&'e Automaton<Q, NoLabel>>) -> Seq<
        (Symbol, Seq<(Q::V, usize)>),
    > {
        if self.1 < env@.len() {
            unlabeled(env@[self.1 as int].configurations_of(self.0@)).map_values(
                |c: (Symbol, Seq<Q::V>)| tagged(c, self.1),
            )
        } else {
            Seq::empty()
        }
    }

    fn configurations(&self, env: &Vec<&'e Automaton<Q, NoLabel>>) -> (r: Vec<
        Configuration<Indexed<Q>>,
    >) {
        let mut out: Vec<Configuration<Indexed<Q>>> = Vec::new();
        let index: usize = self.1;
        if index >= env.len() {
            assert(views(out@) =~= self.configurations_in(env));
            return out;
        }
        let list = env[index].configurations_for_state(&self.0);
        let ghost all = views(list@);
        let mut i: usize = 0;
        while i < list.len()
            invariant
                0 <= i <= list.len(),
                all == views(list@),
                out.len() == i,
                forall|k: int| 0 <= k < i ==> out@[k]@ == tagged(all[k].0, index),
            decreases list.len() - i,
        {
            let conf = &list[i].0;
            let mut states: Vec<Indexed<Q>> = Vec::new();
            let mut j: usize = 0;
            while j < conf.1.len()
                invariant
                    0 <= j <= conf.1.len(),
                    states.len() == j,
                    forall|k: int| 0 <= k < j ==> states@[k]@ == (conf.1@[k]@, index),
                decreases conf.1.len() - j,
            {
                states.push(Indexed(conf.1[j].copy(), index));
                j += 1;
            }
            let item = Configuration(conf.0, states);
            assert(item@.1 =~= tagged(all[i as int].0, index).1);
            out.push(item);
            i += 1;
        }
        assert(views(out@) =~= self.configurations_in(env));
        out
    }
}

/// What a search carries along a branch. A looping context says that the
/// branch has come back to where it was, and is not followed further.
pub trait SearchContext: Sized {
    /// Whether the context loops, as a value: what `looping` gives.
    open spec fn is_looping(&self) -> bool {
        arbitrary()
    }

    fn looping(&self) -> (r: bool)
        ensures
            r == self.is_looping(),
    ;

    fn copy(&self) -> Self;
}

/// What a search asks of the configurations that it meets.
pub trait SearchPattern<Q, C>: Sized {
    /// Accepts `configuration` at state `q`, with the context to go on with
    /// and one pattern for each child, or rejects it.
    fn matches(&self, depth: usize, context: &C, q: &Q, configuration: &Configuration<Q>) -> (r: Option<
        (C, Vec<Self>),
    >)
        ensures
            r == self.matched(depth, *context, *q, *configuration),
    ;

    /// What `matches` gives, as a value.
    open spec fn matched(&self, depth: usize, context: C, q: Q, configuration: Configuration<Q>) -> Option<
        (C, Vec<Self>),
    > {
        arbitrary()
    }

    fn copy(&self) -> Self;
}

/// A committed configuration, with the context and the patterns that the
/// match gave.
pub struct Item<Q, C, P> {
    pub configuration: Configuration<Q>,
    pub context: C,
    pub patterns: Vec<P>,
}

/// The configurations of one leaf, and how many of them have been tried.
pub struct Candidates<Q> {
    pub list: Vec<Configuration<Q>>,
    pub tried: usize,
}

/// The number of child states of the committed configurations.
pub open spec fn total_children<Q, C, P>(items: Seq<Item<Q, C, P>>) -> nat
    decreases items.len(),
{
    if items.len() == 0 {
        0
    } else {
        total_children(items.drop_last()) + items.last().configuration.1@.len()
    }
}

/// The child states of the committed configurations, in order.
pub open spec fn children_of<Q: Value, C, P>(items: Seq<Item<Q, C, P>>) -> Seq<Q::V>
    decreases items.len(),
{
    if items.len() == 0 {
        Seq::empty()
    } else {
        children_of(items.drop_last()) + views(items.last().configuration.1@)
    }
}

/// A prefix of the committed configurations has no more child states than
/// all of them, and one more item adds its own.
pub proof fn lemma_total_children<Q, C, P>(items: Seq<Item<Q, C, P>>, k: int)
    requires
        0 <= k < items.len(),
    ensures
        total_children(items.take(k + 1)) == total_children(items.take(k))
            + items[k].configuration.1@.len(),
        total_children(items.take(k + 1)) <= total_children(items),
    decreases items.len(),
{
    assert(items.take(k + 1).drop_last() =~= items.take(k));
    if k + 1 == items.len() {
        assert(items.take(k + 1) =~= items);
    } else {
        assert(items.drop_last().take(k + 1) =~= items.take(k + 1));
        assert(items.drop_last().take(k) =~= items.take(k));
        lemma_total_children(items.drop_last(), k);
    }
}

/// What one step of a search gives.
pub enum Step {
    /// A layer of terms, one for each leaf of the fragment.
    Layer(Vec<Term<u64>>),
    /// Work was done; there is no layer yet.
    Pending,
    /// The fragment has no further layer.
    Exhausted,
    /// The search was cancelled.
    Killed(Killed),
    /// A pattern gave a number of patterns that is not the number of
    /// children of the configuration, or the depth cannot be counted.
    Fault,
}

/// A term fragment: the search, level by level, for the terms that hang
/// under its leaves and satisfy its patterns.
pub struct TermFragment<'a, E, Q, C, P> {
    pub env: &'a E,
    pub context: C,
    pub patterns: Vec<P>,
    pub leaves: Vec<Q>,
    pub leaves_configurations: Vec<Candidates<Q>>,
    pub current: Vec<Item<Q, C, P>>,
    pub next_fragment: Option<Box<TermFragment<'a, E, Q, C, P>>>,
    pub visited: bool,
    pub depth: usize,
    pub kill_signal: Option<Receiver<()>>,
}

impl<'a, E, Q: LanguageState<E>, C: SearchContext, P: SearchPattern<Q, C>> TermFragment<
    'a,
    E,
    Q,
    C,
    P,
> {
    /// How many fragments are nested in this one, itself included.
    pub open spec fn height(&self) -> nat
        decreases self,
    {
        match self.next_fragment {
            Some(fragment) => fragment.height() + 1,
            None => 1,
        }
    }

    /// The invariants of a fragment: one pattern per leaf; no more commits
    /// than leaves; one list of candidates for each commit and, while a
    /// leaf is open, one for the first open leaf; as many patterns in a
    /// commit as its configuration has children; a nested fragment only
    /// when every leaf is committed, one level deeper, with one leaf for
    /// each child of the commits.
    pub open spec fn wf(&self) -> bool
        decreases self,
    {
        &&& self.patterns@.len() == self.leaves@.len()
        &&& self.current@.len() <= self.leaves@.len()
        &&& self.leaves@.len() > 0 ==> self.leaves_configurations@.len() == if self.current@.len()
            < self.leaves@.len() {
            self.current@.len() + 1
        } else {
            self.current@.len()
        }
        &&& forall|k: int|
            0 <= k < self.leaves_configurations@.len() ==> (
            #[trigger] self.leaves_configurations@[k]).tried
                <= self.leaves_configurations@[k].list@.len()
        &&& forall|k: int|
            0 <= k < self.current@.len() ==> (#[trigger] self.current@[k]).patterns@.len()
                == self.current@[k].configuration.1@.len()
        &&& match self.next_fragment {
            Some(fragment) => {
                &&& self.current@.len() == self.leaves@.len()
                &&& self.leaves@.len() > 0
                &&& fragment.wf()
                &&& fragment.leaves@.len() == total_children(self.current@)
                &&& fragment.depth == self.depth + 1
                &&& fragment.kill_signal.is_some() == self.kill_signal.is_some()
            },
            None => true,
        }
    }

    /// Whether `terms` is a layer over the committed configurations: one
    /// term for each, with its symbol and as many direct subterms as it has
    /// children.
    pub open spec fn layer_of(&self, terms: Seq<Term<u64>>) -> bool {
        &&& terms.len() == self.current@.len()
        &&& forall|k: int|
            0 <= k < terms.len() ==> term_symbol(#[trigger] terms[k])
                == self.current@[k].configuration.0 && term_subterms(terms[k]).len()
                == self.current@[k].configuration.1@.len()
    }

    /// The context in force: that of the last commit, or the fragment's own
    /// where nothing is committed.
    pub open spec fn current_context(&self) -> C {
        if self.current@.len() > 0 {
            self.current@.last().context
        } else {
            self.context
        }
    }

    /// Whether `after` has what a step never changes: the environment, the
    /// context, the leaves, the patterns, the depth, and whether there is a
    /// cancellation channel.
    pub open spec fn framed(&self, after: TermFragment<'a, E, Q, C, P>) -> bool {
        &&& after.env == self.env
        &&& after.context == self.context
        &&& after.leaves == self.leaves
        &&& after.patterns == self.patterns
        &&& after.depth == self.depth
        &&& after.kill_signal.is_some() == self.kill_signal.is_some()
    }

    /// Whether `after` has the candidates of `self`, one more of the open
    /// leaf being tried.
    pub open spec fn tried_one(&self, after: TermFragment<'a, E, Q, C, P>) -> bool {
        let n = self.current@.len() as int;
        &&& after.leaves_configurations@.len() >= n + 1
        &&& forall|k: int| 0 <= k < n ==> after.leaves_configurations@[k] == self.leaves_configurations@[k]
        &&& after.leaves_configurations@[n].list == self.leaves_configurations@[n].list
        &&& after.leaves_configurations@[n].tried == self.leaves_configurations@[n].tried + 1
    }

    /// A step of a fragment without leaves: the empty layer once, then
    /// nothing.
    pub open spec fn steps_leafless(&self, after: TermFragment<'a, E, Q, C, P>, r: Step) -> bool {
        if self.visited {
            r is Exhausted && after == *self
        } else {
            &&& r matches Step::Layer(terms)
            &&& terms@.len() == 0
            &&& after.visited
            &&& after.current@ == self.current@
            &&& after.next_fragment == self.next_fragment
        }
    }

    /// A step that tries the next candidate of the open leaf: the leaf's
    /// pattern rejects it; or accepts it with a wrong number of patterns,
    /// which is a fault; or accepts it, and it is committed, and the
    /// candidates of the leaf after it are made ready.
    pub open spec fn steps_trying(&self, after: TermFragment<'a, E, Q, C, P>, r: Step) -> bool {
        let n = self.current@.len() as int;
        let top = self.leaves_configurations@[n];
        let candidate = top.list@[top.tried as int];
        &&& self.tried_one(after)
        &&& after.visited == self.visited
        &&& after.next_fragment is None
        &&& match self.patterns@[n].matched(
            self.depth,
            self.current_context(),
            self.leaves@[n],
            candidate,
        ) {
            None => {
                &&& r is Pending
                &&& after.current@ == self.current@
                &&& after.leaves_configurations@.len() == n + 1
            },
            Some((context, patterns)) => if patterns@.len() != candidate.1@.len() {
                &&& r is Fault
                &&& after.current@ == self.current@
                &&& after.leaves_configurations@.len() == n + 1
            } else {
                &&& r is Pending
                &&& after.current@.len() == n + 1
                &&& after.current@.take(n) == self.current@
                &&& after.current@[n].configuration@ == candidate@
                &&& after.current@[n].context == context
                &&& after.current@[n].patterns == patterns
                &&& if n + 1 < self.leaves@.len() {
                    &&& after.leaves_configurations@.len() == n + 2
                    &&& after.leaves_configurations@[n + 1].tried == 0
                    &&& views(after.leaves_configurations@[n + 1].list@) == self.leaves@[n
                        + 1].configurations_in(self.env)
                } else {
                    after.leaves_configurations@.len() == n + 1
                }
            },
        }
    }

    /// A step that finds no candidate left for the open leaf: it goes back
    /// one leaf, or ends the fragment where there is none to go back to.
    pub open spec fn steps_back(&self, after: TermFragment<'a, E, Q, C, P>, r: Step) -> bool {
        if self.current@.len() > 0 {
            &&& r is Pending
            &&& after.current@ == self.current@.drop_last()
            &&& after.leaves_configurations@ == self.leaves_configurations@.drop_last()
            &&& after.visited == self.visited
            &&& after.next_fragment is None
        } else {
            r is Exhausted && after == *self
        }
    }

    /// A step with every leaf committed and no nested fragment: where the
    /// context loops the last commit is dropped; else the nested fragment
    /// is made, one level deeper, over the children of the commits.
    pub open spec fn steps_down(&self, after: TermFragment<'a, E, Q, C, P>, r: Step) -> bool {
        if self.current_context().is_looping() {
            &&& r is Pending
            &&& after.current@ == self.current@.drop_last()
            &&& after.leaves_configurations == self.leaves_configurations
            &&& after.visited == self.visited
            &&& after.next_fragment is None
        } else if self.depth == usize::MAX {
            r is Fault && after == *self
        } else {
            &&& r is Pending
            &&& after.current@ == self.current@
            &&& after.leaves_configurations == self.leaves_configurations
            &&& after.visited == self.visited
            &&& after.next_fragment matches Some(fragment)
            &&& fragment.env == self.env
            &&& fragment.depth == self.depth + 1
            &&& views(fragment.leaves@) == children_of(self.current@)
            &&& fragment.patterns@.len() == fragment.leaves@.len()
            &&& fragment.current@.len() == 0
            &&& fragment.next_fragment is None
            &&& !fragment.visited
            &&& fragment.leaves@.len() > 0 ==> fragment.leaves_configurations@.len() == 1
                && fragment.leaves_configurations@[0].tried == 0 && views(
                fragment.leaves_configurations@[0].list@,
            ) == fragment.leaves@[0].configurations_in(self.env)
        }
    }

    /// A step with every leaf committed and a nested fragment, which takes
    /// a step of its own and gives `below`: a layer below gives the layer
    /// over the commits; the end of the nested fragment drops it and the
    /// last commit; anything else is handed up.
    pub open spec fn steps_over(
        &self,
        after: TermFragment<'a, E, Q, C, P>,
        r: Step,
        nested: TermFragment<'a, E, Q, C, P>,
        below: Step,
    ) -> bool {
        &&& after.leaves_configurations == self.leaves_configurations
        &&& after.visited == self.visited
        &&& match below {
            Step::Layer(sub_terms) => {
                &&& r matches Step::Layer(terms)
                &&& self.layer_of(terms@)
                &&& forall|k: int, j: int|
                    0 <= k < terms@.len() && 0 <= j < term_subterms(terms@[k]).len()
                        ==> #[trigger] self.hangs(terms@, sub_terms@, k, j)
                &&& after.current@ == self.current@
                &&& after.next_fragment == Some(Box::new(nested))
            },
            Step::Exhausted => {
                &&& r is Pending
                &&& after.current@ == self.current@.drop_last()
                &&& after.next_fragment is None
            },
            Step::Pending => {
                &&& r is Pending
                &&& after.current@ == self.current@
                &&& after.next_fragment == Some(Box::new(nested))
            },
            Step::Killed(_) => {
                &&& r is Killed
                &&& after.current@ == self.current@
                &&& after.next_fragment == Some(Box::new(nested))
            },
            Step::Fault => {
                &&& r is Fault
                &&& after.current@ == self.current@
                &&& after.next_fragment == Some(Box::new(nested))
            },
        }
    }

    /// Whether a step can take `self` to `after` and give `r`. A fragment
    /// with a cancellation channel may be found cancelled, and is then left
    /// as it is. Otherwise the step is the one that the state asks for.
    pub open spec fn steps_to(&self, after: TermFragment<'a, E, Q, C, P>, r: Step) -> bool
        decreases self.height(), 1nat,
    {
        ||| (r is Killed && self.kill_signal is Some && after == *self)
        ||| {
            &&& self.framed(after)
            &&& if self.leaves@.len() == 0 {
                self.steps_leafless(after, r)
            } else if self.current@.len() < self.leaves@.len() {
                let top = self.leaves_configurations@[self.current@.len() as int];
                if top.tried < top.list@.len() {
                    self.steps_trying(after, r)
                } else {
                    self.steps_back(after, r)
                }
            } else {
                match self.next_fragment {
                    Some(fragment) => self.steps_nested(after, r),
                    None => self.steps_down(after, r),
                }
            }
        }
    }

    /// A step with every leaf committed and a nested fragment: the nested
    /// fragment takes a step, and what it gives is handed up.
    pub open spec fn steps_nested(&self, after: TermFragment<'a, E, Q, C, P>, r: Step) -> bool
        decreases self.height(), 0nat,
    {
        match self.next_fragment {
            Some(fragment) => exists|nested: TermFragment<'a, E, Q, C, P>, below: Step|
                fragment.steps_to(nested, below) && #[trigger] self.steps_over(
                    after,
                    r,
                    nested,
                    below,
                ),
            None => false,
        }
    }

    /// One step of the search. It first polls the cancellation channel. A
    /// fragment without leaves gives the empty layer once. Otherwise, while
    /// a leaf is open, the step tries its next candidate, and commits it if
    /// the leaf's pattern accepts it, or goes back one leaf when there is no
    /// candidate left; once every leaf is committed, the step takes a layer
    /// from the nested fragment and builds a layer over the commits, or
    /// makes the nested fragment if the context does not loop, or drops the
    /// last commit.
    pub fn step(&mut self) -> (r: Step)
        requires
            old(self).wf(),
        ensures
            final(self).wf(),
            old(self).steps_to(*final(self), r),
            r is Killed ==> old(self).kill_signal is Some,
            r matches Step::Layer(terms) ==> terms@.len() == old(self).leaves@.len(),
        decreases old(self).height(), 1nat,
    {
        let killed = match &self.kill_signal {
            Some(channel) => signaled(channel),
            None => false,
        };
        if killed {
            return Step::Killed(Killed);
        }
        if self.leaves.len() == 0 {
            if self.visited {
                return Step::Exhausted;
            }
            self.visited = true;
            return Step::Layer(Vec::new());
        }
        let n: usize = self.current.len();
        if n < self.leaves.len() {
            if self.leaves_configurations[n].tried < self.leaves_configurations[n].list.len() {
                self.try_candidate()
            } else {
                self.go_back()
            }
        } else if self.next_fragment.is_some() {
            self.go_over()
        } else {
            self.go_down()
        }
    }

    /// Whether `n` steps that give nothing yet can take `self` to `after`.
    pub open spec fn idles_to(&self, after: TermFragment<'a, E, Q, C, P>, n: nat) -> bool
        decreases n,
    {
        if n == 0 {
            after == *self
        } else {
            exists|mid: TermFragment<'a, E, Q, C, P>|
                #[trigger] self.steps_to(mid, Step::Pending) && mid.idles_to(after, (n - 1) as nat)
        }
    }

    /// One more step that gives nothing yet goes on from where the steps
    /// before it came to.
    pub proof fn lemma_idles_on(
        self,
        mid: TermFragment<'a, E, Q, C, P>,
        after: TermFragment<'a, E, Q, C, P>,
        n: nat,
    )
        requires
            self.idles_to(mid, n),
            mid.steps_to(after, Step::Pending),
        ensures
            self.idles_to(after, n + 1),
        decreases n,
    {
        if n == 0 {
            assert(after.idles_to(after, 0));
            assert(self.steps_to(after, Step::Pending));
        } else {
            let first = choose|first: TermFragment<'a, E, Q, C, P>|
                #[trigger] self.steps_to(first, Step::Pending) && first.idles_to(mid, (n - 1) as nat);
            first.lemma_idles_on(mid, after, (n - 1) as nat);
            assert(self.steps_to(first, Step::Pending) && first.idles_to(after, n));
        }
    }

    /// Whether `self` can come to `after` and give `r` by at most `steps`
    /// steps, of which only the last gives something; `r` is `Pending` only
    /// where all `steps` steps gave nothing.
    pub open spec fn comes_to(&self, after: TermFragment<'a, E, Q, C, P>, r: Step, steps: nat) -> bool {
        exists|mid: TermFragment<'a, E, Q, C, P>, n: nat| #[trigger]
            self.idles_to(mid, n) && if r is Pending {
                n == steps && after == mid
            } else {
                n < steps && mid.steps_to(after, r)
            }
    }

    /// The next thing that the search gives, looked for in at most `steps`
    /// steps: a layer, the end, a cancellation or a fault; `Pending` if
    /// none came within the steps.
    pub fn next(&mut self, steps: usize) -> (r: Step)
        requires
            old(self).wf(),
        ensures
            final(self).wf(),
            old(self).comes_to(*final(self), r, steps as nat),
            r is Killed ==> old(self).kill_signal is Some,
            r matches Step::Layer(terms) ==> terms@.len() == old(self).leaves@.len(),
    {
        let mut left: usize = steps;
        let ghost mut n: nat = 0;
        assert(old(self).idles_to(*self, 0));
        while left > 0
            invariant
                self.wf(),
                old(self).idles_to(*self, n),
                n + left == steps,
                self.leaves@.len() == old(self).leaves@.len(),
                self.kill_signal.is_some() == old(self).kill_signal.is_some(),
            decreases left,
        {
            let ghost mid = *self;
            let r = self.step();
            proof {
                assert(mid.steps_to(*self, r));
                if !(r is Killed && mid.kill_signal is Some && *self == mid) {
                    assert(mid.framed(*self));
                }
            }
            match r {
                Step::Pending => {
                    proof {
                        old(self).lemma_idles_on(mid, *self, n);
                        n = n + 1;
                    }
                },
                other => {
                    return other;
                },
            }
            left = left - 1;
        }
        Step::Pending
    }

    /// Tries the next candidate of the open leaf.
    fn try_candidate(&mut self) -> (r: Step)
        requires
            old(self).wf(),
            old(self).current@.len() < old(self).leaves@.len(),
            ({
                let top = old(self).leaves_configurations@[old(self).current@.len() as int];
                top.tried < top.list@.len()
            }),
        ensures
            final(self).wf(),
            old(self).framed(*final(self)),
            old(self).steps_trying(*final(self), r),
            !(r is Layer),
            !(r is Killed),
    {
        let n: usize = self.current.len();
        let tried: usize = self.leaves_configurations[n].tried;
        assert(n < self.leaves.len());
        assert(tried < self.leaves_configurations[n as int].list.len());
        let context = if n > 0 {
            &self.current[n - 1].context
        } else {
            &self.context
        };
        let candidate = &self.leaves_configurations[n].list[tried];
        let outcome = self.patterns[n].matches(self.depth, context, &self.leaves[n], candidate);
        let conf = candidate.copy();
        assert(views(conf.1@).len() == views(candidate.1@).len());
        let mut top = self.leaves_configurations.pop().unwrap();
        top.tried = tried + 1;
        self.leaves_configurations.push(top);
        assert(old(self).tried_one(*self));
        match outcome {
            Some((next_context, sub_patterns)) => {
                if sub_patterns.len() != conf.1.len() {
                    return Step::Fault;
                }
                self.current.push(
                    Item { configuration: conf, context: next_context, patterns: sub_patterns },
                );
                if n + 1 < self.leaves.len() {
                    let list = self.leaves[n + 1].configurations(self.env);
                    self.leaves_configurations.push(Candidates { list, tried: 0 });
                }
                assert(self.current@.take(n as int) =~= old(self).current@);
                assert(old(self).tried_one(*self));
                Step::Pending
            },
            None => Step::Pending,
        }
    }

    /// Goes back one leaf, or ends the fragment where no leaf is committed.
    fn go_back(&mut self) -> (r: Step)
        requires
            old(self).wf(),
            old(self).current@.len() < old(self).leaves@.len(),
        ensures
            final(self).wf(),
            old(self).framed(*final(self)),
            old(self).steps_back(*final(self), r),
            !(r is Layer),
            !(r is Killed),
    {
        if self.current.len() > 0 {
            self.current.pop();
            self.leaves_configurations.pop();
            Step::Pending
        } else {
            Step::Exhausted
        }
    }

    /// Takes a step of the nested fragment and hands up what it gives.
    fn go_over(&mut self) -> (r: Step)
        requires
            old(self).wf(),
            old(self).next_fragment is Some,
        ensures
            final(self).wf(),
            old(self).framed(*final(self)),
            old(self).steps_nested(*final(self), r),
            r is Killed ==> old(self).kill_signal is Some,
            r matches Step::Layer(terms) ==> terms@.len() == old(self).leaves@.len(),
        decreases old(self).height(), 0nat,
    {
        let mut fragment = self.next_fragment.take().unwrap();
        let ghost before = *fragment;
        let below = fragment.step();
        let ghost nested = *fragment;
        let ghost shown = below;
        let r = match below {
            Step::Layer(sub_terms) => {
                let terms = self.assemble(&sub_terms);
                let ghost mid = *self;
                self.next_fragment = Some(fragment);
                proof {
                    assert(mid.layer_of(terms@));
                    assert forall|k: int, j: int|
                        0 <= k < terms@.len() && 0 <= j < term_subterms(terms@[k]).len()
                        implies #[trigger] old(self).hangs(terms@, sub_terms@, k, j) by {
                        assert(mid.hangs(terms@, sub_terms@, k, j));
                    }
                }
                Step::Layer(terms)
            },
            Step::Exhausted => {
                self.current.pop();
                Step::Pending
            },
            Step::Pending => {
                self.next_fragment = Some(fragment);
                Step::Pending
            },
            Step::Killed(k) => {
                self.next_fragment = Some(fragment);
                Step::Killed(k)
            },
            Step::Fault => {
                self.next_fragment = Some(fragment);
                Step::Fault
            },
        };
        proof {
            assert(old(self).next_fragment == Some(Box::new(before)));
            assert(before.steps_to(nested, shown));
            assert(old(self).steps_over(*self, r, nested, shown));
        }
        r
    }

    /// Drops the last commit where the context loops; else makes the nested
    /// fragment over the children of the commits.
    fn go_down(&mut self) -> (r: Step)
        requires
            old(self).wf(),
            old(self).leaves@.len() > 0,
            old(self).current@.len() == old(self).leaves@.len(),
            old(self).next_fragment is None,
        ensures
            final(self).wf(),
            old(self).framed(*final(self)),
            old(self).steps_down(*final(self), r),
            !(r is Layer),
            !(r is Killed),
    {
        let n: usize = self.current.len();
        let looping = self.current[n - 1].context.looping();
        if looping {
            self.current.pop();
            return Step::Pending;
        }
        if self.depth == usize::MAX {
            return Step::Fault;
        }
        let mut leaves: Vec<Q> = Vec::new();
        let mut patterns: Vec<P> = Vec::new();
        let mut k: usize = 0;
        assert(views(leaves@) =~= children_of(self.current@.take(0)));
        while k < self.current.len()
            invariant
                0 <= k <= self.current@.len(),
                self.wf(),
                leaves@.len() == total_children(self.current@.take(k as int)),
                views(leaves@) == children_of(self.current@.take(k as int)),
                patterns@.len() == leaves@.len(),
            decreases self.current@.len() - k,
        {
            let item = &self.current[k];
            proof {
                lemma_total_children(self.current@, k as int);
                assert(self.current@.take(k + 1).drop_last() =~= self.current@.take(k as int));
            }
            let ghost base = leaves@;
            let mut j: usize = 0;
            assert(views(leaves@) =~= views(base) + views(item.configuration.1@).take(0));
            while j < item.configuration.1.len()
                invariant
                    0 <= j <= item.configuration.1@.len(),
                    item.patterns@.len() == item.configuration.1@.len(),
                    leaves@.len() == base.len() + j,
                    views(leaves@) == views(base) + views(item.configuration.1@).take(j as int),
                    patterns@.len() == leaves@.len(),
                decreases item.configuration.1@.len() - j,
            {
                let ghost prev = leaves@;
                let q = item.configuration.1[j].copy();
                leaves.push(q);
                patterns.push(item.patterns[j].copy());
                proof {
                    lemma_views_push(prev, q);
                    assert(views(leaves@) =~= views(base) + views(item.configuration.1@).take(j + 1));
                }
                j += 1;
            }
            assert(views(item.configuration.1@).take(j as int) =~= views(item.configuration.1@));
            k += 1;
        }
        assert(self.current@.take(k as int) =~= self.current@);
        let context = self.current[n - 1].context.copy();
        let signal = match &self.kill_signal {
            Some(channel) => Some(share(channel)),
            None => None,
        };
        let fragment = TermFragment::new(self.env, self.depth + 1, context, leaves, patterns, signal);
        self.next_fragment = Some(Box::new(fragment));
        Step::Pending
    }

    /// Whether subterm `j` of term `k` of a layer has the shape of the term
    /// of the layer below that stands for child `j` of commit `k`.
    pub open spec fn hangs(
        &self,
        terms: Seq<Term<u64>>,
        sub_terms: Seq<Term<u64>>,
        k: int,
        j: int,
    ) -> bool {
        let at = total_children(self.current@.take(k)) + j;
        &&& at < sub_terms.len()
        &&& term_symbol(term_subterms(terms[k])[j]) == term_symbol(sub_terms[at])
        &&& term_subterms(term_subterms(terms[k])[j]) == term_subterms(sub_terms[at])
    }

    /// The layer over the committed configurations whose direct subterms
    /// are, in order, the terms of the layer below.
    pub fn assemble(&self, sub_terms: &Vec<Term<u64>>) -> (terms: Vec<Term<u64>>)
        requires
            sub_terms@.len() == total_children(self.current@),
        ensures
            self.layer_of(terms@),
            forall|k: int, j: int|
                0 <= k < terms@.len() && 0 <= j < term_subterms(terms@[k]).len()
                    ==> #[trigger] self.hangs(terms@, sub_terms@, k, j),
    {
        let mut terms: Vec<Term<u64>> = Vec::new();
        let mut offset: usize = 0;
        let mut k: usize = 0;
        while k < self.current.len()
            invariant
                0 <= k <= self.current@.len(),
                sub_terms@.len() == total_children(self.current@),
                offset == total_children(self.current@.take(k as int)),
                terms@.len() == k,
                forall|i: int|
                    0 <= i < k ==> term_symbol(#[trigger] terms@[i])
                        == self.current@[i].configuration.0 && term_subterms(terms@[i]).len()
                        == self.current@[i].configuration.1@.len(),
                forall|i: int, j: int|
                    0 <= i < k && 0 <= j < term_subterms(terms@[i]).len()
                        ==> #[trigger] self.hangs(terms@, sub_terms@, i, j),
            decreases self.current@.len() - k,
        {
            let arity: usize = self.current[k].configuration.1.len();
            proof {
                lemma_total_children(self.current@, k as int);
            }
            assert(offset + arity <= sub_terms.len());
            let mut subs: Vec<Term<u64>> = Vec::new();
            let mut j: usize = 0;
            while j < arity
                invariant
                    0 <= j <= arity,
                    offset + arity <= sub_terms.len(),
                    subs@.len() == j,
                    forall|i: int|
                        0 <= i < j ==> term_symbol(#[trigger] subs@[i]) == term_symbol(
                            sub_terms@[offset + i],
                        ) && term_subterms(subs@[i]) == term_subterms(sub_terms@[offset + i]),
                decreases arity - j,
            {
                subs.push(copy_term(&sub_terms[offset + j]));
                j += 1;
            }
            let term = new_term(self.current[k].configuration.0, subs);
            let ghost before = terms@;
            terms.push(term);
            proof {
                assert forall|i: int, j: int|
                    0 <= i < k + 1 && 0 <= j < term_subterms(terms@[i]).len() implies #[trigger] self.hangs(
                    terms@,
                    sub_terms@,
                    i,
                    j,
                ) by {
                    if i < k {
                        assert(terms@[i] == before[i]);
                        assert(self.hangs(before, sub_terms@, i, j));
                    }
                }
            }
            offset = offset + arity;
            k += 1;
        }
        terms
    }

    /// The fragment at `depth` with the given leaves, one pattern for each.
    pub fn new(
        env: &'a E,
        depth: usize,
        context: C,
        leaves: Vec<Q>,
        patterns: Vec<P>,
        kill_signal: Option<Receiver<()>>,
    ) -> (r: TermFragment<'a, E, Q, C, P>)
        requires
            leaves@.len() == patterns@.len(),
        ensures
            r.wf(),
            r.env == env,
            r.context == context,
            r.leaves == leaves,
            r.patterns == patterns,
            r.depth == depth,
            r.kill_signal == kill_signal,
            r.current@.len() == 0,
            r.next_fragment.is_none(),
            !r.visited,
            leaves@.len() > 0 ==> r.leaves_configurations@.len() == 1 && views(
                r.leaves_configurations@[0].list@,
            ) == leaves@[0].configurations_in(env) && r.leaves_configurations@[0].tried == 0,
    {
        let mut leaves_configurations: Vec<Candidates<Q>> = Vec::new();
        if leaves.len() > 0 {
            let list = leaves[0].configurations(env);
            leaves_configurations.push(Candidates { list, tried: 0 });
        }
        TermFragment {
            env,
            context,
            patterns,
            leaves,
            leaves_configurations,
            current: Vec::new(),
            next_fragment: None,
            visited: false,
            depth,
            kill_signal,
        }
    }
}


/// Whether `t` is a transition of the language of `env`: it leads, without
/// a label, from a configuration of some state into that state.
pub open spec fn of_language<E, Q: LanguageState<E>>(env: &E, t: TransitionView<Q::V, ()>) -> bool {
    exists|s: Q| s@ == t.2 && (#[trigger] s.configurations_in(env)).contains(t.0)
}

/// Whether `ts` holds a transition into `s` from each configuration of `s`.
pub open spec fn holds_all<E, Q: LanguageState<E>>(env: &E, ts: Seq<TransitionView<Q::V, ()>>, s: Q) -> bool {
    forall|k: int|
        0 <= k < s.configurations_in(env).len() ==> ts.contains(
            (#[trigger] s.configurations_in(env)[k], (), s@),
        )
}

/// Whether the state with view `v` is expanded in `ts`: a state with that
/// view has all its configurations there.
pub open spec fn expanded<E, Q: LanguageState<E>>(
    env: &E,
    ts: Seq<TransitionView<Q::V, ()>>,
    v: Q::V,
) -> bool {
    exists|s: Q| s@ == v && #[trigger] holds_all(env, ts, s)
}

/// Whether the state with view `v` is settled: it had a transition in
/// `old`, or it is expanded in `ts`.
pub open spec fn settled<E, Q: LanguageState<E>>(
    env: &E,
    old: Seq<TransitionView<Q::V, ()>>,
    ts: Seq<TransitionView<Q::V, ()>>,
    v: Q::V,
) -> bool {
    targets(old).contains(v) || expanded::<E, Q>(env, ts, v)
}

/// Whether `v` is met within `n` steps down from `q` in the language of
/// `env`.
pub open spec fn below<E, Q: LanguageState<E>>(env: &E, q: Q::V, v: Q::V, n: nat) -> bool
    decreases n,
{
    if n == 0 {
        v == q
    } else {
        below::<E, Q>(env, q, v, (n - 1) as nat) || exists|t: TransitionView<Q::V, ()>|
            #[trigger] of_language::<E, Q>(env, t) && below::<E, Q>(env, q, t.2, (n - 1) as nat)
                && t.0.1.contains(v)
    }
}

/// Whether `v` is met below `q` in the language of `env`.
pub open spec fn met_below<E, Q: LanguageState<E>>(env: &E, q: Q::V, v: Q::V) -> bool {
    exists|n: nat| below::<E, Q>(env, q, v, n)
}

/// Whether more than `steps` states are met below `q` in the language of
/// `env`.
pub open spec fn more_below_than<E, Q: LanguageState<E>>(env: &E, q: Q::V, steps: nat) -> bool {
    exists|met: Seq<Q::V>|
        #[trigger] met.no_duplicates() && met.len() > steps && forall|j: int|
            0 <= j < met.len() ==> met_below::<E, Q>(env, q, #[trigger] met[j])
}

/// The state of an exploration below `q`: `seen` holds the states that
/// were met, each once, each below `q`; each is `pending` or `processed`;
/// the processed ones are expanded; the transitions after the first
/// `first` of `ts` are of the language and lead into processed states, and
/// their children had a transition at the start or were met.
pub open spec fn exploring<E, Q: LanguageState<E>>(
    env: &E,
    q: Q::V,
    first: Seq<TransitionView<Q::V, ()>>,
    ts: Seq<TransitionView<Q::V, ()>>,
    seen: Seq<Q::V>,
    pending: Seq<Q::V>,
    processed: Seq<Q::V>,
) -> bool {
    &&& extends(first, ts)
    &&& seen.no_duplicates()
    &&& seen.len() == processed.len() + pending.len()
    &&& forall|j: int| 0 <= j < seen.len() ==> met_below::<E, Q>(env, q, #[trigger] seen[j])
    &&& forall|j: int|
        0 <= j < seen.len() ==> processed.contains(#[trigger] seen[j]) || pending.contains(seen[j])
    &&& forall|j: int| 0 <= j < pending.len() ==> seen.contains(#[trigger] pending[j])
    &&& forall|j: int| 0 <= j < processed.len() ==> seen.contains(#[trigger] processed[j])
    &&& forall|j: int|
        0 <= j < processed.len() ==> expanded::<E, Q>(env, ts, #[trigger] processed[j])
    &&& forall|j: int|
        first.len() <= j < ts.len() ==> of_language::<E, Q>(env, #[trigger] ts[j]) && seen.contains(
            ts[j].2,
        )
    &&& forall|j: int, m: int|
        first.len() <= j < ts.len() && 0 <= m < ts[j].0.1.len() ==> targets(first).contains(
            #[trigger] ts[j].0.1[m],
        ) || seen.contains(ts[j].0.1[m])
    &&& targets(first).contains(q) || seen.contains(q)
}

/// A state that is below `q`, and was not met before, is met and pending.
pub proof fn lemma_exploring_queue<E, Q: LanguageState<E>>(
    env: &E,
    q: Q::V,
    first: Seq<TransitionView<Q::V, ()>>,
    ts: Seq<TransitionView<Q::V, ()>>,
    seen: Seq<Q::V>,
    pending: Seq<Q::V>,
    processed: Seq<Q::V>,
    c: Q::V,
)
    requires
        exploring::<E, Q>(env, q, first, ts, seen, pending, processed),
        met_below::<E, Q>(env, q, c),
        !seen.contains(c),
    ensures
        exploring::<E, Q>(env, q, first, ts, seen.push(c), pending.push(c), processed),
{
    let met = seen.push(c);
    let queued = pending.push(c);
    crate::value::lemma_push_unique(seen, c);
    assert forall|x: Q::V| seen.contains(x) implies met.contains(x) by {
        let k = choose|k: int| 0 <= k < seen.len() && seen[k] == x;
        assert(met[k] == x);
    }
    assert forall|x: Q::V| pending.contains(x) implies queued.contains(x) by {
        let k = choose|k: int| 0 <= k < pending.len() && pending[k] == x;
        assert(queued[k] == x);
    }
    assert(met[seen.len() as int] == c);
    assert(queued[pending.len() as int] == c);
    assert forall|j: int| 0 <= j < met.len() implies met_below::<E, Q>(env, q, #[trigger] met[j]) && (processed.contains(met[j]) || queued.contains(
        met[j],
    )) by {
        if j < seen.len() {
            assert(met[j] == seen[j]);
        }
    }
    assert forall|j: int| 0 <= j < queued.len() implies met.contains(#[trigger] queued[j]) by {
        if j < pending.len() {
            assert(queued[j] == pending[j]);
        }
    }
}

/// One more transition of the language into the state in hand, whose
/// children had a transition at the start or were met, keeps the
/// exploration in order; so does one that is there already.
pub proof fn lemma_exploring_add<E, Q: LanguageState<E>>(
    env: &E,
    q: Q::V,
    first: Seq<TransitionView<Q::V, ()>>,
    ts: Seq<TransitionView<Q::V, ()>>,
    after: Seq<TransitionView<Q::V, ()>>,
    seen: Seq<Q::V>,
    pending: Seq<Q::V>,
    processed: Seq<Q::V>,
    t: TransitionView<Q::V, ()>,
)
    requires
        exploring::<E, Q>(env, q, first, ts, seen, pending, processed),
        of_language::<E, Q>(env, t),
        seen.contains(t.2),
        forall|m: int|
            0 <= m < t.0.1.len() ==> targets(first).contains(#[trigger] t.0.1[m]) || seen.contains(
                t.0.1[m],
            ),
        ts.contains(t) ==> after == ts,
        !ts.contains(t) ==> after == ts.push(t),
    ensures
        exploring::<E, Q>(env, q, first, after, seen, pending, processed),
        after.contains(t),
        forall|x: TransitionView<Q::V, ()>| ts.contains(x) ==> after.contains(x),
{
    if !ts.contains(t) {
        assert(after[ts.len() as int] == t);
        assert(after.take(ts.len() as int) =~= ts);
        assert(extends(ts, after));
        lemma_extends_trans(first, ts, after);
        assert forall|x: TransitionView<Q::V, ()>| ts.contains(x) implies after.contains(x) by {
            let k = choose|k: int| 0 <= k < ts.len() && ts[k] == x;
            assert(after[k] == x);
        }
        assert forall|j: int| 0 <= j < processed.len() implies expanded::<E, Q>(
            env,
            after,
            #[trigger] processed[j],
        ) by {
            assert(expanded::<E, Q>(env, ts, processed[j]));
            let s = choose|s: Q| s@ == processed[j] && #[trigger] holds_all(env, ts, s);
            assert(holds_all(env, after, s));
        }
        assert forall|j: int| first.len() <= j < after.len() implies of_language::<E, Q>(
            env,
            #[trigger] after[j],
        ) && seen.contains(after[j].2) by {
            if j < ts.len() {
                assert(after[j] == ts[j]);
            }
        }
        assert forall|j: int, m: int|
            first.len() <= j < after.len() && 0 <= m < after[j].0.1.len() implies targets(
            first,
        ).contains(#[trigger] after[j].0.1[m]) || seen.contains(after[j].0.1[m]) by {
            if j < ts.len() {
                assert(after[j] == ts[j]);
            }
        }
    }
}

/// A state whose configurations are all there has been processed.
pub proof fn lemma_exploring_done<E, Q: LanguageState<E>>(
    env: &E,
    q: Q::V,
    first: Seq<TransitionView<Q::V, ()>>,
    ts: Seq<TransitionView<Q::V, ()>>,
    seen: Seq<Q::V>,
    pending: Seq<Q::V>,
    processed: Seq<Q::V>,
    p: Q,
)
    requires
        exploring::<E, Q>(env, q, first, ts, seen, seq![p@] + pending, processed),
        holds_all(env, ts, p),
    ensures
        exploring::<E, Q>(env, q, first, ts, seen, pending, processed.push(p@)),
{
    let a = seq![p@] + pending;
    let done = processed.push(p@);
    assert(a[0] == p@);
    assert(seen.contains(p@));
    assert forall|j: int| 0 <= j < seen.len() implies done.contains(#[trigger] seen[j])
        || pending.contains(seen[j]) by {
        if processed.contains(seen[j]) {
            let k = choose|k: int| 0 <= k < processed.len() && processed[k] == seen[j];
            assert(done[k] == seen[j]);
        } else {
            let k = choose|k: int| 0 <= k < a.len() && a[k] == seen[j];
            if k == 0 {
                assert(done[processed.len() as int] == seen[j]);
            } else {
                assert(pending[k - 1] == seen[j]);
            }
        }
    }
    assert forall|j: int| 0 <= j < pending.len() implies seen.contains(#[trigger] pending[j]) by {
        assert(a[j + 1] == pending[j]);
    }
    assert forall|j: int| 0 <= j < done.len() implies seen.contains(#[trigger] done[j]) && expanded::<
        E,
        Q,
    >(env, ts, done[j]) by {
        if j < processed.len() {
            assert(done[j] == processed[j]);
        }
    }
}

/// The pending states may be taken in another order.
pub proof fn lemma_exploring_rotate<E, Q: LanguageState<E>>(
    env: &E,
    q: Q::V,
    first: Seq<TransitionView<Q::V, ()>>,
    ts: Seq<TransitionView<Q::V, ()>>,
    seen: Seq<Q::V>,
    pending: Seq<Q::V>,
    p: Q::V,
    processed: Seq<Q::V>,
)
    requires
        exploring::<E, Q>(env, q, first, ts, seen, pending.push(p), processed),
    ensures
        exploring::<E, Q>(env, q, first, ts, seen, seq![p] + pending, processed),
        seen.contains(p),
{
    let a = pending.push(p);
    let b = seq![p] + pending;
    assert(a[pending.len() as int] == p);
    assert forall|x: Q::V| a.contains(x) implies b.contains(x) by {
        let k = choose|k: int| 0 <= k < a.len() && a[k] == x;
        if k < pending.len() {
            assert(b[k + 1] == x);
        } else {
            assert(b[0] == x);
        }
    }
    assert forall|j: int| 0 <= j < b.len() implies seen.contains(#[trigger] b[j]) by {
        if j == 0 {
            assert(b[j] == a[pending.len() as int]);
        } else {
            assert(b[j] == a[j - 1]);
        }
    }
}

/// Adds to `aut` the transitions of the language of `env` that lead into
/// `q` and into the states below it, as far as `aut` does not include them
/// yet, taking at most `steps` states in hand; says whether that was
/// enough. If it was, `q` and the targets and children of the transitions
/// that were added are settled; if not, more than `steps` states are met
/// below `q`.
pub fn add_language_state<E, Q: LanguageState<E>>(
    q: Q,
    env: &E,
    aut: &mut Automaton<Q, NoLabel>,
    steps: usize,
) -> (done: bool)
    requires
        old(aut).wf(),
    ensures
        final(aut).wf(),
        final(aut).finals_view() == old(aut).finals_view(),
        extends(old(aut).transitions_view(), final(aut).transitions_view()),
        forall|j: int|
            old(aut).transitions_view().len() <= j < final(aut).transitions_view().len()
                ==> of_language::<E, Q>(env, #[trigger] final(aut).transitions_view()[j]),
        done ==> settled::<E, Q>(
            env,
            old(aut).transitions_view(),
            final(aut).transitions_view(),
            q@,
        ),
        done ==> forall|j: int|
            old(aut).transitions_view().len() <= j < final(aut).transitions_view().len()
                ==> expanded::<E, Q>(
                env,
                final(aut).transitions_view(),
                (#[trigger] final(aut).transitions_view()[j]).2,
            ),
        done ==> forall|j: int, m: int|
            old(aut).transitions_view().len() <= j < final(aut).transitions_view().len() && 0 <= m
                < final(aut).transitions_view()[j].0.1.len() ==> settled::<E, Q>(
                env,
                old(aut).transitions_view(),
                final(aut).transitions_view(),
                #[trigger] final(aut).transitions_view()[j].0.1[m],
            ),
        !done ==> more_below_than::<E, Q>(env, q@, steps as nat),
{
    let ghost first = aut.transitions_view();
    let ghost root = q@;
    assert(extends(first, first)) by {
        assert(first.take(first.len() as int) =~= first);
    }
    let mut pending: Vec<Q> = Vec::new();
    let mut seen: Vec<Q> = Vec::new();
    let ghost mut processed: Seq<Q::V> = Seq::empty();
    if !aut.includes(&q) {
        let one = q.copy();
        seen.push(one);
        pending.push(q);
        proof {
            assert(views(seen@) =~= seq![root]);
            assert(views(pending@) =~= seq![root]);
            assert(below::<E, Q>(env, root, root, 0));
            assert(views(seen@)[0] == root);
        }
    } else {
        assert(views(seen@) =~= Seq::<Q::V>::empty());
        assert(views(pending@) =~= Seq::<Q::V>::empty());
    }
    let mut left: usize = steps;
    while pending.len() > 0 && left > 0
        invariant
            first == old(aut).transitions_view(),
            aut.wf(),
            aut.finals_view() == old(aut).finals_view(),
            exploring::<E, Q>(
                env,
                root,
                first,
                aut.transitions_view(),
                views(seen@),
                views(pending@),
                processed,
            ),
            processed.len() + left == steps,
        decreases left,
    {
        left = left - 1;
        let ghost before = pending@;
        let p = pending.pop().unwrap();
        proof {
            assert(views(before) =~= views(pending@).push(p@));
            lemma_exploring_rotate::<E, Q>(
                env,
                root,
                first,
                aut.transitions_view(),
                views(seen@),
                views(pending@),
                p@,
                processed,
            );
        }
        let confs = p.configurations(env);
        let mut c: usize = 0;
        while c < confs.len()
            invariant
                0 <= c <= confs@.len(),
                views(confs@) == p.configurations_in(env),
                first == old(aut).transitions_view(),
                aut.wf(),
                aut.finals_view() == old(aut).finals_view(),
                views(seen@).contains(p@),
                exploring::<E, Q>(
                    env,
                    root,
                    first,
                    aut.transitions_view(),
                    views(seen@),
                    seq![p@] + views(pending@),
                    processed,
                ),
                forall|k: int|
                    0 <= k < c ==> aut.transitions_view().contains(
                        (#[trigger] p.configurations_in(env)[k], (), p@),
                    ),
            decreases confs@.len() - c,
        {
            let conf = confs[c].copy();
            let ghost t = (conf@, (), p@);
            proof {
                assert(views(confs@)[c as int] == t.0);
                assert(p.configurations_in(env).contains(t.0));
                assert(of_language::<E, Q>(env, t));
            }
            let mut m: usize = 0;
            while m < conf.1.len()
                invariant
                    0 <= m <= conf.1@.len(),
                    t == (conf@, (), p@),
                    of_language::<E, Q>(env, t),
                    first == old(aut).transitions_view(),
                    aut.wf(),
                    aut.finals_view() == old(aut).finals_view(),
                    views(seen@).contains(p@),
                    exploring::<E, Q>(
                        env,
                        root,
                        first,
                        aut.transitions_view(),
                        views(seen@),
                        seq![p@] + views(pending@),
                        processed,
                    ),
                    forall|k: int|
                        0 <= k < m ==> targets(first).contains(#[trigger] t.0.1[k]) || views(
                            seen@,
                        ).contains(t.0.1[k]),
                decreases conf.1@.len() - m,
            {
                let ghost seen_before = seen@;
                let ghost pending_before = pending@;
                let ghost child = conf.1@[m as int]@;
                proof {
                    assert(t.0.1[m as int] == child);
                }
                if !aut.includes(&conf.1[m]) {
                    let one = conf.1[m].copy();
                    let fresh = insert_unique(&mut seen, one);
                    if fresh {
                        let two = conf.1[m].copy();
                        pending.push(two);
                        proof {
                            lemma_views_push(seen_before, one);
                            lemma_views_push(pending_before, two);
                            lemma_below_child::<E, Q>(env, root, t, m as int, views(seen_before));
                            lemma_exploring_queue::<E, Q>(
                                env,
                                root,
                                first,
                                aut.transitions_view(),
                                views(seen_before),
                                seq![p@] + views(pending_before),
                                processed,
                                child,
                            );
                            assert((seq![p@] + views(pending_before)).push(child) =~= seq![p@] + views(
                                pending@,
                            ));
                        }
                    }
                    proof {
                        assert(views(seen@).to_set().contains(child));
                        assert(views(seen@).contains(child));
                    }
                } else {
                    proof {
                        lemma_included_is_settled::<E, Q>(
                            env,
                            root,
                            first,
                            aut.transitions_view(),
                            views(seen@),
                            seq![p@] + views(pending@),
                            processed,
                            child,
                        );
                    }
                }
                proof {
                    let sv = views(seen@);
                    assert forall|k: int| 0 <= k < m + 1 implies targets(first).contains(
                        #[trigger] t.0.1[k],
                    ) || sv.contains(t.0.1[k]) by {
                        if k < m {
                            if views(seen_before).contains(t.0.1[k]) {
                                assert(views(seen_before).to_set().contains(t.0.1[k]));
                                assert(sv.to_set().contains(t.0.1[k]));
                            }
                        }
                    }
                    assert(views(seen_before).to_set().contains(p@));
                    assert(sv.to_set().contains(p@));
                }
                m += 1;
            }
            let ghost ts_before = aut.transitions_view();
            aut.add(conf, NoLabel, p.copy());
            proof {
                let ts = aut.transitions_view();
                lemma_exploring_add::<E, Q>(
                    env,
                    root,
                    first,
                    ts_before,
                    ts,
                    views(seen@),
                    seq![p@] + views(pending@),
                    processed,
                    t,
                );
                assert forall|k: int| 0 <= k < c + 1 implies ts.contains(
                    (#[trigger] p.configurations_in(env)[k], (), p@),
                ) by {
                    if k < c {
                        assert(ts_before.contains((p.configurations_in(env)[k], (), p@)));
                    }
                }
            }
            c += 1;
        }
        proof {
            assert(holds_all(env, aut.transitions_view(), p));
            lemma_exploring_done::<E, Q>(
                env,
                root,
                first,
                aut.transitions_view(),
                views(seen@),
                views(pending@),
                processed,
                p,
            );
            processed = processed.push(p@);
        }
    }
    let done = pending.len() == 0;
    proof {
        let ts = aut.transitions_view();
        let sv = views(seen@);
        assert forall|j: int| first.len() <= j < ts.len() implies of_language::<E, Q>(
            env,
            #[trigger] ts[j],
        ) by {}
        if done {
            assert(views(pending@) =~= Seq::<Q::V>::empty());
            assert forall|v: Q::V| sv.contains(v) implies expanded::<E, Q>(env, ts, v) by {
                let k = choose|k: int| 0 <= k < sv.len() && sv[k] == v;
                assert(processed.contains(sv[k]) || views(pending@).contains(sv[k]));
                let i = choose|i: int| 0 <= i < processed.len() && processed[i] == v;
                assert(expanded::<E, Q>(env, ts, processed[i]));
            }
            assert forall|j: int| first.len() <= j < ts.len() implies expanded::<E, Q>(
                env,
                ts,
                (#[trigger] ts[j]).2,
            ) by {
                assert(sv.contains(ts[j].2));
            }
            assert forall|j: int, m: int|
                first.len() <= j < ts.len() && 0 <= m < ts[j].0.1.len() implies settled::<E, Q>(
                env,
                first,
                ts,
                #[trigger] ts[j].0.1[m],
            ) by {
                assert(targets(first).contains(ts[j].0.1[m]) || sv.contains(ts[j].0.1[m]));
            }
        } else {
            assert(sv.no_duplicates() && sv.len() > steps);
        }
    }
    done
}

/// A child of a transition of the language into a state that was met
/// below `q` is below `q`.
pub proof fn lemma_below_child<E, Q: LanguageState<E>>(
    env: &E,
    q: Q::V,
    t: TransitionView<Q::V, ()>,
    m: int,
    seen: Seq<Q::V>,
)
    requires
        of_language::<E, Q>(env, t),
        seen.contains(t.2),
        forall|j: int| 0 <= j < seen.len() ==> met_below::<E, Q>(env, q, #[trigger] seen[j]),
        0 <= m < t.0.1.len(),
    ensures
        met_below::<E, Q>(env, q, t.0.1[m]),
{
    let k = choose|k: int| 0 <= k < seen.len() && seen[k] == t.2;
    let n = choose|n: nat| below::<E, Q>(env, q, seen[k], n);
    assert(t.0.1.contains(t.0.1[m]));
    assert(below::<E, Q>(env, q, t.0.1[m], n + 1));
}

/// A state that has a transition had one at the start, or was met.
pub proof fn lemma_included_is_settled<E, Q: LanguageState<E>>(
    env: &E,
    q: Q::V,
    first: Seq<TransitionView<Q::V, ()>>,
    ts: Seq<TransitionView<Q::V, ()>>,
    seen: Seq<Q::V>,
    pending: Seq<Q::V>,
    processed: Seq<Q::V>,
    v: Q::V,
)
    requires
        exploring::<E, Q>(env, q, first, ts, seen, pending, processed),
        targets(ts).to_set().contains(v),
    ensures
        targets(first).contains(v) || seen.contains(v),
{
    let i = choose|i: int| 0 <= i < targets(ts).len() && targets(ts)[i] == v;
    assert(ts[i].2 == v);
    if i < first.len() {
        assert(ts.take(first.len() as int)[i] == first[i]);
        assert(targets(first)[i] == v);
    } else {
        assert(seen.contains(ts[i].2));
    }
}

/// The automaton of the language of `env` below `q`, with `q` as its
/// accepting state, explored by taking at most `steps` states in hand:
/// `q`, and the targets and the children of the transitions, are expanded.
/// `None` only if more than `steps` states are met below `q`.
pub fn from_state<E, Q: LanguageState<E>>(q: Q, env: &E, steps: usize) -> (r: Option<Automaton<Q, NoLabel>>)
    ensures
        match r {
            Some(aut) => {
                &&& aut.wf()
                &&& aut.finals_view() == seq![q@]
                &&& expanded::<E, Q>(env, aut.transitions_view(), q@)
                &&& forall|j: int|
                    0 <= j < aut.transitions_view().len() ==> of_language::<E, Q>(
                        env,
                        #[trigger] aut.transitions_view()[j],
                    ) && expanded::<E, Q>(env, aut.transitions_view(), aut.transitions_view()[j].2)
                &&& forall|j: int, m: int|
                    0 <= j < aut.transitions_view().len() && 0 <= m
                        < aut.transitions_view()[j].0.1.len() ==> expanded::<E, Q>(
                        env,
                        aut.transitions_view(),
                        #[trigger] aut.transitions_view()[j].0.1[m],
                    )
            },
            None => more_below_than::<E, Q>(env, q@, steps as nat),
        },
{
    let mut aut: Automaton<Q, NoLabel> = Automaton::new();
    let ghost first = aut.transitions_view();
    let done = add_language_state(q.copy(), env, &mut aut, steps);
    if !done {
        return None;
    }
    let ghost ts = aut.transitions_view();
    aut.set_final(q);
    proof {
        assert(aut.finals_view() =~= seq![q@]);
        assert(targets(first) =~= Seq::<Q::V>::empty());
        assert(settled::<E, Q>(env, first, ts, q@));
        assert forall|j: int, m: int| 0 <= j < ts.len() && 0 <= m < ts[j].0.1.len() implies expanded::<
            E,
            Q,
        >(env, ts, #[trigger] ts[j].0.1[m]) by {
            assert(settled::<E, Q>(env, first, ts, ts[j].0.1[m]));
        }
    }
    Some(aut)
}

} // verus!
