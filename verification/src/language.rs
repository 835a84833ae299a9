//! What recognizers of terms have in common.
use vstd::prelude::*;
use crate::bottom_up::{Automaton, Configuration, CloneConfigurations};
use crate::value::Value;

verus! {

/// A set of terms.
pub trait Language {

}

impl<Q: Value, L: Value> Language for Automaton<Q, L> {

}

/// A source of configurations, given out one at a time.
pub trait ConfigurationIterator<Q: Value> {
    /// The views of the configurations that are still to come.
    spec fn pending(&self) -> Seq<(crate::Symbol, Seq<Q::V>)>;

    /// Whether the source is in a state from which it can go on.
    spec fn ready(&self) -> bool;

    fn next_configuration(&mut self) -> (r: Option<Configuration<Q>>)
        requires
            old(self).ready(),
        ensures
            final(self).ready(),
            match r {
                Some(c) => {
                    &&& old(self).pending().len() > 0
                    &&& c@ == old(self).pending()[0]
                    &&& final(self).pending() == old(self).pending().skip(1)
                },
                None => old(self).pending().len() == 0 && final(self).pending() == old(self).pending(),
            },
    ;
}

impl<Q: Value, L: Value> ConfigurationIterator<Q> for CloneConfigurations<Q, L> {
    open spec fn pending(&self) -> Seq<(crate::Symbol, Seq<Q::V>)> {
        self.remaining()
    }

    open spec fn ready(&self) -> bool {
        self.wf()
    }

    fn next_configuration(&mut self) -> (r: Option<Configuration<Q>>) {
        self.next()
    }
}

} // verus!
