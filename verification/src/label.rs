//! Transition labels.
use vstd::prelude::*;
use crate::value::Value;

verus! {

/// The empty label, for automata whose transitions carry no annotation.
#[derive(Clone, Copy, Debug, PartialEq, Eq, Hash)]
pub struct NoLabel;

impl View for NoLabel {
    type V = ();

    open spec fn view(&self) -> () {
        ()
    }
}

impl Value for NoLabel {
    fn same(&self, other: &Self) -> (r: bool) {
        true
    }

    fn copy(&self) -> (r: Self) {
        NoLabel
    }
}

impl NoLabel {
    /// The text of the empty label: nothing.
    pub fn to_text(&self) -> (r: String)
        ensures
            r@ == Seq::<char>::empty(),
    {
        String::new()
    }
}

} // verus!
