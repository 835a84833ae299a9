//! Finite tree automata over ranked alphabets: a bottom-up automaton with
//! labeled transitions, an alternating variant, the product construction,
//! and search engines that enumerate configurations and terms.
use vstd::prelude::*;

pub mod value;
pub mod label;
pub mod utils;
pub mod term;
pub mod ranked;
pub mod bottom_up;
pub mod language;
pub mod alternating;
pub mod inter;

pub use crate::inter::{inter, inter_within, Product, ProductConfigurations};
pub use crate::label::NoLabel;
pub use crate::language::{ConfigurationIterator, Language};
pub use crate::ranked::{Rank, Sorted, SortedWith};
pub use crate::utils::{
    combinations, combinations_option, combinations_weak_option, Combinations, CombinationsOption,
    Mux,
};
pub use crate::value::Value;

verus! {

/// A term constructor. Its arity, where it has one, is carried by a
/// [`Rank`].
pub type Symbol = u64;

} // verus!
