//! Ground terms, as the `terms` crate holds them.
use vstd::prelude::*;

verus! {

/// `terms::Term`, a ground term. Nothing inside it is seen here: what a
/// term holds is spoken of through the two names below.
#[verifier::external_type_specification]
#[verifier::external_body]
#[verifier::reject_recursive_types(F)]
pub struct ExTerm<F>(terms::Term<F>);

/// The top symbol of a term: what `Term::symbol` returns.
pub uninterp spec fn term_symbol(t: terms::Term<u64>) -> u64;

/// The direct subterms of a term, in order: what `Term::sub_terms` returns.
pub uninterp spec fn term_subterms(t: terms::Term<u64>) -> Seq<terms::Term<u64>>;

/// `Term::new`: the term with top symbol `f` and the direct subterms
/// `subs`. The constructor stores both as they are given.
#[verifier::external_body]
pub(crate) fn new_term(f: u64, subs: Vec<terms::Term<u64>>) -> (t: terms::Term<u64>)
    ensures
        term_symbol(t) == f,
        term_subterms(t) == subs@,
{
    terms::Term::new(f, subs)
}

/// `Term::clone`: a term with the same top symbol and the same direct
/// subterms.
#[verifier::external_body]
pub(crate) fn copy_term(t: &terms::Term<u64>) -> (r: terms::Term<u64>)
    ensures
        term_symbol(r) == term_symbol(*t),
        term_subterms(r) == term_subterms(*t),
{
    t.clone()
}

} // verus!
