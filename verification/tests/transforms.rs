use terms::Term;
use tree_automata::alternating;
use tree_automata::bottom_up::search::Representatives;
use tree_automata::bottom_up::width_search::from_state;
use tree_automata::bottom_up::{Automaton, CloneConfigurations, Configuration, Normalizer, Pattern};
use tree_automata::inter::{inter, inter_within, product_configuration, Product};
use tree_automata::label::NoLabel;
use tree_automata::language::ConfigurationIterator;
use tree_automata::ranked::{Rank, Sorted, SortedWith};
use tree_automata::value::Value;

const A: u64 = 'a' as u64;
const B: u64 = 'b' as u64;
const F: u64 = 'f' as u64;

fn terms_of<Q: Value, L: Value>(aut: &Automaton<Q, L>) -> Vec<Term<u64>> {
    let mut it = Representatives::new(aut);
    let mut out = Vec::new();
    while let Some(t) = it.next() {
        out.push(t);
    }
    out
}

#[test]
fn intersection_accepts_what_both_accept() {
    let mut x: Automaton<u64, NoLabel> = Automaton::new();
    x.add(Configuration(A, vec![]), NoLabel, 1);
    x.set_final(1);
    let mut y: Automaton<u64, NoLabel> = Automaton::new();
    y.add(Configuration(A, vec![]), NoLabel, 2);
    y.set_final(2);
    let both = inter(&[&x, &y]).unwrap();
    assert_eq!(both.transitions.len(), 1);
    assert_eq!(both.transitions[0].0 .0, A);
    assert!(both.transitions[0].0 .1.is_empty());
    assert_eq!(both.transitions[0].2.states, vec![1, 2]);
    assert_eq!(both.final_states.len(), 1);
    assert_eq!(both.final_states[0].states, vec![1, 2]);
    assert_eq!(terms_of(&both), vec![Term::new(A, vec![])]);
}

#[test]
fn intersection_rejects_what_one_rejects() {
    let mut x: Automaton<u64, NoLabel> = Automaton::new();
    x.add(Configuration(A, vec![]), NoLabel, 1);
    x.add(Configuration(B, vec![]), NoLabel, 1);
    x.add(Configuration(F, vec![1]), NoLabel, 1);
    x.set_final(1);
    let mut y: Automaton<u64, NoLabel> = Automaton::new();
    y.add(Configuration(A, vec![]), NoLabel, 5);
    y.add(Configuration(F, vec![5]), NoLabel, 6);
    y.set_final(6);
    let both = inter(&[&x, &y]).unwrap();
    let found = terms_of(&both);
    assert_eq!(found, vec![Term::new(F, vec![Term::new(A, vec![])])]);
    assert_eq!(both.transitions.len(), 2);
    assert_eq!(both.len(), 2);
}

#[test]
fn intersection_within_too_few_steps_gives_up() {
    let mut x: Automaton<u64, NoLabel> = Automaton::new();
    x.add(Configuration(A, vec![]), NoLabel, 1);
    x.add(Configuration(F, vec![1]), NoLabel, 2);
    x.set_final(2);
    assert!(inter_within(&[&x, &x], 1).is_none());
    assert!(inter_within(&[&x, &x], 2).is_some());
}

#[test]
fn product_of_a_tuple_of_configurations() {
    let confs = vec![
        (Configuration(F, vec![1u64, 2]), 7u64),
        (Configuration(F, vec![3, 4]), 8),
    ];
    let (conf, label) = product_configuration(&confs);
    assert_eq!(conf.0, F);
    assert_eq!(conf.1.len(), 2);
    assert_eq!(conf.1[0].states, vec![1, 3]);
    assert_eq!(conf.1[1].states, vec![2, 4]);
    assert_eq!(label, 7);
}

#[test]
fn product_states_compare_by_their_states() {
    let p = Product::new(&[1u64, 2]);
    let q = Product::from_vec(vec![1u64, 2]);
    let r = Product::from_vec(vec![2u64, 1]);
    assert!(p.same(&q));
    assert!(!p.same(&r));
    assert_eq!(p.copy().states, vec![1, 2]);
}

#[test]
fn product_configurations_of_a_product_state() {
    let mut x: Automaton<u64, NoLabel> = Automaton::new();
    x.add(Configuration(F, vec![1]), NoLabel, 2);
    x.add(Configuration(A, vec![]), NoLabel, 2);
    let p = Product::new(&[2u64, 2]);
    let mut it = p.configurations(&[&x, &x]);
    let mut seen = Vec::new();
    while let Some((conf, _)) = it.next() {
        seen.push((conf.0, conf.1.iter().map(|s| s.states.clone()).collect::<Vec<_>>()));
    }
    assert_eq!(seen, vec![(F, vec![vec![1, 1]]), (A, vec![])]);
}

#[test]
fn complement_accepts_the_rest() {
    let mut x: Automaton<u64, NoLabel> = Automaton::new();
    x.add(Configuration(A, vec![]), NoLabel, 1);
    x.set_final(1);
    let mut dead: Automaton<u64, NoLabel> = Automaton::new();
    dead.add(Configuration(A, vec![]), NoLabel, 0);
    dead.add(Configuration(B, vec![]), NoLabel, 0);
    dead.add(Configuration(F, vec![0]), NoLabel, 0);
    dead.add(Configuration(F, vec![1]), NoLabel, 0);
    let alphabet = [Rank(A, 0), Rank(B, 0), Rank(F, 1)];
    x.complete_with(&alphabet, &dead, &|q: &u64| *q, &|r: &u64| *r);
    assert_eq!(x.transitions.len(), 4);
    assert_eq!(x.states_for_configuration(&Configuration(A, vec![])), vec![(1, NoLabel)]);
    assert_eq!(x.states_for_configuration(&Configuration(B, vec![])), vec![(0, NoLabel)]);
    assert_eq!(x.states_for_configuration(&Configuration(F, vec![1])), vec![(0, NoLabel)]);
    assert_eq!(x.states_for_configuration(&Configuration(F, vec![0])), vec![(0, NoLabel)]);
    x.complement();
    assert_eq!(x.final_states(), vec![0]);
    let accepted = terms_of(&x);
    assert!(!accepted.contains(&Term::new(A, vec![])));
    assert!(accepted.contains(&Term::new(B, vec![])));
    assert!(accepted.contains(&Term::new(F, vec![Term::new(A, vec![])])));
}

struct Counter(u64);

impl Normalizer<u64, NoLabel> for Counter {
    fn normalize(&mut self, _configuration: &Configuration<u64>) -> (u64, NoLabel) {
        self.0 += 1;
        (self.0, NoLabel)
    }
}

#[test]
fn add_normalized_names_the_inner_nodes() {
    let mut x: Automaton<u64, NoLabel> = Automaton::new();
    x.add(Configuration(A, vec![]), NoLabel, 1);
    let pattern = Pattern::Cons(
        F,
        vec![Pattern::Cons(A, vec![]), Pattern::Cons(F, vec![Pattern::Var(1)])],
    );
    let mut fresh = Counter(100);
    let top = x.add_normalized(&pattern, &mut fresh);
    assert_eq!(top, 102);
    assert_eq!(x.transitions.len(), 3);
    assert_eq!(x.states_for_configuration(&Configuration(F, vec![1])), vec![(101, NoLabel)]);
    assert_eq!(x.states_for_configuration(&Configuration(F, vec![1, 101])), vec![(102, NoLabel)]);
    let again = x.add_normalized(&pattern, &mut fresh);
    assert_eq!(again, 102);
    assert_eq!(x.transitions.len(), 3);
}

#[test]
fn alternating_holds_the_bottom_up_transitions() {
    let mut x: Automaton<u64, u64> = Automaton::new();
    x.add(Configuration(F, vec![1, 2]), 0, 3);
    x.add(Configuration(F, vec![2, 1]), 0, 3);
    x.add(Configuration(A, vec![]), 0, 1);
    x.set_final(3);
    let alt = alternating::Automaton::from_bottom_up(&x);
    assert_eq!(alt.states(), vec![3, 1]);
    assert!(alt.is_initial(&3));
    assert!(!alt.is_initial(&1));
    let of3 = alt.clauses_for_state(&3);
    assert_eq!(of3.len(), 1);
    assert_eq!(of3[0].0, F);
    assert_eq!(*of3[0].1, vec![vec![(0, 1), (1, 2)], vec![(0, 2), (1, 1)]]);
    let of1 = alt.clauses_for_state(&1);
    assert_eq!(of1.len(), 1);
    assert_eq!(*of1[0].1, vec![Vec::<(u32, u64)>::new()]);
    assert!(alt.clauses_for_state(&9).is_empty());
}

#[test]
fn alternating_add_and_map() {
    let mut alt: alternating::Automaton<u64, u32> = alternating::Automaton::new();
    alt.add(&1, F, vec![(0, 2)]);
    alt.add(&1, F, vec![(0, 3)]);
    alt.add(&2, A, vec![]);
    alt.add_transition(&Configuration(F, vec![7, 8]), &2);
    assert!(alt.set_initial(1));
    assert!(!alt.set_initial(1));
    let mapped: alternating::Automaton<u64, u32> = alt.map_states(&|q: &u64| *q % 2);
    assert_eq!(mapped.states(), vec![1, 0]);
    assert!(mapped.is_initial(&1));
    let of1 = mapped.clauses_for_state(&1);
    assert_eq!(*of1[0].1, vec![vec![(0, 0)], vec![(0, 1)]]);
    let of0 = mapped.clauses_for_state(&0);
    assert_eq!(of0.len(), 2);
    assert_eq!(of0[0].0, A);
    assert_eq!(of0[1].0, F);
    assert_eq!(*of0[1].1, vec![vec![(0, 1), (1, 0)]]);
}

#[test]
fn automaton_of_a_language_state() {
    let mut x: Automaton<u64, NoLabel> = Automaton::new();
    x.add(Configuration(A, vec![]), NoLabel, 1);
    x.add(Configuration(F, vec![1]), NoLabel, 2);
    x.add(Configuration(F, vec![2]), NoLabel, 2);
    x.add(Configuration(B, vec![]), NoLabel, 3);
    let below = from_state(2u64, &x, 100).unwrap();
    assert_eq!(below.transitions.len(), 3);
    assert_eq!(below.final_states(), vec![2]);
    assert!(below.includes(&1));
    assert!(!below.includes(&3));
    assert!(from_state(2u64, &x, 1).is_none());
}

#[test]
fn ranked_and_sorted_values() {
    let r = Rank(F, 2);
    assert_eq!(r.arity(), 2);
    assert!(r.same(&Rank(F, 2)));
    assert!(!r.same(&Rank(F, 1)));
    let s = Sorted::new(5u64, 9u64);
    assert_eq!(*s.sort(), 9);
    assert_eq!(*(1u64, 2u64).sort(), 2);
    assert!(s.same(&Sorted(5, 9)));
    assert_eq!(NoLabel.to_text(), "");
    assert!(Rank(9u64, 1).less(&Rank(2u64, 2)));
    assert!(Rank(1u64, 2).less(&Rank(2u64, 2)));
    assert!(!Rank(2u64, 2).less(&Rank(2u64, 2)));
    assert!(Sorted(9u64, 1u64).less(&Sorted(2u64, 2u64)));
    assert!(!Sorted(3u64, 2u64).less(&Sorted(2u64, 2u64)));
}

#[test]
fn clone_configurations_drops_the_labels() {
    let mut x: Automaton<u64, u64> = Automaton::new();
    x.add(Configuration(A, vec![]), 4, 1);
    x.add(Configuration(F, vec![1]), 5, 1);
    let mut it = CloneConfigurations::new(x.configurations_for_state(&1));
    let first = it.next_configuration().unwrap();
    assert_eq!((first.0, first.1), (A, vec![]));
    let second = it.next().unwrap();
    assert_eq!((second.0, second.1), (F, vec![1]));
    assert!(it.next().is_none());
}

#[test]
fn completion_keeps_the_arities() {
    let mut x: Automaton<u64, NoLabel> = Automaton::new();
    x.add(Configuration(A, vec![]), NoLabel, 1);
    let mut other: Automaton<u32, NoLabel> = Automaton::new();
    other.add(Configuration(A, vec![]), NoLabel, 7);
    other.add(Configuration(F, vec![7, 7]), NoLabel, 7);
    other.add(Configuration(F, vec![1, 7]), NoLabel, 8);
    let alphabet = [Rank(F, 2)];
    assert_eq!(x.pool(&other, &|r: &u32| *r as u64), vec![1, 7, 8]);
    x.complete_with(&alphabet, &other, &|q: &u64| *q as u32, &|r: &u32| *r as u64);
    for t in x.transitions.iter().skip(1) {
        assert_eq!(t.0 .0, F);
        assert_eq!(t.0 .1.len(), 2);
    }
    assert_eq!(x.states_for_configuration(&Configuration(F, vec![7, 7])), vec![(7, NoLabel)]);
    assert_eq!(x.states_for_configuration(&Configuration(F, vec![1, 7])), vec![(8, NoLabel)]);
    assert!(x.states_for_configuration(&Configuration(F, vec![1, 1])).is_empty());
    assert_eq!(x.transitions.len(), 3);
}

#[test]
fn language_state_skips_what_is_included() {
    let mut x: Automaton<u64, NoLabel> = Automaton::new();
    x.add(Configuration(A, vec![]), NoLabel, 1);
    x.add(Configuration(F, vec![1]), NoLabel, 2);
    x.add(Configuration(F, vec![2, 3]), NoLabel, 4);
    x.add(Configuration(B, vec![]), NoLabel, 3);
    let mut partial: Automaton<u64, NoLabel> = Automaton::new();
    partial.add(Configuration(B, vec![9]), NoLabel, 2);
    let done = tree_automata::bottom_up::width_search::add_language_state(4u64, &x, &mut partial, 10);
    assert!(done);
    assert_eq!(partial.transitions.len(), 3);
    assert!(partial.includes(&4));
    assert!(partial.includes(&3));
    assert!(!partial.includes(&1));
}

#[test]
fn complement_drops_accepting_states_without_transitions() {
    let mut x: Automaton<u64, NoLabel> = Automaton::new();
    x.add(Configuration(A, vec![]), NoLabel, 1);
    x.set_final(5);
    x.complement();
    assert_eq!(x.final_states(), vec![1]);
    x.complement();
    assert!(x.final_states().is_empty());
}
