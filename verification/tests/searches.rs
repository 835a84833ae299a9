use terms::Term;
use tree_automata::bottom_up::search::{CommonConfigurations, Representatives};
use tree_automata::bottom_up::width_search::{
    Indexed, Killed, LanguageState, SearchContext, SearchPattern, Step, TermFragment,
};
use tree_automata::bottom_up::{Automaton, Configuration};
use tree_automata::label::NoLabel;

const AB: u64 = 1;
const BC: u64 = 2;
const I_AB: u64 = 3;
const J_AB: u64 = 4;
const K_AB: u64 = 5;
const L_AB: u64 = 6;
const L_BC: u64 = 7;
const M_BC: u64 = 8;
const N_BC: u64 = 9;
const O_BC: u64 = 10;
const FG: u64 = 11;
const GH: u64 = 12;

fn sym(c: char) -> u64 {
    c as u64
}

fn leaves() -> Automaton<u64, NoLabel> {
    let mut a = Automaton::new();
    a.add(Configuration(sym('a'), vec![]), NoLabel, AB);
    a.add(Configuration(sym('b'), vec![]), NoLabel, AB);
    a.add(Configuration(sym('b'), vec![]), NoLabel, BC);
    a.add(Configuration(sym('c'), vec![]), NoLabel, BC);
    a
}

fn example() -> Automaton<u64, NoLabel> {
    let mut a = leaves();
    a.add(Configuration(sym('i'), vec![AB]), NoLabel, I_AB);
    a.add(Configuration(sym('j'), vec![AB]), NoLabel, J_AB);
    a.add(Configuration(sym('k'), vec![AB]), NoLabel, K_AB);
    a.add(Configuration(sym('l'), vec![AB]), NoLabel, L_AB);
    a.add(Configuration(sym('l'), vec![BC]), NoLabel, L_BC);
    a.add(Configuration(sym('m'), vec![BC]), NoLabel, M_BC);
    a.add(Configuration(sym('n'), vec![BC]), NoLabel, N_BC);
    a.add(Configuration(sym('o'), vec![BC]), NoLabel, O_BC);
    a.add(Configuration(sym('f'), vec![I_AB]), NoLabel, FG);
    a.add(Configuration(sym('f'), vec![J_AB]), NoLabel, FG);
    a.add(Configuration(sym('g'), vec![K_AB]), NoLabel, FG);
    a.add(Configuration(sym('g'), vec![L_AB]), NoLabel, FG);
    a.add(Configuration(sym('g'), vec![L_BC]), NoLabel, GH);
    a.add(Configuration(sym('g'), vec![M_BC]), NoLabel, GH);
    a.add(Configuration(sym('h'), vec![N_BC]), NoLabel, GH);
    a.add(Configuration(sym('h'), vec![O_BC]), NoLabel, GH);
    a
}

fn shape(c: &Configuration<u64>) -> (u64, Vec<u64>) {
    (c.0, c.1.clone())
}

#[test]
fn configurations_for_state_of_the_leaves() {
    let a = leaves();
    let ab: Vec<(u64, Vec<u64>)> = a.configurations_for_state(&AB).iter().map(|(c, _)| shape(c)).collect();
    assert_eq!(ab, vec![(sym('a'), vec![]), (sym('b'), vec![])]);
    let bc: Vec<(u64, Vec<u64>)> = a.configurations_for_state(&BC).iter().map(|(c, _)| shape(c)).collect();
    assert_eq!(bc, vec![(sym('b'), vec![]), (sym('c'), vec![])]);
}

#[test]
fn common_configurations_share_their_symbol() {
    let a = example();
    let automata = [&a, &a];
    let positions = [FG, GH];
    let mut it = CommonConfigurations::new(&automata, &positions);
    let mut found = Vec::new();
    while let Some(tuple) = it.next() {
        assert_eq!(tuple.len(), 2);
        assert_eq!(tuple[0].0 .0, tuple[1].0 .0);
        found.push((shape(&tuple[0].0), shape(&tuple[1].0)));
    }
    assert_eq!(
        found,
        vec![
            ((sym('g'), vec![K_AB]), (sym('g'), vec![L_BC])),
            ((sym('g'), vec![K_AB]), (sym('g'), vec![M_BC])),
            ((sym('g'), vec![L_AB]), (sym('g'), vec![L_BC])),
            ((sym('g'), vec![L_AB]), (sym('g'), vec![M_BC])),
        ]
    );
    let positions = [L_AB, L_BC];
    let mut it = Automaton::common_configurations(&automata, &positions);
    let pair = it.next().unwrap();
    assert_eq!(shape(&pair[0].0), (sym('l'), vec![AB]));
    assert_eq!(shape(&pair[1].0), (sym('l'), vec![BC]));
    assert!(it.next().is_none());
}

#[test]
fn common_configurations_over_copies_are_diagonal() {
    let a = example();
    let automata = [&a, &a, &a];
    let positions = [AB, AB, AB];
    let mut it = CommonConfigurations::new(&automata, &positions);
    let mut count = 0;
    while let Some(tuple) = it.next() {
        assert_eq!(shape(&tuple[0].0), shape(&tuple[1].0));
        assert_eq!(shape(&tuple[1].0), shape(&tuple[2].0));
        count += 1;
    }
    assert_eq!(count, a.configurations_for_state(&AB).len());
}

#[test]
fn common_configurations_without_positions_yield_nothing() {
    let automata: [&Automaton<u64, NoLabel>; 0] = [];
    let positions: [u64; 0] = [];
    let mut it = CommonConfigurations::new(&automata, &positions);
    assert!(it.next().is_none());
}

#[test]
fn representatives_cut_the_self_loop() {
    let mut a: Automaton<u64, NoLabel> = Automaton::new();
    a.add(Configuration(sym('a'), vec![]), NoLabel, 0);
    a.add(Configuration(sym('f'), vec![0]), NoLabel, 0);
    a.set_final(0);
    let mut it = a.representatives();
    let mut found = Vec::new();
    while let Some(t) = it.next() {
        found.push(t);
    }
    let leaf = Term::new(sym('a'), vec![]);
    assert_eq!(found, vec![leaf.clone(), Term::new(sym('f'), vec![leaf])]);
}

#[test]
fn representatives_of_the_empty_automaton() {
    let a: Automaton<u64, NoLabel> = Automaton::new();
    let mut it = Representatives::new(&a);
    assert!(it.next().is_none());
}

#[test]
fn representatives_of_a_single_nullary_transition() {
    let mut a: Automaton<u64, NoLabel> = Automaton::new();
    a.add(Configuration(sym('a'), vec![]), NoLabel, 0);
    a.set_final(0);
    let mut it = Representatives::new(&a);
    assert_eq!(it.next(), Some(Term::new(sym('a'), vec![])));
    assert_eq!(it.next(), None);
}

#[test]
fn representatives_without_a_leaf_are_none() {
    let mut a: Automaton<u64, NoLabel> = Automaton::new();
    a.add(Configuration(sym('f'), vec![0]), NoLabel, 0);
    a.set_final(0);
    let mut it = Representatives::new(&a);
    assert!(it.next().is_none());
}

#[derive(Clone)]
struct Free;

impl SearchContext for Free {
    fn looping(&self) -> bool {
        false
    }

    fn copy(&self) -> Self {
        Free
    }
}

#[derive(Clone)]
struct Any;

impl<Q> SearchPattern<Q, Free> for Any {
    fn matches(&self, _depth: usize, _context: &Free, _q: &Q, configuration: &Configuration<Q>) -> Option<(Free, Vec<Self>)> {
        Some((Free, vec![Any; configuration.1.len()]))
    }

    fn copy(&self) -> Self {
        Any
    }
}

#[derive(Clone)]
struct Short;

impl<Q> SearchPattern<Q, Free> for Short {
    fn matches(&self, _depth: usize, _context: &Free, _q: &Q, _configuration: &Configuration<Q>) -> Option<(Free, Vec<Self>)> {
        Some((Free, vec![Short; 3]))
    }

    fn copy(&self) -> Self {
        Short
    }
}

#[derive(Clone)]
struct Stuck;

impl SearchContext for Stuck {
    fn looping(&self) -> bool {
        true
    }

    fn copy(&self) -> Self {
        Stuck
    }
}

#[derive(Clone)]
struct AnyStuck;

impl<Q> SearchPattern<Q, Stuck> for AnyStuck {
    fn matches(&self, _depth: usize, _context: &Stuck, _q: &Q, configuration: &Configuration<Q>) -> Option<(Stuck, Vec<Self>)> {
        Some((Stuck, vec![AnyStuck; configuration.1.len()]))
    }

    fn copy(&self) -> Self {
        AnyStuck
    }
}

fn run<E, Q: LanguageState<E>, C: SearchContext, P: SearchPattern<Q, C>>(
    fragment: &mut TermFragment<E, Q, C, P>,
) -> (Vec<Vec<Term<u64>>>, Option<Step>) {
    let mut layers = Vec::new();
    for _ in 0..10_000 {
        match fragment.step() {
            Step::Layer(terms) => layers.push(terms),
            Step::Pending => {}
            Step::Exhausted => return (layers, Some(Step::Exhausted)),
            other => return (layers, Some(other)),
        }
    }
    (layers, None)
}

#[test]
fn term_fragment_finds_the_terms_under_its_leaf() {
    let a = example();
    let mut fragment = TermFragment::new(&a, 0, Free, vec![FG], vec![Any], None);
    let (layers, end) = run(&mut fragment);
    assert!(matches!(end, Some(Step::Exhausted)));
    let b = Term::new(sym('b'), vec![]);
    let wanted = Term::new(sym('g'), vec![Term::new(sym('l'), vec![b])]);
    assert!(layers.iter().all(|layer| layer.len() == 1));
    assert!(layers.iter().any(|layer| layer[0] == wanted));
    assert_eq!(layers.len(), 8);
    let a_leaf = Term::new(sym('a'), vec![]);
    assert_eq!(layers[0][0], Term::new(sym('f'), vec![Term::new(sym('i'), vec![a_leaf])]));
}

#[test]
fn term_fragment_over_several_automata() {
    let a = example();
    let env = vec![&a, &a];
    let mut fragment = TermFragment::new(
        &env,
        0,
        Free,
        vec![Indexed(L_AB, 0), Indexed(L_BC, 1)],
        vec![Any, Any],
        None,
    );
    let (layers, end) = run(&mut fragment);
    assert!(matches!(end, Some(Step::Exhausted)));
    let l = |c: char| Term::new(sym('l'), vec![Term::new(sym(c), vec![])]);
    assert_eq!(
        layers,
        vec![
            vec![l('a'), l('b')],
            vec![l('a'), l('c')],
            vec![l('b'), l('b')],
            vec![l('b'), l('c')]
        ]
    );
}

#[test]
fn term_fragment_without_leaves_gives_the_empty_layer_once() {
    let a = example();
    let mut fragment: TermFragment<Automaton<u64, NoLabel>, u64, Free, Any> =
        TermFragment::new(&a, 0, Free, Vec::new(), Vec::new(), None);
    assert!(matches!(fragment.step(), Step::Layer(terms) if terms.is_empty()));
    assert!(matches!(fragment.step(), Step::Exhausted));
    assert!(matches!(fragment.step(), Step::Exhausted));
}

#[test]
fn term_fragment_stops_when_signaled() {
    let a = example();
    let (sender, receiver) = crossbeam_channel::unbounded();
    let mut fragment = TermFragment::new(&a, 0, Free, vec![FG], vec![Any], Some(receiver));
    assert!(matches!(fragment.step(), Step::Pending));
    sender.send(()).unwrap();
    assert!(matches!(fragment.step(), Step::Killed(Killed)));
}

#[test]
fn term_fragment_reports_a_wrong_number_of_patterns() {
    let a = example();
    let mut fragment = TermFragment::new(&a, 0, Free, vec![FG], vec![Short], None);
    assert!(matches!(fragment.step(), Step::Fault));
}

#[test]
fn term_fragment_cuts_where_the_context_loops() {
    let a = example();
    let mut fragment = TermFragment::new(&a, 0, Stuck, vec![FG], vec![AnyStuck], None);
    let (layers, end) = run(&mut fragment);
    assert!(layers.is_empty());
    assert!(matches!(end, Some(Step::Exhausted)));
}

#[test]
fn indexed_state_outside_the_array_has_no_configuration() {
    let a = example();
    let env = vec![&a];
    assert!(Indexed(AB, 3).configurations(&env).is_empty());
    let inside = Indexed(I_AB, 0).configurations(&env);
    assert_eq!(inside.len(), 1);
    assert_eq!(inside[0].0, sym('i'));
    assert_eq!(inside[0].1[0].0, AB);
    assert_eq!(inside[0].1[0].1, 0);
}

#[test]
fn term_fragment_next_looks_for_a_layer_within_its_steps() {
    let a = example();
    let mut fragment = TermFragment::new(&a, 0, Free, vec![FG], vec![Any], None);
    assert!(matches!(fragment.next(3), Step::Pending));
    let a_leaf = Term::new(sym('a'), vec![]);
    let first = Term::new(sym('f'), vec![Term::new(sym('i'), vec![a_leaf])]);
    assert!(matches!(fragment.next(100), Step::Layer(terms) if terms == vec![first]));
    let mut count = 1;
    loop {
        match fragment.next(100) {
            Step::Layer(_) => count += 1,
            Step::Exhausted => break,
            other => panic!("{}", matches!(other, Step::Pending)),
        }
    }
    assert_eq!(count, 8);
    assert!(matches!(fragment.next(0), Step::Pending));
}
