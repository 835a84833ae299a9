use tree_automata::bottom_up::{Automaton, Configuration};

const F: u64 = 'f' as u64;
const G: u64 = 'g' as u64;
const H: u64 = 'h' as u64;
const I: u64 = 'i' as u64;

#[test]
fn add_simple_configurations() {
    let mut a: Automaton<(), ()> = Automaton::new();
    let conf: Configuration<()> = Configuration(0, Vec::new());

    assert!(a.states_for_configuration(&conf).first().is_none());
    a.add(Configuration(0, Vec::new()), (), ());
    assert!(*a.states_for_configuration(&conf).first().unwrap() == ((), ()));
}

#[test]
fn add_multiple_configurations() {
    let mut a: Automaton<(), ()> = Automaton::new();

    let confs: [Configuration<()>; 4] = [
        Configuration(F, Vec::new()),
        Configuration(G, Vec::new()),
        Configuration(H, Vec::new()),
        Configuration(I, Vec::new()),
    ];

    for conf in confs.iter() {
        a.add(Configuration(conf.0, Vec::new()), (), ());
    }

    for conf in confs.iter() {
        assert!(*a.states_for_configuration(conf).first().unwrap() == ((), ()));
        assert!(a
            .configurations_for_state(&())
            .iter()
            .find(|(c, _)| c.0 == conf.0 && c.1 == conf.1)
            .is_some());
    }
}

#[test]
fn add_is_idempotent() {
    let mut a: Automaton<u64, u64> = Automaton::new();
    a.add(Configuration(F, vec![1, 2]), 7, 3);
    a.add(Configuration(F, vec![1, 2]), 7, 3);
    assert_eq!(a.transitions.len(), 1);
    a.add(Configuration(F, vec![1, 2]), 8, 3);
    assert_eq!(a.transitions.len(), 2);
    assert_eq!(a.len(), 1);
    assert_eq!(a.states(), vec![3]);
}

#[test]
fn set_final_reports_novelty() {
    let mut a: Automaton<u64, ()> = Automaton::new();
    assert!(a.set_final(5));
    assert!(!a.set_final(5));
    assert!(a.is_final(&5));
    assert!(!a.is_final(&6));
    assert_eq!(a.final_states(), vec![5]);
    assert!(!a.includes(&5));
}

#[test]
fn empty_automaton_has_nothing() {
    let a: Automaton<u64, ()> = Automaton::new();
    assert_eq!(a.len(), 0);
    assert!(a.states().is_empty());
    assert!(a.final_states().is_empty());
    assert!(a.alphabet().is_empty());
    assert!(a.configurations_for_state(&1).is_empty());
    assert!(a.states_for_configuration(&Configuration(F, Vec::new())).is_empty());
    let mut walk = a.transitions();
    assert!(walk.next().is_none());
}

#[test]
fn lookups_are_inverse() {
    let mut a: Automaton<u64, u64> = Automaton::new();
    a.add(Configuration(F, vec![1]), 10, 2);
    a.add(Configuration(G, vec![]), 11, 2);
    a.add(Configuration(F, vec![1]), 12, 3);
    let into2 = a.configurations_for_state(&2);
    assert_eq!(into2.len(), 2);
    for (c, l) in into2.iter() {
        let back = a.states_for_configuration(c);
        assert!(back.iter().any(|(q, m)| *q == 2 && m == l));
    }
    let from_f = a.states_for_configuration(&Configuration(F, vec![1]));
    assert_eq!(from_f, vec![(2, 10), (3, 12)]);
}

#[test]
fn alphabet_is_the_set_of_top_symbols() {
    let mut a: Automaton<u64, ()> = Automaton::new();
    a.add(Configuration(F, vec![1]), (), 2);
    a.add(Configuration(G, vec![]), (), 2);
    a.add(Configuration(F, vec![2]), (), 3);
    assert_eq!(a.alphabet(), vec![F, G]);
    let mut seen = Vec::new();
    let mut walk = a.transitions();
    while let Some(t) = walk.next() {
        if !seen.contains(&t.0 .0) {
            seen.push(t.0 .0);
        }
    }
    assert_eq!(seen, a.alphabet());
}

#[test]
fn complement_twice_restores_the_accepting_states() {
    let mut a: Automaton<u64, ()> = Automaton::new();
    a.add(Configuration(F, vec![]), (), 1);
    a.add(Configuration(G, vec![]), (), 2);
    a.add(Configuration(H, vec![1]), (), 3);
    a.set_final(2);
    a.complement();
    assert_eq!(a.final_states(), vec![1, 3]);
    a.complement();
    assert_eq!(a.final_states(), vec![2]);
}

#[test]
fn configuration_accessors() {
    let c: Configuration<u64> = Configuration(F, vec![4, 5]);
    assert_eq!(c.symbol(), F);
    assert_eq!(c.states(), &vec![4, 5]);
    assert_eq!(c.len(), 2);
    assert_eq!(c.signature(), (F, 2));
    let d: Configuration<u64> = c.map(&|q: &u64| *q + 1);
    assert_eq!(d.0, F);
    assert_eq!(d.1, vec![5, 6]);
}

#[test]
fn map_states_unions_colliding_transitions() {
    let mut a: Automaton<u64, ()> = Automaton::new();
    a.add(Configuration(F, vec![]), (), 1);
    a.add(Configuration(F, vec![]), (), 2);
    a.add(Configuration(G, vec![1]), (), 3);
    a.add(Configuration(G, vec![2]), (), 3);
    a.set_final(1);
    a.set_final(2);
    let b: Automaton<u64, ()> = a.map_states(&|q: &u64| if *q <= 2 { 0 } else { *q });
    assert_eq!(b.transitions.len(), 2);
    assert_eq!(b.states_for_configuration(&Configuration(F, vec![])), vec![(0, ())]);
    assert_eq!(b.states_for_configuration(&Configuration(G, vec![0])), vec![(3, ())]);
    assert_eq!(b.final_states(), vec![0]);
}
