use tree_automata::utils::{
    combinations, combinations_option, combinations_weak_option, Combinations, CombinationsOption,
    Mux,
};

fn drain(mut it: Combinations<u64>) -> Vec<Vec<u64>> {
    let mut out = Vec::new();
    while let Some(item) = it.next() {
        out.push(item);
    }
    out
}

fn drain_option(mut it: CombinationsOption<u64>) -> Vec<Vec<Option<u64>>> {
    let mut out = Vec::new();
    while let Some(item) = it.next() {
        out.push(item);
    }
    out
}

#[test]
fn combinations_last_slot_varies_fastest() {
    let all = drain(combinations(vec![vec![1, 2], vec![10, 20, 30]]));
    assert_eq!(
        all,
        vec![
            vec![1, 10],
            vec![1, 20],
            vec![1, 30],
            vec![2, 10],
            vec![2, 20],
            vec![2, 30]
        ]
    );
}

#[test]
fn combinations_of_nothing_is_one_empty_tuple() {
    let mut it: Combinations<u64> = Combinations::new(Vec::new());
    assert_eq!(it.next(), Some(Vec::new()));
    assert_eq!(it.next(), None);
    assert_eq!(it.next(), None);
}

#[test]
fn combinations_with_an_empty_source_is_empty() {
    let all = drain(combinations(vec![vec![1, 2], vec![], vec![3]]));
    assert!(all.is_empty());
}

#[test]
fn combinations_option_strong_adds_the_missing_value_to_each_slot() {
    let all = drain_option(combinations_option(vec![vec![1], vec![5, 6]]));
    assert_eq!(
        all,
        vec![
            vec![Some(1), Some(5)],
            vec![Some(1), Some(6)],
            vec![Some(1), None],
            vec![None, Some(5)],
            vec![None, Some(6)],
            vec![None, None]
        ]
    );
}

#[test]
fn combinations_option_weak_is_missing_only_where_empty() {
    let all = drain_option(combinations_weak_option(vec![vec![1, 2], vec![], vec![7]]));
    assert_eq!(
        all,
        vec![vec![Some(1), None, Some(7)], vec![Some(2), None, Some(7)]]
    );
}

#[test]
fn combinations_option_of_nothing_is_one_empty_tuple() {
    let mut it: CombinationsOption<u64> = CombinationsOption::new(Vec::new(), false);
    assert_eq!(it.next(), Some(Vec::new()));
    assert_eq!(it.next(), None);
}

#[test]
fn mux_takes_turns() {
    let mut mux: Mux<u64> = Mux::new(vec![vec![1, 2, 3], vec![], vec![10], vec![20, 21]]);
    let mut out = Vec::new();
    while let Some(x) = mux.next() {
        out.push(x);
    }
    assert_eq!(out, vec![1, 10, 20, 2, 21, 3]);
    assert_eq!(mux.next(), None);
}

#[test]
fn mux_of_nothing_ends_at_once() {
    let mut mux: Mux<u64> = Mux::new(Vec::new());
    assert_eq!(mux.next(), None);
}
