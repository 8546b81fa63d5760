use term_counting::driver::{every_terminal, iterate_terms, iterate_until_finished, run, total_factor};
use term_counting::term::Term;

type Parts = (u64, u64, Vec<u64>, Vec<u64>, Vec<Vec<u64>>, bool);

fn frontier_parts(terms: &Vec<Term>) -> Vec<Parts> {
    terms.iter().map(|t| (t.factor(), t.pi(), t.ds(), t.es(), t.deltas(), t.terminal())).collect()
}

fn given(factor: u64, pi: u64, ds: Vec<u64>, es: Vec<u64>, deltas: Vec<Vec<u64>>, terminal: bool) -> Term {
    match Term::from_parts(factor, pi, ds, es, deltas, terminal) {
        Some(t) => t,
        None => panic!("the parts do not describe a term"),
    }
}

fn levels_until_settled(a: usize, b: usize, c: usize, n: usize) -> usize {
    let mut terms = vec![Term::create_initial(a, b, c, n)];
    let mut levels = 0;
    while !every_terminal(&terms) {
        terms = iterate_terms(terms);
        levels += 1;
    }
    levels
}

#[test]
fn run_totals() {
    assert_eq!(run(2, 0, 0, 2), (36, 16));
    assert_eq!(run(2, 0, 0, 3), (216, 28));
    assert_eq!(run(2, 0, 0, 4), (144, 6));
    assert_eq!(run(0, 1, 0, 2), (6, 2));
    assert_eq!(run(0, 1, 0, 4), (24, 1));
    assert_eq!(run(1, 1, 0, 3), (1350, 135));
    assert_eq!(run(1, 1, 0, 6), (10800, 15));
    assert_eq!(run(0, 0, 1, 6), (720, 1));
    assert_eq!(run(3, 0, 0, 6), (64800, 90));
    assert_eq!(run(1, 0, 1, 4), (70560, 924));
}

#[test]
fn run_without_slots() {
    assert_eq!(run(0, 0, 0, 0), (1, 1));
    assert_eq!(run(0, 0, 0, 3), (0, 0));
}

#[test]
fn run_without_exponent_drops_everything() {
    assert_eq!(run(1, 0, 0, 0), (0, 0));
    assert_eq!(run(1, 2, 1, 0), (0, 0));
}

#[test]
fn run_with_too_large_an_exponent_drops_everything() {
    assert_eq!(run(1, 0, 0, 3), (0, 0));
    assert_eq!(run(0, 1, 0, 5), (0, 0));
}

#[test]
fn one_level_expands_every_term_in_order() {
    let first = vec![Term::create_initial(1, 1, 0, 2)];
    let second = iterate_terms(first);
    assert_eq!(
        frontier_parts(&second),
        vec![
            (2, 1, vec![1, 4], vec![1, 0], vec![vec![0, 0], vec![0, 0]], false),
            (2, 1, vec![2, 3], vec![0, 1], vec![vec![0, 0], vec![0, 0]], false),
        ]
    );
    let third = iterate_terms(second);
    assert_eq!(
        frontier_parts(&third),
        vec![
            (2, 0, vec![0, 4], vec![2, 0], vec![vec![0, 0], vec![0, 0]], false),
            (2, 1, vec![0, 4], vec![0, 0], vec![vec![1, 0], vec![0, 0]], false),
            (2, 0, vec![1, 3], vec![1, 1], vec![vec![0, 0], vec![0, 0]], false),
            (2, 1, vec![1, 3], vec![0, 0], vec![vec![0, 1], vec![0, 0]], false),
            (2, 0, vec![1, 3], vec![1, 1], vec![vec![0, 0], vec![0, 0]], false),
            (2, 1, vec![1, 3], vec![0, 0], vec![vec![0, 0], vec![1, 0]], false),
            (2, 0, vec![2, 2], vec![0, 2], vec![vec![0, 0], vec![0, 0]], false),
            (2, 1, vec![2, 2], vec![0, 0], vec![vec![0, 0], vec![0, 1]], false),
        ]
    );
    assert_eq!(iterate_terms(third).len(), 18);
}

#[test]
fn one_level_is_the_expansions_laid_end_to_end() {
    let terms = vec![
        given(3, 0, vec![0], vec![1], vec![vec![1]], true),
        given(5, 1, vec![0], vec![1], vec![vec![1]], false),
        given(2, 1, vec![1], vec![1], vec![vec![0]], false),
        given(7, 0, vec![0], vec![0], vec![vec![2]], false),
    ];
    let mut expected: Vec<Parts> = Vec::new();
    for t in terms.iter() {
        expected.extend(frontier_parts(&t.iterate()));
    }
    let next = iterate_terms(terms);
    assert_eq!(frontier_parts(&next), expected);
    assert_eq!(
        frontier_parts(&next),
        vec![
            (3, 0, vec![0], vec![1], vec![vec![1]], true),
            (2, 0, vec![0], vec![2], vec![vec![0]], false),
            (2, 1, vec![0], vec![0], vec![vec![1]], false),
            (7, 0, vec![0], vec![0], vec![vec![2]], true),
        ]
    );
}

#[test]
fn one_level_of_nothing_is_nothing() {
    assert!(iterate_terms(Vec::new()).is_empty());
}

#[test]
fn finished_frontier_is_all_terminal() {
    let terms = iterate_until_finished(vec![Term::create_initial(2, 0, 0, 2)]);
    assert_eq!(terms.len(), 16);
    assert!(every_terminal(&terms));
    for t in terms.iter() {
        assert_eq!(t.pi(), 0);
        assert_eq!(t.ds(), vec![0, 0]);
    }
    let weights: Vec<u64> = terms.iter().map(|t| t.factor()).collect();
    assert_eq!(weights, vec![4, 2, 2, 2, 2, 2, 2, 2, 2, 2, 2, 2, 2, 2, 4, 2]);
    assert_eq!(terms[0].deltas(), vec![vec![0, 2], vec![0, 0]]);
    assert_eq!(terms[1].deltas(), vec![vec![1, 0], vec![0, 1]]);
    assert_eq!(terms[14].deltas(), vec![vec![0, 0], vec![2, 0]]);
    assert_eq!(total_factor(&terms), 36);
}

#[test]
fn finished_frontier_of_a_finished_frontier_is_itself() {
    let terms = iterate_until_finished(vec![Term::create_initial(0, 1, 0, 2)]);
    let before = frontier_parts(&terms);
    let again = iterate_until_finished(terms);
    assert_eq!(frontier_parts(&again), before);
}

#[test]
fn finishing_takes_several_starting_terms() {
    let terms = iterate_until_finished(vec![
        Term::create_initial(1, 0, 0, 1),
        Term::create_initial(1, 0, 0, 3),
        Term::create_initial(1, 0, 0, 2),
    ]);
    assert_eq!(
        frontier_parts(&terms),
        vec![
            (1, 0, vec![0], vec![0], vec![vec![1]], true),
            (2, 0, vec![0], vec![2], vec![vec![0]], true),
        ]
    );
}

#[test]
fn every_terminal_of_nothing_holds() {
    assert!(every_terminal(&Vec::new()));
}

#[test]
fn every_terminal_sees_one_open_term() {
    let terms = vec![
        given(3, 0, vec![0], vec![1], vec![vec![1]], true),
        given(3, 0, vec![0], vec![1], vec![vec![1]], false),
        given(3, 0, vec![0], vec![1], vec![vec![1]], true),
    ];
    assert!(!every_terminal(&terms));
    assert!(every_terminal(&iterate_terms(terms)));
}

#[test]
fn total_factor_adds_in_64_bits() {
    assert_eq!(total_factor(&Vec::new()), 0);
    let terms = vec![
        given(u64::MAX, 0, vec![0], vec![1], vec![vec![1]], true),
        given(1u64 << 63, 0, vec![0], vec![1], vec![vec![1]], true),
        given((1u64 << 63) + 4, 0, vec![0], vec![1], vec![vec![1]], true),
    ];
    assert_eq!(total_factor(&terms), 3);
}

#[test]
fn levels_stay_within_the_bound() {
    let inputs: Vec<(usize, usize, usize, usize)> = vec![
        (1, 0, 0, 1),
        (1, 0, 0, 2),
        (1, 0, 0, 0),
        (0, 0, 0, 3),
        (2, 0, 0, 2),
        (2, 0, 0, 4),
        (0, 1, 0, 4),
        (1, 1, 0, 3),
        (0, 0, 1, 6),
        (3, 0, 0, 6),
    ];
    for (a, b, c, n) in inputs {
        assert!(levels_until_settled(a, b, c, n) <= n + 2 * a + 4 * b + 6 * c);
    }
    assert_eq!(levels_until_settled(1, 0, 0, 1), 3);
    assert_eq!(levels_until_settled(2, 0, 0, 2), 5);
    assert_eq!(levels_until_settled(1, 0, 0, 0), 1);
}

#[test]
fn seed_without_slots_and_exponent_takes_one_level() {
    assert_eq!(levels_until_settled(0, 0, 0, 0), 1);
}

#[test]
fn nothing_negative_is_reached() {
    let mut terms = vec![Term::create_initial(1, 1, 0, 3)];
    while !every_terminal(&terms) {
        for t in terms.iter() {
            let es: u64 = t.es().iter().sum();
            let deltas: u64 = t.deltas().iter().map(|row| row.iter().sum::<u64>()).sum();
            assert_eq!(t.pi() + es + deltas, 3);
            assert!(t.ds()[0] <= 2 && t.ds()[1] <= 4);
        }
        terms = iterate_terms(terms);
    }
    assert_eq!(terms.len(), 135);
}
