use term_counting::driver::{iterate_until_finished, total_factor};
use term_counting::merge::reduce_terms_list;
use term_counting::term::Term;

type Parts = (u64, u64, Vec<u64>, Vec<u64>, Vec<Vec<u64>>, bool);

fn merged_parts(t: &Term) -> Parts {
    (t.factor(), t.pi(), t.ds(), t.es(), t.deltas(), t.terminal())
}

fn built(factor: u64, pi: u64, ds: Vec<u64>, es: Vec<u64>, deltas: Vec<Vec<u64>>, terminal: bool) -> Term {
    match Term::from_parts(factor, pi, ds, es, deltas, terminal) {
        Some(t) => t,
        None => panic!("the parts do not describe a term"),
    }
}

fn final_frontier(a: usize, b: usize, c: usize, n: usize) -> Vec<Term> {
    iterate_until_finished(vec![Term::create_initial(a, b, c, n)])
}

#[test]
fn reduce_of_nothing_is_nothing() {
    assert!(reduce_terms_list(Vec::new()).is_empty());
}

#[test]
fn reduce_adds_up_the_weights_of_one_structure() {
    let terms = vec![
        built(2, 0, vec![0], vec![1], vec![vec![3]], true),
        built(5, 0, vec![0], vec![2], vec![vec![3]], true),
        built(7, 0, vec![0], vec![1], vec![vec![3]], true),
        built(11, 0, vec![0], vec![1], vec![vec![4]], true),
        built(13, 0, vec![0], vec![2], vec![vec![3]], true),
    ];
    let out = reduce_terms_list(terms);
    assert_eq!(out.len(), 3);
    assert_eq!(merged_parts(&out[0]), (9, 0, vec![0], vec![1], vec![vec![3]], true));
    assert_eq!(merged_parts(&out[1]), (18, 0, vec![0], vec![2], vec![vec![3]], true));
    assert_eq!(merged_parts(&out[2]), (11, 0, vec![0], vec![1], vec![vec![4]], true));
}

#[test]
fn reduce_keeps_the_other_fields_of_the_first_term_of_a_group() {
    let terms = vec![
        built(2, 4, vec![1], vec![1], vec![vec![3]], false),
        built(5, 0, vec![0], vec![1], vec![vec![3]], true),
    ];
    let out = reduce_terms_list(terms);
    assert_eq!(out.len(), 1);
    assert_eq!(merged_parts(&out[0]), (7, 4, vec![1], vec![1], vec![vec![3]], false));
}

#[test]
fn reduce_puts_terms_in_canonical_form_first() {
    let terms = vec![
        built(3, 0, vec![0, 0], vec![2, 0], vec![vec![7, 1], vec![0, 1]], true),
        built(4, 0, vec![0, 0], vec![0, 2], vec![vec![1, 0], vec![1, 7]], true),
        built(5, 0, vec![0, 0], vec![2, 0], vec![vec![7, 0], vec![1, 1]], true),
    ];
    let out = reduce_terms_list(terms);
    assert_eq!(out.len(), 1);
    assert_eq!(
        merged_parts(&out[0]),
        (12, 0, vec![0, 0], vec![2, 0], vec![vec![7, 1], vec![0, 1]], true)
    );
}

#[test]
fn reduce_tells_sizes_apart() {
    let terms = vec![
        built(1, 0, vec![0], vec![0], vec![vec![0]], true),
        built(2, 0, vec![0, 0], vec![0, 0], vec![vec![0, 0], vec![0, 0]], true),
        built(4, 0, vec![], vec![], vec![], true),
        built(8, 0, vec![0], vec![0], vec![vec![0]], true),
        built(16, 0, vec![], vec![], vec![], true),
    ];
    let out = reduce_terms_list(terms);
    assert_eq!(out.len(), 3);
    assert_eq!(out[0].factor(), 9);
    assert_eq!(out[0].slots(), 1);
    assert_eq!(out[1].factor(), 2);
    assert_eq!(out[1].slots(), 2);
    assert_eq!(out[2].factor(), 20);
    assert_eq!(out[2].slots(), 0);
}

#[test]
fn reduce_adds_weights_in_64_bits() {
    let terms = vec![
        built(u64::MAX, 0, vec![0], vec![1], vec![vec![0]], true),
        built(3, 0, vec![0], vec![1], vec![vec![0]], true),
    ];
    let before = total_factor(&terms);
    assert_eq!(before, 2);
    let out = reduce_terms_list(terms);
    assert_eq!(out.len(), 1);
    assert_eq!(out[0].factor(), 2);
    assert_eq!(total_factor(&out), before);
}

#[test]
fn reduce_of_two_slots_exponent_two() {
    let frontier = final_frontier(2, 0, 0, 2);
    assert_eq!(frontier.len(), 16);
    let out = reduce_terms_list(frontier);
    assert_eq!(out.len(), 2);
    assert_eq!(
        merged_parts(&out[0]),
        (24, 0, vec![0, 0], vec![0, 0], vec![vec![0, 2], vec![0, 0]], true)
    );
    assert_eq!(
        merged_parts(&out[1]),
        (12, 0, vec![0, 0], vec![0, 0], vec![vec![1, 0], vec![0, 1]], true)
    );
}

#[test]
fn reduce_of_two_slots_exponent_three() {
    let out = reduce_terms_list(final_frontier(2, 0, 0, 3));
    assert_eq!(out.len(), 3);
    assert_eq!(
        merged_parts(&out[0]),
        (144, 0, vec![0, 0], vec![1, 1], vec![vec![0, 1], vec![0, 0]], true)
    );
    assert_eq!(
        merged_parts(&out[1]),
        (36, 0, vec![0, 0], vec![2, 0], vec![vec![1, 0], vec![0, 0]], true)
    );
    assert_eq!(
        merged_parts(&out[2]),
        (36, 0, vec![0, 0], vec![2, 0], vec![vec![0, 0], vec![0, 1]], true)
    );
}

#[test]
fn reduce_loses_no_weight() {
    let inputs: Vec<(usize, usize, usize, usize)> =
        vec![(1, 0, 0, 2), (2, 0, 0, 2), (2, 0, 0, 3), (2, 0, 0, 4), (0, 1, 0, 2), (1, 1, 0, 3), (3, 0, 0, 6)];
    for (a, b, c, n) in inputs {
        let frontier = final_frontier(a, b, c, n);
        let before = total_factor(&frontier);
        let out = reduce_terms_list(frontier);
        assert_eq!(total_factor(&out), before);
    }
}

#[test]
fn reduce_leaves_distinct_structures() {
    let out = reduce_terms_list(final_frontier(1, 1, 0, 3));
    assert_eq!(out.len(), 2);
    for i in 0..out.len() {
        for j in (i + 1)..out.len() {
            assert!(!out[i].same_key(&out[j]));
        }
    }
}

#[test]
fn same_key_looks_at_secondary_indices_and_cross_counts_only() {
    let a = built(2, 4, vec![1, 5], vec![1, 0], vec![vec![3, 0], vec![0, 1]], false);
    let b = built(9, 0, vec![0, 0], vec![1, 0], vec![vec![3, 0], vec![0, 1]], true);
    let c = built(2, 4, vec![1, 5], vec![0, 1], vec![vec![3, 0], vec![0, 1]], false);
    let d = built(2, 4, vec![1, 5], vec![1, 0], vec![vec![3, 0], vec![1, 1]], false);
    let e = built(2, 4, vec![1], vec![1], vec![vec![3]], false);
    assert!(a.same_key(&b));
    assert!(b.same_key(&a));
    assert!(a.same_key(&a));
    assert!(!a.same_key(&c));
    assert!(!a.same_key(&d));
    assert!(!a.same_key(&e));
    assert!(!e.same_key(&a));
}

#[test]
fn absorb_adds_the_weight_and_nothing_else() {
    let mut a = built(2, 4, vec![1, 5], vec![1, 0], vec![vec![3, 0], vec![0, 1]], false);
    let b = built(9, 0, vec![0, 0], vec![0, 0], vec![vec![0, 0], vec![0, 0]], true);
    a.absorb(&b);
    assert_eq!(merged_parts(&a), (11, 4, vec![1, 5], vec![1, 0], vec![vec![3, 0], vec![0, 1]], false));
    let c = built(u64::MAX - 5, 0, vec![0, 0], vec![0, 0], vec![vec![0, 0], vec![0, 0]], true);
    a.absorb(&c);
    assert_eq!(a.factor(), 5);
}
