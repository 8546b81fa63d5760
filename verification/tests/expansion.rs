use term_counting::term::Term;

type Parts = (u64, u64, Vec<u64>, Vec<u64>, Vec<Vec<u64>>, bool);

fn parts_of(t: &Term) -> Parts {
    (t.factor(), t.pi(), t.ds(), t.es(), t.deltas(), t.terminal())
}

fn zero_grid(m: usize) -> Vec<Vec<u64>> {
    vec![vec![0; m]; m]
}

fn make(factor: u64, pi: u64, ds: Vec<u64>, es: Vec<u64>, deltas: Vec<Vec<u64>>, terminal: bool) -> Term {
    match Term::from_parts(factor, pi, ds, es, deltas, terminal) {
        Some(t) => t,
        None => panic!("the parts do not describe a term"),
    }
}

#[test]
fn seed_lists_twos_then_fours_then_sixes() {
    let t = Term::create_initial(1, 2, 1, 5);
    assert_eq!(t.slots(), 4);
    assert_eq!(parts_of(&t), (1, 5, vec![2, 4, 4, 6], vec![0, 0, 0, 0], zero_grid(4), false));
}

#[test]
fn seed_without_slots_is_empty() {
    let t = Term::create_initial(0, 0, 0, 7);
    assert_eq!(t.slots(), 0);
    assert_eq!(parts_of(&t), (1, 7, vec![], vec![], vec![], false));
}

#[test]
fn children_come_slot_by_slot_scalar_child_first() {
    let t = make(3, 2, vec![1, 0, 2], vec![0, 4, 1], zero_grid(3), false);
    let out = t.iterate();
    assert_eq!(out.len(), 6);
    assert_eq!(parts_of(&out[0]), (6, 1, vec![0, 0, 2], vec![1, 4, 1], zero_grid(3), false));
    assert_eq!(
        parts_of(&out[1]),
        (12, 2, vec![0, 0, 2], vec![0, 3, 1], vec![vec![0, 0, 0], vec![1, 0, 0], vec![0, 0, 0]], false)
    );
    assert_eq!(
        parts_of(&out[2]),
        (3, 2, vec![0, 0, 2], vec![0, 4, 0], vec![vec![0, 0, 0], vec![0, 0, 0], vec![1, 0, 0]], false)
    );
    assert_eq!(parts_of(&out[3]), (6, 1, vec![1, 0, 1], vec![0, 4, 2], zero_grid(3), false));
    assert_eq!(
        parts_of(&out[4]),
        (12, 2, vec![1, 0, 1], vec![0, 3, 1], vec![vec![0, 0, 0], vec![0, 0, 1], vec![0, 0, 0]], false)
    );
    assert_eq!(
        parts_of(&out[5]),
        (3, 2, vec![1, 0, 1], vec![0, 4, 0], vec![vec![0, 0, 0], vec![0, 0, 0], vec![0, 0, 1]], false)
    );
}

#[test]
fn expansion_leaves_the_parent_as_it_was() {
    let t = make(3, 2, vec![1, 0, 2], vec![0, 4, 1], zero_grid(3), false);
    let _ = t.iterate();
    assert_eq!(parts_of(&t), (3, 2, vec![1, 0, 2], vec![0, 4, 1], zero_grid(3), false));
}

#[test]
fn siblings_are_made_from_the_parent_not_from_each_other() {
    let t = make(1, 0, vec![1, 1], vec![1, 0], zero_grid(2), false);
    let out = t.iterate();
    assert_eq!(out.len(), 2);
    assert_eq!(parts_of(&out[0]), (1, 0, vec![0, 1], vec![0, 0], vec![vec![1, 0], vec![0, 0]], false));
    assert_eq!(parts_of(&out[1]), (1, 0, vec![1, 0], vec![0, 0], vec![vec![0, 1], vec![0, 0]], false));
}

#[test]
fn terminal_term_yields_itself() {
    let t = make(9, 0, vec![0, 0], vec![2, 1], vec![vec![1, 0], vec![3, 0]], true);
    let out = t.iterate();
    assert_eq!(out.len(), 1);
    assert_eq!(parts_of(&out[0]), parts_of(&t));
    let again = out[0].iterate();
    assert_eq!(again.len(), 1);
    assert_eq!(parts_of(&again[0]), parts_of(&t));
}

#[test]
fn terminal_mark_wins_over_what_is_left() {
    let t = make(5, 3, vec![2], vec![1], vec![vec![0]], true);
    let out = t.iterate();
    assert_eq!(out.len(), 1);
    assert_eq!(parts_of(&out[0]), (5, 3, vec![2], vec![1], vec![vec![0]], true));
}

#[test]
fn exhausted_term_is_marked_terminal() {
    let t = make(7, 0, vec![0, 0], vec![1, 2], vec![vec![0, 1], vec![0, 0]], false);
    let out = t.iterate();
    assert_eq!(out.len(), 1);
    assert_eq!(parts_of(&out[0]), (7, 0, vec![0, 0], vec![1, 2], vec![vec![0, 1], vec![0, 0]], true));
}

#[test]
fn term_without_slots_and_scalar_is_marked_terminal() {
    let out = Term::create_initial(0, 0, 0, 0).iterate();
    assert_eq!(out.len(), 1);
    assert_eq!(parts_of(&out[0]), (1, 0, vec![], vec![], vec![], true));
}

#[test]
fn stuck_scalar_drops_the_term() {
    let t = make(4, 1, vec![0, 0], vec![3, 0], zero_grid(2), false);
    assert!(t.iterate().is_empty());
}

#[test]
fn nothing_to_pair_with_drops_the_term() {
    let t = make(4, 0, vec![2, 1], vec![0, 0], zero_grid(2), false);
    assert!(t.iterate().is_empty());
}

#[test]
fn scalar_child_takes_one_from_the_scalar() {
    let t = make(5, 3, vec![2, 4], vec![1, 0], zero_grid(2), false);
    let child = t.take_derivative(1, None);
    assert_eq!(parts_of(&child), (15, 2, vec![2, 3], vec![1, 1], zero_grid(2), false));
}

#[test]
fn cross_child_takes_one_from_the_secondary_index() {
    let t = make(5, 3, vec![2, 4], vec![6, 0], vec![vec![0, 2], vec![0, 0]], false);
    let child = t.take_derivative(1, Some(0));
    assert_eq!(
        parts_of(&child),
        (30, 3, vec![2, 3], vec![5, 0], vec![vec![0, 3], vec![0, 0]], false)
    );
}

#[test]
fn cross_child_of_a_slot_with_itself() {
    let t = make(2, 0, vec![1], vec![3], vec![vec![4]], false);
    let child = t.take_derivative(0, Some(0));
    assert_eq!(parts_of(&child), (6, 0, vec![0], vec![2], vec![vec![5]], false));
}

#[test]
fn weight_wraps_around_in_64_bits() {
    let t = make((1u64 << 63) + 1, 3, vec![1], vec![0], vec![vec![0]], false);
    let child = t.take_derivative(0, None);
    assert_eq!(child.factor(), (1u64 << 63) + 3);

    let t = make(1u64 << 63, 0, vec![1], vec![2], vec![vec![0]], false);
    let child = t.take_derivative(0, Some(0));
    assert_eq!(child.factor(), 0);
}

#[test]
fn primary_indices_never_grow() {
    let t = make(1, 2, vec![3, 1, 2], vec![1, 0, 2], zero_grid(3), false);
    let out = t.iterate();
    assert_eq!(out.len(), 9);
    for child in out.iter() {
        let ds = child.ds();
        assert_eq!(ds.len(), 3);
        assert!(ds[0] <= 3 && ds[1] <= 1 && ds[2] <= 2);
        assert_eq!(ds.iter().sum::<u64>(), 5);
    }
}

#[test]
fn scalar_secondary_indices_and_cross_counts_add_up_to_the_same() {
    let t = make(1, 2, vec![3, 1, 2], vec![1, 0, 2], vec![vec![0, 1, 0], vec![0, 0, 0], vec![2, 0, 0]], false);
    for child in t.iterate().iter() {
        let es: u64 = child.es().iter().sum();
        let deltas: u64 = child.deltas().iter().map(|row| row.iter().sum::<u64>()).sum();
        assert_eq!(child.pi() + es + deltas, 8);
    }
}

#[test]
fn clone_is_the_same_term() {
    let t = make(3, 2, vec![1, 0, 2], vec![0, 4, 1], vec![vec![0, 1, 0], vec![0, 0, 0], vec![2, 0, 0]], false);
    let c = t.clone();
    assert_eq!(parts_of(&c), parts_of(&t));
}
