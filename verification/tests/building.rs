use term_counting::term::Term;

#[test]
fn parts_come_back_as_they_were_given() {
    let t = Term::from_parts(
        11,
        4,
        vec![6, 0, 2],
        vec![1, 2, 3],
        vec![vec![1, 2, 3], vec![4, 5, 6], vec![7, 8, 9]],
        true,
    );
    let t = match t {
        Some(t) => t,
        None => panic!("the parts describe a term"),
    };
    assert_eq!(t.factor(), 11);
    assert_eq!(t.pi(), 4);
    assert_eq!(t.slots(), 3);
    assert_eq!(t.ds(), vec![6, 0, 2]);
    assert_eq!(t.es(), vec![1, 2, 3]);
    assert_eq!(t.deltas(), vec![vec![1, 2, 3], vec![4, 5, 6], vec![7, 8, 9]]);
    assert!(t.terminal());
}

#[test]
fn secondary_indices_must_match_the_slots() {
    assert!(Term::from_parts(1, 0, vec![1, 1], vec![0], vec![vec![0, 0], vec![0, 0]], false).is_none());
}

#[test]
fn cross_counts_must_have_a_row_per_slot() {
    assert!(Term::from_parts(1, 0, vec![1, 1], vec![0, 0], vec![vec![0, 0]], false).is_none());
}

#[test]
fn cross_counts_must_have_an_entry_per_slot_in_each_row() {
    assert!(Term::from_parts(1, 0, vec![1, 1], vec![0, 0], vec![vec![0, 0], vec![0]], false).is_none());
    assert!(Term::from_parts(1, 0, vec![1, 1], vec![0, 0], vec![vec![0, 0, 0], vec![0, 0]], false).is_none());
}

#[test]
fn charge_must_fit_in_64_bits() {
    let max = u64::MAX;
    assert!(Term::from_parts(1, max, vec![0], vec![1], vec![vec![0]], false).is_none());
    assert!(Term::from_parts(1, 0, vec![0, 0], vec![max, 1], vec![vec![0, 0], vec![0, 0]], false).is_none());
    assert!(Term::from_parts(1, 1, vec![0, 0], vec![0, 0], vec![vec![0, max - 1], vec![1, 0]], false).is_none());
    assert!(Term::from_parts(1, 0, vec![0, 0], vec![0, 0], vec![vec![max, 0], vec![0, 1]], false).is_none());
}

#[test]
fn charge_may_fill_64_bits() {
    let max = u64::MAX;
    let t = Term::from_parts(max, 1, vec![max, max], vec![2, 0], vec![vec![0, max - 4], vec![1, 0]], false);
    let t = match t {
        Some(t) => t,
        None => panic!("the parts describe a term"),
    };
    assert_eq!(t.factor(), max);
    assert_eq!(t.ds(), vec![max, max]);
    assert_eq!(t.deltas(), vec![vec![0, max - 4], vec![1, 0]]);
}

#[test]
fn term_without_slots_can_be_built() {
    let t = Term::from_parts(2, 3, vec![], vec![], vec![], false);
    let t = match t {
        Some(t) => t,
        None => panic!("the parts describe a term"),
    };
    assert_eq!(t.slots(), 0);
    assert!(t.deltas().is_empty());
}
