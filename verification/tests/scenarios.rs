use term_counting::driver::run;
use term_counting::term::Term;

type Parts = (u64, u64, Vec<u64>, Vec<u64>, Vec<Vec<u64>>, bool);

fn scenario_parts(t: &Term) -> Parts {
    (t.factor(), t.pi(), t.ds(), t.es(), t.deltas(), t.terminal())
}

#[test]
fn one_slot_exponent_one() {
    assert_eq!(run(1, 0, 0, 1), (1, 1));
}

#[test]
fn one_slot_exponent_one_step_by_step() {
    let seed = Term::create_initial(1, 0, 0, 1);
    assert_eq!(scenario_parts(&seed), (1, 1, vec![2], vec![0], vec![vec![0]], false));

    let depth1 = seed.iterate();
    assert_eq!(depth1.len(), 1);
    assert_eq!(scenario_parts(&depth1[0]), (1, 0, vec![1], vec![1], vec![vec![0]], false));

    let depth2 = depth1[0].iterate();
    assert_eq!(depth2.len(), 1);
    assert_eq!(scenario_parts(&depth2[0]), (1, 0, vec![0], vec![0], vec![vec![1]], false));

    let depth3 = depth2[0].iterate();
    assert_eq!(depth3.len(), 1);
    assert_eq!(scenario_parts(&depth3[0]), (1, 0, vec![0], vec![0], vec![vec![1]], true));
}

#[test]
fn one_slot_exponent_two() {
    assert_eq!(run(1, 0, 0, 2), (2, 1));
}

#[test]
fn one_slot_exponent_two_step_by_step() {
    let seed = Term::create_initial(1, 0, 0, 2);
    assert_eq!(scenario_parts(&seed), (1, 2, vec![2], vec![0], vec![vec![0]], false));

    let depth1 = seed.iterate();
    assert_eq!(depth1.len(), 1);
    assert_eq!(scenario_parts(&depth1[0]), (2, 1, vec![1], vec![1], vec![vec![0]], false));

    let depth2 = depth1[0].iterate();
    assert_eq!(depth2.len(), 2);
    assert_eq!(scenario_parts(&depth2[0]), (2, 0, vec![0], vec![2], vec![vec![0]], false));
    assert_eq!(scenario_parts(&depth2[1]), (2, 1, vec![0], vec![0], vec![vec![1]], false));

    let after_a = depth2[0].iterate();
    assert_eq!(after_a.len(), 1);
    assert_eq!(scenario_parts(&after_a[0]), (2, 0, vec![0], vec![2], vec![vec![0]], true));

    let after_b = depth2[1].iterate();
    assert!(after_b.is_empty());
}
