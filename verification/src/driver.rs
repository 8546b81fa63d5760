//! The driver: expansion of a whole frontier, level after level, until every
//! term of it is terminal; and the totals that a caller reads off the end.

use crate::expansion::{lemma_expand_step, rank};
use crate::model::{expand, seed, weight_sum, wrap, TermView};
use crate::sums::lemma_seq_sum_bounds;
use crate::term::{all_wf, views, Term};
use rayon::iter::IntoParallelRefIterator;
use rayon::iter::ParallelIterator;
use vstd::prelude::*;

verus! {

/// One level of the expansion: the terms that follow the first term of `s`,
/// then those that follow the second, and so on.
pub open spec fn expand_all(s: Seq<TermView>) -> Seq<TermView>
    decreases s.len(),
{
    if s.len() == 0 {
        Seq::empty()
    } else {
        expand_all(s.drop_last()) + expand(s.last())
    }
}

/// The frontier `k` levels after `s`.
pub open spec fn frontier_after(s: Seq<TermView>, k: nat) -> Seq<TermView>
    decreases k,
{
    if k == 0 {
        s
    } else {
        expand_all(frontier_after(s, (k - 1) as nat))
    }
}

/// Every term of the frontier is terminal.
pub open spec fn all_terminal(s: Seq<TermView>) -> bool {
    forall|i: int| 0 <= i < s.len() ==> (#[trigger] s[i]).terminal
}

/// Every term of the frontier is sound.
pub open spec fn frontier_sound(s: Seq<TermView>) -> bool {
    forall|i: int| 0 <= i < s.len() ==> (#[trigger] s[i]).sound()
}

/// Every term of the frontier is well formed.
pub open spec fn frontier_wf(s: Seq<TermView>) -> bool {
    forall|i: int| 0 <= i < s.len() ==> (#[trigger] s[i]).wf()
}

/// No term of the frontier has a rank above `bound`.
pub open spec fn ranks_within(s: Seq<TermView>, bound: int) -> bool {
    forall|i: int| 0 <= i < s.len() ==> rank(#[trigger] s[i]) <= bound
}

/// The largest rank in the frontier, and 0 for an empty one: a bound on the
/// number of levels until every term is terminal.
pub open spec fn height(s: Seq<TermView>) -> int
    decreases s.len(),
{
    if s.len() == 0 {
        0
    } else if rank(s.last()) > height(s.drop_last()) {
        rank(s.last())
    } else {
        height(s.drop_last())
    }
}

/// The frontier at the first level at which every term is terminal.
pub open spec fn settled(s: Seq<TermView>) -> Seq<TermView>
    decreases height(s),
    when frontier_sound(s)
    via settled_decreases
{
    if all_terminal(s) {
        s
    } else {
        settled(expand_all(s))
    }
}

/// The height is not negative, and it bounds every rank.
pub proof fn lemma_height_bounds(s: Seq<TermView>)
    ensures
        height(s) >= 0,
        ranks_within(s, height(s)),
    decreases s.len(),
{
    if s.len() > 0 {
        lemma_height_bounds(s.drop_last());
        assert forall|i: int| 0 <= i < s.len() implies rank(#[trigger] s[i]) <= height(s) by {
            if i < s.len() - 1 {
                assert(s.drop_last()[i] == s[i]);
            }
        }
    }
}

/// The height is the least bound on the ranks that is not negative.
pub proof fn lemma_height_least(s: Seq<TermView>, bound: int)
    requires
        bound >= 0,
        ranks_within(s, bound),
    ensures
        height(s) <= bound,
    decreases s.len(),
{
    if s.len() > 0 {
        assert forall|i: int| 0 <= i < s.drop_last().len() implies rank(
            #[trigger] s.drop_last()[i],
        ) <= bound by {
            assert(s.drop_last()[i] == s[i]);
        }
        lemma_height_least(s.drop_last(), bound);
        assert(rank(s[s.len() - 1]) <= bound);
    }
}

/// A level appended to a frontier expands to what the frontier expands to,
/// followed by what the level expands to.
pub proof fn lemma_expand_all_push(s: Seq<TermView>, t: TermView)
    ensures
        expand_all(s.push(t)) == expand_all(s) + expand(t),
{
    assert(s.push(t).drop_last() =~= s);
}

/// One level on: a sound frontier stays sound, a well-formed one stays well
/// formed, and a bound of at least 1 on the ranks goes down by one.
pub proof fn lemma_expand_all_step(s: Seq<TermView>, bound: int)
    requires
        frontier_sound(s),
        ranks_within(s, bound),
        bound >= 1,
    ensures
        frontier_sound(expand_all(s)),
        frontier_wf(s) ==> frontier_wf(expand_all(s)),
        ranks_within(expand_all(s), bound - 1),
    decreases s.len(),
{
    if s.len() > 0 {
        let front = s.drop_last();
        assert forall|i: int| 0 <= i < front.len() implies (#[trigger] front[i]).sound() && rank(
            front[i],
        ) <= bound && (frontier_wf(s) ==> front[i].wf()) by {
            assert(front[i] == s[i]);
        }
        lemma_expand_all_step(front, bound);
        let t = s.last();
        assert(t == s[s.len() - 1]);
        assert(t.sound() && rank(t) <= bound);
        lemma_expand_step(t);
        let first = expand_all(front);
        let rest = expand(t);
        assert forall|k: int| 0 <= k < (first + rest).len() implies (#[trigger] (first
            + rest)[k]).sound() && rank((first + rest)[k]) <= bound - 1 && (frontier_wf(s) ==> (
        first + rest)[k].wf()) by {
            if k < first.len() {
                assert((first + rest)[k] == first[k]);
            } else {
                assert((first + rest)[k] == rest[k - first.len()]);
            }
        }
    }
}

/// A frontier in which some term is not terminal has a height of at least 1.
pub proof fn lemma_unsettled_height(s: Seq<TermView>)
    requires
        frontier_sound(s),
        !all_terminal(s),
    ensures
        height(s) >= 1,
{
    lemma_height_bounds(s);
    let i = choose|i: int| 0 <= i < s.len() && !(#[trigger] s[i]).terminal;
    assert(s[i].sound());
    lemma_seq_sum_bounds(s[i].ds);
    assert(rank(s[i]) >= 1);
}

/// One level on from a frontier that is not settled, the height is smaller.
pub proof fn lemma_height_decreases(s: Seq<TermView>)
    requires
        frontier_sound(s),
        !all_terminal(s),
    ensures
        frontier_sound(expand_all(s)),
        frontier_wf(s) ==> frontier_wf(expand_all(s)),
        0 <= height(expand_all(s)) < height(s),
{
    lemma_unsettled_height(s);
    lemma_height_bounds(s);
    lemma_expand_all_step(s, height(s));
    lemma_height_least(expand_all(s), height(s) - 1);
    lemma_height_bounds(expand_all(s));
}

#[via_fn]
proof fn settled_decreases(s: Seq<TermView>) {
    if !all_terminal(s) {
        lemma_height_decreases(s);
    }
}

/// A frontier in which every term is terminal expands to itself.
pub proof fn lemma_terminal_frontier_fixed(s: Seq<TermView>)
    requires
        all_terminal(s),
    ensures
        expand_all(s) == s,
    decreases s.len(),
{
    if s.len() > 0 {
        let front = s.drop_last();
        assert forall|i: int| 0 <= i < front.len() implies (#[trigger] front[i]).terminal by {
            assert(front[i] == s[i]);
        }
        lemma_terminal_frontier_fixed(front);
        assert(s[s.len() - 1].terminal);
        assert(front + seq![s.last()] =~= s);
    }
}

/// `rayon`'s `par_iter().map(..).collect()` over the frontier, with
/// [`Term::iterate`] as the map.
///
/// Taken on trust from `rayon`: that it applies the map to every term of the
/// frontier, each on whichever worker thread it picks, that it gathers the
/// results in the order of the frontier, and that it returns only when every
/// term has been expanded. What each result is, is the contract of
/// [`Term::iterate`].
#[verifier::external_body]
fn expand_each(terms: &Vec<Term>) -> (parts: Vec<Vec<Term>>)
    requires
        all_wf(terms@),
    ensures
        parts@.len() == terms@.len(),
        forall|i: int|
            0 <= i < terms@.len() ==> views((#[trigger] parts@[i])@) == expand(terms@[i]@)
                && all_wf(parts@[i]@),
{
    terms.par_iter().map(|x| x.iterate()).collect()
}

/// One level of the expansion: replaces every term of the frontier by the
/// terms that follow it, in the order of the frontier.
pub fn iterate_terms(terms: Vec<Term>) -> (new_terms: Vec<Term>)
    requires
        all_wf(terms@),
    ensures
        views(new_terms@) == expand_all(views(terms@)),
        all_wf(new_terms@),
{
    let mut new_terms: Vec<Term> = Vec::new();
    let a: Vec<Vec<Term>> = expand_each(&terms);
    let ghost level = views(terms@);
    assert(level.take(0) =~= Seq::empty());
    for part in it: a
        invariant
            it.seq() == a@,
            a@.len() == terms@.len(),
            level == views(terms@),
            forall|i: int|
                0 <= i < terms@.len() ==> views((#[trigger] a@[i])@) == expand(terms@[i]@)
                    && all_wf(a@[i]@),
            views(new_terms@) == expand_all(level.take(it.index() as int)),
            all_wf(new_terms@),
    {
        let ghost k = it.index() as int;
        let ghost sofar = new_terms@;
        let mut part = part;
        assert(part == a@[k]);
        new_terms.append(&mut part);
        proof {
            assert(level.take(k + 1) =~= level.take(k).push(level[k]));
            lemma_expand_all_push(level.take(k), level[k]);
            assert(views(new_terms@) =~= views(sofar) + views(a@[k]@));
        }
    }
    assert(level.take(terms@.len() as int) =~= level);
    new_terms
}

/// Whether every term of the frontier is marked terminal.
pub fn every_terminal(terms: &Vec<Term>) -> (r: bool)
    ensures
        r == all_terminal(views(terms@)),
{
    let mut i: usize = 0;
    while i < terms.len()
        invariant
            i <= terms.len(),
            forall|k: int| 0 <= k < i ==> (#[trigger] views(terms@)[k]).terminal,
        decreases terms.len() - i,
    {
        if !terms[i].terminal() {
            assert(!views(terms@)[i as int].terminal);
            return false;
        }
        i += 1;
    }
    true
}

/// Expands the frontier level after level and returns it as it stands at
/// the first level at which every term is terminal. No level is begun
/// before the one before it is complete.
pub fn iterate_until_finished(init_terms: Vec<Term>) -> (terms: Vec<Term>)
    requires
        all_wf(init_terms@),
    ensures
        views(terms@) == settled(views(init_terms@)),
        all_terminal(views(terms@)),
        all_wf(terms@),
{
    let ghost start = views(init_terms@);
    let mut terms = init_terms;
    loop
        invariant
            all_wf(terms@),
            settled(views(terms@)) == settled(start),
        ensures
            all_terminal(views(terms@)),
        decreases height(views(terms@)),
    {
        if every_terminal(&terms) {
            break ;
        }
        proof {
            lemma_height_decreases(views(terms@));
        }
        terms = iterate_terms(terms);
    }
    terms
}

/// The sum of the weights of the frontier, in 64 bits: a sum that no longer
/// fits wraps around, as the weights themselves do.
pub fn total_factor(terms: &Vec<Term>) -> (total: u64)
    ensures
        total == wrap(weight_sum(views(terms@))),
{
    let ghost level = views(terms@);
    let mut total: u64 = 0;
    let mut i: usize = 0;
    assert(level.take(0) =~= Seq::empty());
    while i < terms.len()
        invariant
            i <= terms.len(),
            level == views(terms@),
            total == wrap(weight_sum(level.take(i as int))),
        decreases terms.len() - i,
    {
        let x: u64 = terms[i].factor();
        proof {
            assert(level.take(i + 1).drop_last() =~= level.take(i as int));
            assert(level.take(i + 1).last() == level[i as int]);
        }
        total = total.wrapping_add(x);
        i += 1;
    }
    assert(level.take(terms@.len() as int) =~= level);
    total
}

/// The whole computation: seeds one term from the counts `a`, `b`, `c` of
/// slots with primary index 2, 4, 6 and the exponent `n`, expands until
/// every term is terminal, and returns the total weight and the number of
/// terms of the final frontier.
///
/// The slots, and the grid of cross counts over them, must fit in memory.
pub fn run(a: usize, b: usize, c: usize, n: usize) -> (totals: (u64, usize))
    requires
        a + b + c <= usize::MAX,
        (a + b + c) * (a + b + c) <= usize::MAX,
    ensures
        totals.0 == wrap(weight_sum(settled(seq![seed(a as nat, b as nat, c as nat, n as nat)]))),
        totals.1 == settled(seq![seed(a as nat, b as nat, c as nat, n as nat)]).len(),
{
    let init: Vec<Term> = vec![Term::create_initial(a, b, c, n)];
    assert(views(init@) =~= seq![seed(a as nat, b as nat, c as nat, n as nat)]);
    let terms = iterate_until_finished(init);
    (total_factor(&terms), terms.len())
}

} // verus!
