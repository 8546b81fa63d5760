//! The laws of the library: what holds of every term, every derivation and
//! every reduction, proved from the definitions.

use crate::driver::{
    all_terminal, expand_all, frontier_after, frontier_sound, frontier_wf, height,
    lemma_expand_all_step, lemma_height_bounds, lemma_height_decreases,
    lemma_terminal_frontier_fixed, settled,
};
use crate::expansion::{lemma_expand_step, rank};
use crate::merge::{
    canonical_all, has_key, keys_distinct, lemma_absorb_keys, lemma_absorb_weight,
    lemma_position_finds, merged, reduced,
};
use crate::model::{
    canonical, children, cross_children, expand, same_key, seed, seed_ds, slot_children,
    weight_sum, wrap, TermView,
};
use crate::sums::{all_zero, lemma_grid_sum_zero, lemma_seq_sum_zero, seq_sum};
use vstd::prelude::*;

verus! {

/// A terminal term is absorbing: one step yields the term itself and nothing
/// else.
pub proof fn lemma_terminal_self_loop(t: TermView)
    requires
        t.terminal,
    ensures
        expand(t) == seq![t],
{
}

/// One step never raises a primary index: every term that follows a sound
/// term has the same slots, and in each slot a primary index that is at most
/// what it was.
pub proof fn lemma_primary_indices_never_grow(t: TermView, k: int)
    requires
        t.sound(),
        0 <= k < expand(t).len(),
    ensures
        expand(t)[k].ds.len() == t.ds.len(),
        forall|j: int| 0 <= j < t.ds.len() ==> expand(t)[k].ds[j] <= t.ds[j],
{
    lemma_expand_step(t);
}

/// One step takes nothing below zero: every term that follows a sound term
/// is sound, and every term that follows a well-formed term is well formed.
pub proof fn lemma_step_keeps_sound(t: TermView, k: int)
    requires
        t.sound(),
        0 <= k < expand(t).len(),
    ensures
        expand(t)[k].sound(),
        t.wf() ==> expand(t)[k].wf(),
{
    lemma_expand_step(t);
}

/// One level on, a sound frontier is sound, and a well-formed one is well
/// formed.
pub proof fn lemma_level_keeps_sound(s: Seq<TermView>)
    requires
        frontier_sound(s),
    ensures
        frontier_sound(expand_all(s)),
        frontier_wf(s) ==> frontier_wf(expand_all(s)),
{
    lemma_height_bounds(s);
    lemma_expand_all_step(s, height(s) + 1);
}

/// Any number of levels on, a sound frontier is sound, and a well-formed one
/// is well formed.
pub proof fn lemma_frontier_stays_sound(s: Seq<TermView>, k: nat)
    requires
        frontier_sound(s),
    ensures
        frontier_sound(frontier_after(s, k)),
        frontier_wf(s) ==> frontier_wf(frontier_after(s, k)),
    decreases k,
{
    if k > 0 {
        lemma_frontier_stays_sound(s, (k - 1) as nat);
        lemma_level_keeps_sound(frontier_after(s, (k - 1) as nat));
    }
}

/// Nothing is ever negative: in every term that a derivation reaches from a
/// seed, after any number of levels, the scalar, every primary index, every
/// secondary index and every cross count is at least zero.
pub proof fn lemma_reachable_nonnegative(a: nat, b: nat, c: nat, n: nat, k: nat)
    ensures
        forall|i: int|
            0 <= i < frontier_after(seq![seed(a, b, c, n)], k).len() ==> (
            #[trigger] frontier_after(seq![seed(a, b, c, n)], k)[i]).nonnegative(),
{
    let start = seq![seed(a, b, c, n)];
    assert(seed(a, b, c, n).sound());
    lemma_frontier_stays_sound(start, k);
    assert forall|i: int| 0 <= i < frontier_after(start, k).len() implies (
    #[trigger] frontier_after(start, k)[i]).nonnegative() by {
        assert(frontier_after(start, k)[i].sound());
    }
}

/// What holds of every term of a sound frontier, and of every term that
/// follows a sound term of which it holds, holds of every term one level on.
pub proof fn lemma_level_keeps(s: Seq<TermView>, holds: spec_fn(TermView) -> bool)
    requires
        frontier_sound(s),
        forall|i: int| 0 <= i < s.len() ==> holds(#[trigger] s[i]),
        forall|t: TermView, k: int|
            t.sound() && holds(t) && 0 <= k < expand(t).len() ==> holds(#[trigger] expand(t)[k]),
    ensures
        forall|i: int| 0 <= i < expand_all(s).len() ==> holds(#[trigger] expand_all(s)[i]),
    decreases s.len(),
{
    if s.len() > 0 {
        let front = s.drop_last();
        assert forall|i: int| 0 <= i < front.len() implies (#[trigger] front[i]).sound() && holds(
            front[i],
        ) by {
            assert(front[i] == s[i]);
        }
        lemma_level_keeps(front, holds);
        let t = s.last();
        assert(t == s[s.len() - 1]);
        let first = expand_all(front);
        let rest = expand(t);
        assert forall|i: int| 0 <= i < (first + rest).len() implies holds(
            #[trigger] (first + rest)[i],
        ) by {
            if i < first.len() {
                assert((first + rest)[i] == first[i]);
            } else {
                assert((first + rest)[i] == rest[i - first.len()]);
                assert(holds(expand(t)[i - first.len()]));
            }
        }
    }
}

/// What holds of every term of a sound frontier, and of every term that
/// follows a sound term of which it holds, holds of every term any number of
/// levels on.
pub proof fn lemma_frontier_keeps(s: Seq<TermView>, holds: spec_fn(TermView) -> bool, k: nat)
    requires
        frontier_sound(s),
        forall|i: int| 0 <= i < s.len() ==> holds(#[trigger] s[i]),
        forall|t: TermView, k: int|
            t.sound() && holds(t) && 0 <= k < expand(t).len() ==> holds(#[trigger] expand(t)[k]),
    ensures
        forall|i: int|
            0 <= i < frontier_after(s, k).len() ==> holds(#[trigger] frontier_after(s, k)[i]),
    decreases k,
{
    if k > 0 {
        lemma_frontier_keeps(s, holds, (k - 1) as nat);
        lemma_frontier_stays_sound(s, (k - 1) as nat);
        lemma_level_keeps(frontier_after(s, (k - 1) as nat), holds);
    }
}

/// Differentiation moves charge but makes and loses none: in every term
/// that a derivation reaches from a seed, the scalar that is left, the
/// secondary indices and the cross counts add up to the exponent.
pub proof fn lemma_reachable_charge(a: nat, b: nat, c: nat, n: nat, k: nat)
    ensures
        forall|i: int|
            0 <= i < frontier_after(seq![seed(a, b, c, n)], k).len() ==> (
            #[trigger] frontier_after(seq![seed(a, b, c, n)], k)[i]).charge() == n,
{
    let start = seq![seed(a, b, c, n)];
    let holds = |t: TermView| t.charge() == n;
    lemma_seq_sum_zero(seed(a, b, c, n).es);
    lemma_grid_sum_zero(seed(a, b, c, n).deltas);
    assert(seed(a, b, c, n).sound());
    assert forall|t: TermView, j: int|
        t.sound() && holds(t) && 0 <= j < expand(t).len() implies holds(
        #[trigger] expand(t)[j],
    ) by {
        lemma_expand_step(t);
    }
    lemma_frontier_keeps(start, holds, k);
    assert forall|i: int| 0 <= i < frontier_after(start, k).len() implies (
    #[trigger] frontier_after(start, k)[i]).charge() == n by {
        assert(holds(frontier_after(start, k)[i]));
    }
}

/// The terminal mark is earned: in every term that a derivation reaches from
/// a seed, the mark is set only if every primary index and the scalar are
/// zero.
pub proof fn lemma_reachable_marks(a: nat, b: nat, c: nat, n: nat, k: nat)
    ensures
        forall|i: int|
            0 <= i < frontier_after(seq![seed(a, b, c, n)], k).len() ==> ((
            #[trigger] frontier_after(seq![seed(a, b, c, n)], k)[i]).terminal ==> frontier_after(
                seq![seed(a, b, c, n)],
                k,
            )[i].exhausted()),
{
    let start = seq![seed(a, b, c, n)];
    let holds = |t: TermView| t.terminal ==> t.exhausted();
    assert(seed(a, b, c, n).sound());
    assert forall|t: TermView, j: int|
        t.sound() && holds(t) && 0 <= j < expand(t).len() implies holds(
        #[trigger] expand(t)[j],
    ) by {
        lemma_expand_step(t);
    }
    lemma_frontier_keeps(start, holds, k);
    assert forall|i: int| 0 <= i < frontier_after(start, k).len() implies ((
    #[trigger] frontier_after(start, k)[i]).terminal ==> frontier_after(start, k)[i].exhausted()) by {
        assert(holds(frontier_after(start, k)[i]));
    }
}

/// No term of `s` has other slots than `limit` has entries, or a primary
/// index above the entry of `limit` for its slot.
pub open spec fn primaries_within(s: Seq<TermView>, limit: Seq<int>) -> bool {
    forall|i: int|
        0 <= i < s.len() ==> (#[trigger] s[i]).ds.len() == limit.len() && (forall|j: int|
            0 <= j < limit.len() ==> s[i].ds[j] <= limit[j])
}

/// Along every derivation path the primary indices only fall: a term that is
/// reached from a sound term `t`, after any number of levels, has in each
/// slot a primary index that is at most that of `t`.
pub proof fn lemma_primary_indices_monotone(t: TermView, k: nat)
    requires
        t.sound(),
    ensures
        primaries_within(frontier_after(seq![t], k), t.ds),
{
    let start = seq![t];
    let holds = |c: TermView|
        c.ds.len() == t.ds.len() && (forall|j: int| 0 <= j < t.ds.len() ==> c.ds[j] <= t.ds[j]);
    assert forall|u: TermView, j: int|
        u.sound() && holds(u) && 0 <= j < expand(u).len() implies holds(
        #[trigger] expand(u)[j],
    ) by {
        lemma_expand_step(u);
    }
    lemma_frontier_keeps(start, holds, k);
    assert forall|i: int| 0 <= i < frontier_after(start, k).len() implies (
    #[trigger] frontier_after(start, k)[i]).ds.len() == t.ds.len() && (forall|j: int|
        0 <= j < t.ds.len() ==> frontier_after(start, k)[i].ds[j] <= t.ds[j]) by {
        assert(holds(frontier_after(start, k)[i]));
    }
}

/// The number of levels after which every term of the frontier is terminal
/// for the first time.
pub open spec fn settling_level(s: Seq<TermView>) -> nat
    decreases height(s),
    when frontier_sound(s)
    via settling_level_decreases
{
    if all_terminal(s) {
        0
    } else {
        1 + settling_level(expand_all(s))
    }
}

#[via_fn]
proof fn settling_level_decreases(s: Seq<TermView>) {
    if !all_terminal(s) {
        lemma_height_decreases(s);
    }
}

/// Levels can be counted from either end: `k` levels after the next level is
/// the level after `k` levels.
pub proof fn lemma_frontier_after_shift(s: Seq<TermView>, k: nat)
    ensures
        frontier_after(expand_all(s), k) == frontier_after(s, k + 1),
    decreases k,
{
    if k > 0 {
        lemma_frontier_after_shift(s, (k - 1) as nat);
    } else {
        assert(frontier_after(s, 1) == expand_all(frontier_after(s, 0)));
    }
}

/// The settled frontier is the frontier at the settling level; every term of
/// it is terminal; at no earlier level is that so; and the settling level is
/// at most the height of the frontier.
pub proof fn lemma_settled(s: Seq<TermView>)
    requires
        frontier_sound(s),
    ensures
        settled(s) == frontier_after(s, settling_level(s)),
        all_terminal(settled(s)),
        forall|j: nat| j < settling_level(s) ==> !all_terminal(#[trigger] frontier_after(s, j)),
        settling_level(s) <= height(s),
    decreases height(s),
{
    lemma_height_bounds(s);
    if !all_terminal(s) {
        let next = expand_all(s);
        lemma_height_decreases(s);
        lemma_settled(next);
        lemma_frontier_after_shift(s, settling_level(next));
        assert forall|j: nat| j < settling_level(s) implies !all_terminal(
            #[trigger] frontier_after(s, j),
        ) by {
            if j > 0 {
                lemma_frontier_after_shift(s, (j - 1) as nat);
                assert(!all_terminal(frontier_after(next, (j - 1) as nat)));
            }
        }
    }
}

/// Once every term is terminal, the frontier no longer changes.
pub proof fn lemma_settled_stays(s: Seq<TermView>, from: nat, k: nat)
    requires
        all_terminal(frontier_after(s, from)),
        from <= k,
    ensures
        frontier_after(s, k) == frontier_after(s, from),
    decreases k,
{
    if k > from {
        lemma_settled_stays(s, from, (k - 1) as nat);
        lemma_terminal_frontier_fixed(frontier_after(s, from));
    }
}

/// The primary indices of a seed sum to `2a + 4b + 6c`.
pub proof fn lemma_seed_ds_sum(a: nat, b: nat, c: nat)
    ensures
        seq_sum(seed_ds(a, b, c)) == 2 * a + 4 * b + 6 * c,
    decreases a + b + c,
{
    let s = seed_ds(a, b, c);
    if c > 0 {
        assert(s.drop_last() =~= seed_ds(a, b, (c - 1) as nat));
        lemma_seed_ds_sum(a, b, (c - 1) as nat);
    } else if b > 0 {
        assert(s.drop_last() =~= seed_ds(a, (b - 1) as nat, 0));
        lemma_seed_ds_sum(a, (b - 1) as nat, 0);
    } else if a > 0 {
        assert(s.drop_last() =~= seed_ds((a - 1) as nat, 0, 0));
        lemma_seed_ds_sum((a - 1) as nat, 0, 0);
    }
}

/// A term without scalar and without secondary indices has no children.
pub proof fn lemma_no_children(t: TermView, upto: int)
    requires
        t.pi == 0,
        all_zero(t.es),
        upto <= t.ds.len(),
    ensures
        children(t, upto) == Seq::<TermView>::empty(),
    decreases upto,
{
    if upto > 0 {
        lemma_no_children(t, upto - 1);
        lemma_no_cross_children(t, upto - 1, t.es.len() as int);
        assert(slot_children(t, upto - 1) =~= Seq::<TermView>::empty());
        assert(children(t, upto) =~= Seq::<TermView>::empty());
    }
}

/// A term without secondary indices has no cross children.
pub proof fn lemma_no_cross_children(t: TermView, d: int, upto: int)
    requires
        all_zero(t.es),
        upto <= t.es.len(),
    ensures
        cross_children(t, d, upto) == Seq::<TermView>::empty(),
    decreases upto,
{
    if upto > 0 {
        lemma_no_cross_children(t, d, upto - 1);
    }
}

/// Every derivation ends, and soon: from the seed of `a`, `b`, `c` slots and
/// exponent `n`, not all of them zero, every term of the frontier is
/// terminal for the first time after at most `n + 2a + 4b + 6c` levels, and
/// then for good.
///
/// The one seed left out, with no slot and exponent zero, takes one level to
/// be marked terminal, where the bound would be zero.
pub proof fn lemma_terminates_within_bound(a: nat, b: nat, c: nat, n: nat)
    requires
        a + b + c + n > 0,
    ensures
        settling_level(seq![seed(a, b, c, n)]) <= n + 2 * a + 4 * b + 6 * c,
        all_terminal(frontier_after(seq![seed(a, b, c, n)], n + 2 * a + 4 * b + 6 * c)),
        frontier_after(seq![seed(a, b, c, n)], n + 2 * a + 4 * b + 6 * c) == settled(
            seq![seed(a, b, c, n)],
        ),
{
    let t = seed(a, b, c, n);
    let start = seq![t];
    let bound: nat = n + 2 * a + 4 * b + 6 * c;
    assert(t.sound());
    assert(frontier_sound(start));
    lemma_settled(start);
    lemma_seed_ds_sum(a, b, c);
    assert(height(start) == rank(t)) by {
        reveal_with_fuel(height, 2);
        assert(start.drop_last() =~= Seq::<TermView>::empty());
        assert(start.last() == t);
    }
    if n == 0 {
        assert(t.ds[0] > 0);
        assert(!t.exhausted());
        lemma_no_children(t, t.slots());
        assert(expand_all(start) =~= Seq::<TermView>::empty()) by {
            reveal_with_fuel(expand_all, 2);
            assert(start.drop_last() =~= Seq::<TermView>::empty());
            assert(start.last() == t);
        }
        assert(!all_terminal(start)) by {
            assert(!start[0].terminal);
        }
        assert(frontier_sound(expand_all(start)));
        assert(all_terminal(expand_all(start)));
        assert(settling_level(expand_all(start)) == 0);
        assert(settling_level(start) == 1);
    }
    lemma_settled_stays(start, settling_level(start), bound);
}

/// Canonical form is final: putting a term in canonical form a second time
/// changes nothing.
///
/// This holds of every term but those of two slots whose second secondary
/// index is the larger one while the first diagonal cross count is the
/// larger one: there the first pass exchanges both pairs, which leaves the
/// diagonal in the order that a second pass exchanges once more.
pub proof fn lemma_canonical_idempotent(t: TermView)
    requires
        !(t.es.len() == 2 && t.es[1] > t.es[0] && t.deltas[0][0] > t.deltas[1][1]),
    ensures
        canonical(canonical(t)) == canonical(t),
{
    if t.es.len() == 2 {
        let once = canonical(t);
        let twice = canonical(once);
        assert(once.es.len() == 2);
        assert(twice.es =~= once.es);
        assert(twice.deltas =~= once.deltas) by {
            assert(twice.deltas[0] =~= once.deltas[0]);
            assert(twice.deltas[1] =~= once.deltas[1]);
        }
        assert(twice =~= once);
    }
}

/// Merging leaves one term for each structure: no two terms of the result
/// have the same structure, every structure of the input is there, and no
/// other.
pub proof fn lemma_merged_keys(s: Seq<TermView>)
    ensures
        keys_distinct(merged(s)),
        forall|x: TermView| has_key(s, x) <==> has_key(merged(s), x),
    decreases s.len(),
{
    if s.len() > 0 {
        let front = s.drop_last();
        let t = s.last();
        lemma_merged_keys(front);
        lemma_absorb_keys(merged(front), t);
        assert forall|x: TermView| has_key(s, x) implies has_key(merged(s), x) by {
            let i = choose|i: int| 0 <= i < s.len() && same_key(#[trigger] s[i], x);
            if i < s.len() - 1 {
                assert(front[i] == s[i]);
                assert(has_key(front, x));
            } else {
                assert(same_key(t, x));
                let j = choose|j: int|
                    0 <= j < merged(s).len() && same_key(
                        #[trigger] merged(s)[j],
                        t,
                    );
                assert(same_key(merged(s)[j], x));
            }
        }
        assert forall|x: TermView| has_key(merged(s), x) implies has_key(s, x) by {
            if has_key(merged(front), x) {
                assert(has_key(front, x));
                let i = choose|i: int|
                    0 <= i < front.len() && same_key(#[trigger] front[i], x);
                assert(same_key(s[i], x));
            } else {
                assert(same_key(s[s.len() - 1], x));
            }
        }
    }
}

/// Merging loses no weight: the weights of the result add up to what the
/// weights of the input add up to, when both sums are taken in 64 bits; and
/// as plain integers too, if no weight is negative and the sum of the input
/// fits in 64 bits.
pub proof fn lemma_merged_weight(s: Seq<TermView>)
    ensures
        wrap(weight_sum(merged(s))) == wrap(weight_sum(s)),
        (forall|i: int| 0 <= i < s.len() ==> (#[trigger] s[i]).factor >= 0) && weight_sum(s)
            <= u64::MAX ==> weight_sum(merged(s)) == weight_sum(s) && (forall|i: int|
            0 <= i < merged(s).len() ==> (#[trigger] merged(s)[i]).factor >= 0),
    decreases s.len(),
{
    if s.len() > 0 {
        let front = s.drop_last();
        let t = s.last();
        let acc = merged(front);
        lemma_merged_weight(front);
        lemma_absorb_weight(acc, t);
        if (forall|i: int| 0 <= i < s.len() ==> (#[trigger] s[i]).factor >= 0) && weight_sum(s)
            <= u64::MAX {
            assert(t == s[s.len() - 1]);
            assert forall|i: int| 0 <= i < front.len() implies (#[trigger] front[i]).factor
                >= 0 by {
                assert(front[i] == s[i]);
            }
            assert forall|i: int| 0 <= i < merged(s).len() implies (#[trigger] merged(
                s,
            )[i]).factor >= 0 by {
                lemma_position_finds(acc, t);
                if i < acc.len() {
                    assert(acc[i].factor >= 0);
                }
            }
        }
    }
}

/// Putting every term in canonical form leaves the weights as they are.
pub proof fn lemma_canonical_all_weight(s: Seq<TermView>)
    ensures
        weight_sum(canonical_all(s)) == weight_sum(s),
        forall|i: int| 0 <= i < s.len() ==> (#[trigger] canonical_all(s)[i]).factor == s[i].factor,
    decreases s.len(),
{
    if s.len() > 0 {
        assert(canonical_all(s).drop_last() =~= canonical_all(s.drop_last()));
        lemma_canonical_all_weight(s.drop_last());
    }
}

/// Terms that are in canonical form already are merged as they are.
pub proof fn lemma_reduce_of_canonical(s: Seq<TermView>)
    requires
        forall|i: int| 0 <= i < s.len() ==> canonical(#[trigger] s[i]) == s[i],
    ensures
        reduced(s) == merged(s),
{
    assert(canonical_all(s) =~= s);
}

/// Reduction loses no weight: the weights of the reduced list add up to what
/// the weights of the given list add up to, when both sums are taken in 64
/// bits as the library's totals are; and as plain integers too, if no weight
/// is negative and the sum of the given list fits in 64 bits.
pub proof fn lemma_reduce_keeps_weight(s: Seq<TermView>)
    ensures
        wrap(weight_sum(reduced(s))) == wrap(weight_sum(s)),
        (forall|i: int| 0 <= i < s.len() ==> (#[trigger] s[i]).factor >= 0) && weight_sum(s)
            <= u64::MAX ==> weight_sum(reduced(s)) == weight_sum(s),
{
    lemma_canonical_all_weight(s);
    lemma_merged_weight(canonical_all(s));
    if forall|i: int| 0 <= i < s.len() ==> (#[trigger] s[i]).factor >= 0 {
        assert forall|i: int| 0 <= i < canonical_all(s).len() implies (#[trigger] canonical_all(
            s,
        )[i]).factor >= 0 by {
            assert(s[i].factor >= 0);
        }
    }
}

} // verus!
