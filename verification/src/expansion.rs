//! What one step of the expansion engine does to a term: the facts about
//! children that the driver and the laws of the library rest on.

use crate::model::{
    children, cross_child, cross_children, expand, scalar_child, scalar_children, slot_children,
    wrap, TermView,
};
use crate::sums::{
    lemma_grid_sum_update, lemma_seq_sum_bounds, lemma_seq_sum_update, nonnegative, seq_sum,
};
use vstd::prelude::*;

verus! {

/// `c` arises from `t` by one differentiation: it is sound and not terminal,
/// its weight fits in 64 bits, it has the slots and the charge of `t`, no
/// primary index of it is larger than in `t`, and the primary indices sum to
/// one less.
pub open spec fn derived_from(t: TermView, c: TermView) -> bool {
    &&& c.sound()
    &&& 0 <= c.factor <= u64::MAX
    &&& !c.terminal
    &&& c.ds.len() == t.ds.len()
    &&& c.charge() == t.charge()
    &&& seq_sum(c.ds) == seq_sum(t.ds) - 1
    &&& forall|j: int| 0 <= j < t.ds.len() ==> c.ds[j] <= t.ds[j]
}

/// Every term of `s` arises from `t` by one differentiation.
pub open spec fn all_derived_from(t: TermView, s: Seq<TermView>) -> bool {
    forall|k: int| 0 <= k < s.len() ==> derived_from(t, #[trigger] s[k])
}

/// The scalar child arises from its parent by one differentiation.
pub proof fn lemma_scalar_child_derived(t: TermView, d: int)
    requires
        t.sound(),
        0 <= d < t.slots(),
        t.ds[d] > 0,
        t.pi > 0,
    ensures
        derived_from(t, scalar_child(t, d)),
{
    lemma_seq_sum_update(t.es, d, t.es[d] + 1);
    lemma_seq_sum_update(t.ds, d, t.ds[d] - 1);
    assert(0 <= wrap(t.factor * t.pi) <= u64::MAX);
}

/// A cross child arises from its parent by one differentiation.
pub proof fn lemma_cross_child_derived(t: TermView, d: int, i: int)
    requires
        t.sound(),
        0 <= d < t.slots(),
        0 <= i < t.slots(),
        t.ds[d] > 0,
        t.es[i] > 0,
    ensures
        derived_from(t, cross_child(t, d, i)),
{
    let c = cross_child(t, d, i);
    lemma_seq_sum_update(t.es, i, t.es[i] - 1);
    lemma_seq_sum_update(t.ds, d, t.ds[d] - 1);
    lemma_grid_sum_update(t.deltas, i, d, t.deltas[i][d] + 1);
    assert(0 <= wrap(t.factor * t.es[i]) <= u64::MAX);
    assert forall|r: int| 0 <= r < c.deltas.len() implies nonnegative(#[trigger] c.deltas[r]) by {
        assert(nonnegative(t.deltas[r]));
    }
}

/// All cross children of a slot arise from the parent by one
/// differentiation.
pub proof fn lemma_cross_children_derived(t: TermView, d: int, upto: int)
    requires
        t.sound(),
        0 <= d < t.slots(),
        t.ds[d] > 0,
        upto <= t.slots(),
    ensures
        all_derived_from(t, cross_children(t, d, upto)),
    decreases upto,
{
    if upto > 0 {
        lemma_cross_children_derived(t, d, upto - 1);
        if t.es[upto - 1] > 0 {
            lemma_cross_child_derived(t, d, upto - 1);
        }
    }
}

/// All children of a slot arise from the parent by one differentiation.
pub proof fn lemma_slot_children_derived(t: TermView, d: int)
    requires
        t.sound(),
        0 <= d < t.slots(),
    ensures
        all_derived_from(t, slot_children(t, d)),
{
    if t.ds[d] > 0 {
        lemma_cross_children_derived(t, d, t.slots());
        if t.pi > 0 {
            lemma_scalar_child_derived(t, d);
        }
        let first = scalar_children(t, d);
        let rest = cross_children(t, d, t.slots());
        assert forall|k: int| 0 <= k < (first + rest).len() implies derived_from(
            t,
            #[trigger] (first + rest)[k],
        ) by {
            if k >= first.len() {
                assert((first + rest)[k] == rest[k - first.len()]);
            }
        }
    }
}

/// All children of the slots below `upto` arise from the parent by one
/// differentiation.
pub proof fn lemma_children_derived(t: TermView, upto: int)
    requires
        t.sound(),
        upto <= t.slots(),
    ensures
        all_derived_from(t, children(t, upto)),
    decreases upto,
{
    if upto > 0 {
        lemma_children_derived(t, upto - 1);
        lemma_slot_children_derived(t, upto - 1);
        let first = children(t, upto - 1);
        let rest = slot_children(t, upto - 1);
        assert forall|k: int| 0 <= k < (first + rest).len() implies derived_from(
            t,
            #[trigger] (first + rest)[k],
        ) by {
            if k < first.len() {
                assert((first + rest)[k] == first[k]);
            } else {
                assert((first + rest)[k] == rest[k - first.len()]);
            }
        }
    }
}

/// How far a term is from the end of its derivation, at most: nothing for a
/// terminal term, else one step more than its primary indices sum to.
pub open spec fn rank(t: TermView) -> int {
    if t.terminal {
        0
    } else {
        seq_sum(t.ds) + 1
    }
}

/// What one step makes of a sound term: every term that follows is sound,
/// and well formed if its parent is; it carries the charge of its parent,
/// has no larger primary index, and is nearer to the end of its derivation,
/// unless the parent was terminal already; and it is marked terminal only
/// if its parent was, or had nothing left to differentiate.
pub proof fn lemma_expand_step(t: TermView)
    requires
        t.sound(),
    ensures
        forall|k: int|
            #![trigger expand(t)[k]]
            0 <= k < expand(t).len() ==> {
                let c = expand(t)[k];
                &&& c.sound()
                &&& (t.wf() ==> c.wf())
                &&& c.charge() == t.charge()
                &&& c.ds.len() == t.ds.len()
                &&& (forall|j: int| 0 <= j < t.ds.len() ==> c.ds[j] <= t.ds[j])
                &&& rank(c) >= 0
                &&& (t.terminal ==> c == t)
                &&& (!t.terminal ==> rank(c) < rank(t))
                &&& (!t.terminal && c.terminal ==> t.exhausted() && c == t.closed())
            },
{
    lemma_seq_sum_bounds(t.ds);
    if !t.terminal && !t.exhausted() {
        lemma_children_derived(t, t.slots());
        assert forall|k: int| 0 <= k < expand(t).len() implies rank(#[trigger] expand(t)[k])
            >= 0 by {
            let c = expand(t)[k];
            assert(derived_from(t, c));
            lemma_seq_sum_bounds(c.ds);
        }
    }
}

} // verus!
