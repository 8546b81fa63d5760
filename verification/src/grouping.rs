//! What merging means, term by term: each term of the result stands for one
//! group of the input, the terms of one structure, and carries its weight.

use crate::laws::lemma_merged_keys;
use crate::merge::{
    absorb, has_key, lemma_position_finds, lemma_position_is, merged, position,
};
use crate::model::{same_key, wrap, TermView};
use vstd::prelude::*;

verus! {

/// The sum of the weights of those terms of `s` that have the structure of
/// `x`, as an integer.
pub open spec fn group_weight(s: Seq<TermView>, x: TermView) -> int
    decreases s.len(),
{
    if s.len() == 0 {
        0
    } else if same_key(s.last(), x) {
        group_weight(s.drop_last(), x) + s.last().factor
    } else {
        group_weight(s.drop_last(), x)
    }
}

/// `g` stands for its group in `s`: it is the first term of `s` with its
/// structure, but for the weight, which is the weight of the whole group in
/// 64 bits.
pub open spec fn stands_for(s: Seq<TermView>, g: TermView) -> bool {
    let i = position(s, g);
    i < s.len() && g == (TermView { factor: wrap(group_weight(s, g)), ..s[i] })
}

/// The terms of `out` come in the order in which their structures first
/// occur in `s`.
pub open spec fn in_order_of_first(s: Seq<TermView>, out: Seq<TermView>) -> bool {
    forall|j: int, k: int|
        0 <= j < k < out.len() ==> position(s, #[trigger] out[j]) < position(
            s,
            #[trigger] out[k],
        )
}

/// Position and group weight depend on the structure alone.
pub proof fn lemma_by_structure(s: Seq<TermView>, x: TermView, y: TermView)
    requires
        same_key(x, y),
    ensures
        position(s, x) == position(s, y),
        group_weight(s, x) == group_weight(s, y),
    decreases s.len(),
{
    if s.len() > 0 {
        lemma_by_structure(s.drop_last(), x, y);
        lemma_by_structure(s.drop_first(), x, y);
    }
}

/// A structure that does not occur has no position and no weight.
pub proof fn lemma_absent(s: Seq<TermView>, x: TermView)
    requires
        !has_key(s, x),
    ensures
        position(s, x) == s.len(),
        group_weight(s, x) == 0,
    decreases s.len(),
{
    lemma_position_finds(s, x);
    if position(s, x) < s.len() {
        assert(same_key(s[position(s, x)], x));
    }
    if s.len() > 0 {
        let front = s.drop_last();
        assert(!has_key(front, x)) by {
            if has_key(front, x) {
                let i = choose|i: int| 0 <= i < front.len() && same_key(#[trigger] front[i], x);
                assert(same_key(s[i], x));
            }
        }
        lemma_absent(front, x);
        assert(!same_key(s[s.len() - 1], x));
    }
}

/// What one more term changes: a structure that occurred before keeps its
/// position; one that occurs for the first time stands last.
pub proof fn lemma_position_grows(s: Seq<TermView>, x: TermView)
    requires
        s.len() > 0,
    ensures
        position(s.drop_last(), x) < s.len() - 1 ==> position(s, x) == position(s.drop_last(), x),
        position(s.drop_last(), x) == s.len() - 1 && same_key(s.last(), x) ==> position(s, x)
            == s.len() - 1,
{
    let front = s.drop_last();
    lemma_position_finds(front, x);
    let p = position(front, x);
    assert forall|k: int| 0 <= k < p implies !same_key(#[trigger] s[k], x) by {
        assert(s[k] == front[k]);
    }
    if p < front.len() {
        assert(s[p] == front[p]);
        lemma_position_is(s, x, p);
    } else if same_key(s.last(), x) {
        lemma_position_is(s, x, p);
    }
}

/// Merging, term by term: every term of the result stands for its group in
/// the input, and the terms come in the order in which their structures
/// first occur there.
pub proof fn lemma_merged_groups(s: Seq<TermView>)
    requires
        forall|i: int| 0 <= i < s.len() ==> 0 <= (#[trigger] s[i]).factor <= u64::MAX,
    ensures
        forall|j: int| 0 <= j < merged(s).len() ==> stands_for(s, #[trigger] merged(s)[j]),
        in_order_of_first(s, merged(s)),
    decreases s.len(),
{
    if s.len() > 0 {
        let front = s.drop_last();
        let t = s.last();
        let acc = merged(front);
        let out = merged(s);
        let p = position(acc, t);
        assert(t == s[s.len() - 1]);
        assert forall|i: int| 0 <= i < front.len() implies 0 <= (#[trigger] front[i]).factor
            <= u64::MAX by {
            assert(front[i] == s[i]);
        }
        lemma_merged_groups(front);
        lemma_merged_keys(front);
        lemma_position_finds(acc, t);
        assert(out == absorb(acc, t));
        assert forall|j: int| 0 <= j < out.len() implies stands_for(s, #[trigger] out[j]) && (j
            < acc.len() ==> position(s, out[j]) == position(front, acc[j]) && position(
            front,
            acc[j],
        ) < front.len()) && (j >= acc.len() ==> position(s, out[j]) == s.len() - 1) by {
            if j < acc.len() {
                let g = acc[j];
                assert(stands_for(front, g));
                assert(same_key(out[j], g));
                lemma_by_structure(s, out[j], g);
                lemma_by_structure(front, out[j], g);
                lemma_position_grows(s, g);
                let i = position(front, g);
                lemma_position_finds(front, g);
                assert(s[i] == front[i]);
                if p < acc.len() && j != p {
                    assert(!same_key(acc[j], acc[p]));
                }
                if same_key(t, g) {
                    assert(j == p);
                }
            } else {
                assert(out[j] == t);
                assert(!has_key(acc, t)) by {
                    if has_key(acc, t) {
                        let i = choose|i: int| 0 <= i < acc.len() && same_key(#[trigger] acc[i], t);
                        assert(!same_key(acc[i], t));
                    }
                }
                lemma_absent(front, t);
                lemma_position_grows(s, t);
            }
        }
        assert forall|j: int, k: int| 0 <= j < k < out.len() implies position(
            s,
            #[trigger] out[j],
        ) < position(s, #[trigger] out[k]) by {
            assert(stands_for(s, out[j]) && stands_for(s, out[k]));
            if k < acc.len() {
                assert(position(front, acc[j]) < position(front, acc[k]));
            }
        }
    }
}

} // verus!
