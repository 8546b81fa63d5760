//! The merger: terms of the same structure are gathered into one term that
//! carries the sum of their weights.

use crate::model::{canonical, same_key, weight_sum, wrap, TermView};
use crate::term::{all_wf, views, Term};
use vstd::prelude::*;

verus! {

/// Where the first term with the structure of `t` stands in `acc`, or the
/// length of `acc` if there is none.
pub open spec fn position(acc: Seq<TermView>, t: TermView) -> int
    decreases acc.len(),
{
    if acc.len() == 0 {
        0
    } else if same_key(acc.first(), t) {
        0
    } else {
        1 + position(acc.drop_first(), t)
    }
}

/// `acc` after it has taken in `t`: the first term with the structure of `t`
/// gains the weight of `t`, in 64 bits; if there is none, `t` is appended.
pub open spec fn absorb(acc: Seq<TermView>, t: TermView) -> Seq<TermView> {
    let j = position(acc, t);
    if j < acc.len() {
        acc.update(j, TermView { factor: wrap(acc[j].factor + t.factor), ..acc[j] })
    } else {
        acc.push(t)
    }
}

/// One term for each structure that occurs in `s`, in the order in which
/// the structures first occur. Each is the first term of `s` with that
/// structure, with the weights of all terms of that structure added up in 64
/// bits.
pub open spec fn merged(s: Seq<TermView>) -> Seq<TermView>
    decreases s.len(),
{
    if s.len() == 0 {
        Seq::empty()
    } else {
        absorb(merged(s.drop_last()), s.last())
    }
}

/// The canonical form of each term of `s`.
pub open spec fn canonical_all(s: Seq<TermView>) -> Seq<TermView> {
    Seq::new(s.len(), |i: int| canonical(s[i]))
}

/// The reduction of `s`: its terms in canonical form, merged.
pub open spec fn reduced(s: Seq<TermView>) -> Seq<TermView> {
    merged(canonical_all(s))
}

/// No two terms of `s` have the same structure.
pub open spec fn keys_distinct(s: Seq<TermView>) -> bool {
    forall|i: int, j: int| 0 <= i < j < s.len() ==> !same_key(#[trigger] s[i], #[trigger] s[j])
}

/// Some term of `s` has the structure of `t`.
pub open spec fn has_key(s: Seq<TermView>, t: TermView) -> bool {
    exists|i: int| 0 <= i < s.len() && same_key(#[trigger] s[i], t)
}

/// The position is in range; a term stands there with the structure asked
/// for, unless the position is the length; and no term before it has that
/// structure.
pub proof fn lemma_position_finds(acc: Seq<TermView>, t: TermView)
    ensures
        0 <= position(acc, t) <= acc.len(),
        position(acc, t) < acc.len() ==> same_key(acc[position(acc, t)], t),
        forall|k: int| 0 <= k < position(acc, t) ==> !same_key(#[trigger] acc[k], t),
    decreases acc.len(),
{
    if acc.len() > 0 && !same_key(acc.first(), t) {
        let rest = acc.drop_first();
        lemma_position_finds(rest, t);
        assert forall|k: int| 0 <= k < position(acc, t) implies !same_key(
            #[trigger] acc[k],
            t,
        ) by {
            if k > 0 {
                assert(acc[k] == rest[k - 1]);
            }
        }
    }
}

/// The first place at which a term with the structure of `t` stands is the
/// position of `t`.
pub proof fn lemma_position_is(acc: Seq<TermView>, t: TermView, j: int)
    requires
        0 <= j <= acc.len(),
        forall|k: int| 0 <= k < j ==> !same_key(#[trigger] acc[k], t),
        j < acc.len() ==> same_key(acc[j], t),
    ensures
        position(acc, t) == j,
{
    lemma_position_finds(acc, t);
    let p = position(acc, t);
    if p < j {
        assert(!same_key(acc[p], t));
    }
}

/// Appending a term adds its weight to the sum.
pub proof fn lemma_weight_sum_push(s: Seq<TermView>, t: TermView)
    ensures
        weight_sum(s.push(t)) == weight_sum(s) + t.factor,
{
    assert(s.push(t).drop_last() =~= s);
}

/// Replacing a term moves the sum by the difference of the two weights.
pub proof fn lemma_weight_sum_update(s: Seq<TermView>, j: int, t: TermView)
    requires
        0 <= j < s.len(),
    ensures
        weight_sum(s.update(j, t)) == weight_sum(s) - s[j].factor + t.factor,
    decreases s.len(),
{
    let u = s.update(j, t);
    if j == s.len() - 1 {
        assert(u.drop_last() =~= s.drop_last());
    } else {
        assert(u.drop_last() =~= s.drop_last().update(j, t));
        lemma_weight_sum_update(s.drop_last(), j, t);
    }
}

/// A sum of weights that are not negative is not negative, and no weight
/// exceeds it.
pub proof fn lemma_weight_sum_bounds(s: Seq<TermView>)
    requires
        forall|i: int| 0 <= i < s.len() ==> (#[trigger] s[i]).factor >= 0,
    ensures
        weight_sum(s) >= 0,
        forall|i: int| 0 <= i < s.len() ==> (#[trigger] s[i]).factor <= weight_sum(s),
    decreases s.len(),
{
    if s.len() > 0 {
        let front = s.drop_last();
        assert forall|i: int| 0 <= i < front.len() implies (#[trigger] front[i]).factor >= 0 by {
            assert(front[i] == s[i]);
        }
        lemma_weight_sum_bounds(front);
        assert(s[s.len() - 1].factor >= 0);
        assert forall|i: int| 0 <= i < s.len() implies (#[trigger] s[i]).factor <= weight_sum(
            s,
        ) by {
            if i < s.len() - 1 {
                assert(front[i] == s[i]);
            }
        }
    }
}

/// Taking in a term keeps structures distinct, keeps every structure that
/// was there, and adds that of the new term and no other.
pub proof fn lemma_absorb_keys(acc: Seq<TermView>, t: TermView)
    requires
        keys_distinct(acc),
    ensures
        keys_distinct(absorb(acc, t)),
        has_key(absorb(acc, t), t),
        forall|x: TermView| has_key(acc, x) ==> has_key(absorb(acc, t), x),
        forall|x: TermView| has_key(absorb(acc, t), x) ==> has_key(acc, x) || same_key(t, x),
{
    lemma_position_finds(acc, t);
    let j = position(acc, t);
    let out = absorb(acc, t);
    assert forall|a: int, b: int| 0 <= a < b < out.len() implies !same_key(
        #[trigger] out[a],
        #[trigger] out[b],
    ) by {
        if j < acc.len() {
            assert(same_key(out[a], acc[a]) && same_key(out[b], acc[b]));
            assert(!same_key(acc[a], acc[b]));
        } else if b == acc.len() {
            assert(!same_key(acc[a], t));
        } else {
            assert(!same_key(acc[a], acc[b]));
        }
    }
    if j < acc.len() {
        assert(same_key(out[j], t));
    } else {
        assert(same_key(out[acc.len() as int], t));
    }
    assert forall|x: TermView| has_key(acc, x) implies has_key(out, x) by {
        let i = choose|i: int| 0 <= i < acc.len() && same_key(#[trigger] acc[i], x);
        assert(same_key(out[i], x));
    }
    assert forall|x: TermView| has_key(out, x) implies has_key(acc, x) || same_key(t, x) by {
        let i = choose|i: int| 0 <= i < out.len() && same_key(#[trigger] out[i], x);
        if i < acc.len() {
            assert(same_key(acc[i], x));
        }
    }
}

/// Taking in a term changes the sum of the weights by the weight of that
/// term, up to a multiple of 2^64; and by exactly that weight if the new sum
/// fits in 64 bits and no weight is negative.
pub proof fn lemma_absorb_weight(acc: Seq<TermView>, t: TermView)
    ensures
        wrap(weight_sum(absorb(acc, t))) == wrap(weight_sum(acc) + t.factor),
        (forall|i: int| 0 <= i < acc.len() ==> (#[trigger] acc[i]).factor >= 0) && t.factor >= 0
            && weight_sum(acc) + t.factor <= u64::MAX ==> weight_sum(absorb(acc, t))
            == weight_sum(acc) + t.factor,
{
    lemma_position_finds(acc, t);
    let j = position(acc, t);
    if j < acc.len() {
        let gained = TermView { factor: wrap(acc[j].factor + t.factor), ..acc[j] };
        lemma_weight_sum_update(acc, j, gained);
        if (forall|i: int| 0 <= i < acc.len() ==> (#[trigger] acc[i]).factor >= 0) && t.factor
            >= 0 {
            lemma_weight_sum_bounds(acc);
            assert(acc[j].factor <= weight_sum(acc));
        }
    } else {
        lemma_weight_sum_push(acc, t);
    }
}

/// Where the first term of `groups` with the structure of `t` stands, or the
/// length of `groups` if there is none.
fn find_key(groups: &Vec<Term>, t: &Term) -> (j: usize)
    requires
        all_wf(groups@),
        t.wf(),
    ensures
        j == position(views(groups@), t@),
{
    let mut j: usize = 0;
    while j < groups.len()
        invariant
            all_wf(groups@),
            t.wf(),
            j <= groups.len(),
            forall|k: int| 0 <= k < j ==> !same_key(#[trigger] views(groups@)[k], t@),
        decreases groups.len() - j,
    {
        if groups[j].same_key(t) {
            proof {
                lemma_position_is(views(groups@), t@, j as int);
            }
            return j;
        }
        j += 1;
    }
    proof {
        lemma_position_is(views(groups@), t@, j as int);
    }
    j
}

/// Reduces a list of terms: puts each in canonical form, then gathers the
/// terms of the same structure into one. The result holds one term for each
/// structure, in the order in which the structures first occur; it is the
/// first term of that structure, with the weights of all of them added up
/// in 64 bits.
pub fn reduce_terms_list(terms: Vec<Term>) -> (groups: Vec<Term>)
    requires
        all_wf(terms@),
    ensures
        views(groups@) == reduced(views(terms@)),
        all_wf(groups@),
{
    let ghost given = views(terms@);
    let mut new_terms = terms;
    let mut i: usize = 0;
    while i < new_terms.len()
        invariant
            i <= new_terms.len(),
            new_terms@.len() == given.len(),
            all_wf(new_terms@),
            forall|k: int| 0 <= k < i ==> (#[trigger] new_terms@[k])@ == canonical(given[k]),
            forall|k: int| i <= k < given.len() ==> (#[trigger] new_terms@[k])@ == given[k],
        decreases new_terms.len() - i,
    {
        new_terms[i].sort();
        i += 1;
    }
    let ghost sorted = views(new_terms@);
    assert(sorted =~= canonical_all(given));
    let mut groups: Vec<Term> = Vec::new();
    let mut i: usize = 0;
    assert(sorted.take(0) =~= Seq::empty());
    while i < new_terms.len()
        invariant
            i <= new_terms.len(),
            sorted == views(new_terms@),
            all_wf(new_terms@),
            all_wf(groups@),
            views(groups@) == merged(sorted.take(i as int)),
        decreases new_terms.len() - i,
    {
        let ghost before = views(groups@);
        let t: &Term = &new_terms[i];
        let j: usize = find_key(&groups, t);
        if j < groups.len() {
            groups[j].absorb(t);
        } else {
            groups.push(t.clone());
        }
        proof {
            assert(sorted.take(i + 1).drop_last() =~= sorted.take(i as int));
            assert(sorted.take(i + 1).last() == t@);
            assert(views(groups@) =~= absorb(before, t@));
        }
        i += 1;
    }
    assert(sorted.take(new_terms@.len() as int) =~= sorted);
    groups
}

} // verus!
