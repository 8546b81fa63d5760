//! Sums over sequences and grids of integers, and how they move when a
//! single entry is rewritten.

use vstd::prelude::*;

verus! {

/// The entries of `s` as mathematical integers.
pub open spec fn ints(s: Seq<u64>) -> Seq<int> {
    Seq::new(s.len(), |i: int| s[i] as int)
}

/// The rows of `g`, each as a sequence of mathematical integers.
pub open spec fn int_rows(g: Seq<Seq<u64>>) -> Seq<Seq<int>> {
    Seq::new(g.len(), |i: int| ints(g[i]))
}

/// The sum of all entries of `s`.
pub open spec fn seq_sum(s: Seq<int>) -> int
    decreases s.len(),
{
    if s.len() == 0 {
        0
    } else {
        seq_sum(s.drop_last()) + s.last()
    }
}

/// The sum of all entries of all rows of `g`.
pub open spec fn grid_sum(g: Seq<Seq<int>>) -> int
    decreases g.len(),
{
    if g.len() == 0 {
        0
    } else {
        grid_sum(g.drop_last()) + seq_sum(g.last())
    }
}

/// No entry of `s` is negative.
pub open spec fn nonnegative(s: Seq<int>) -> bool {
    forall|i: int| 0 <= i < s.len() ==> s[i] >= 0
}

/// No entry of any row of `g` is negative.
pub open spec fn grid_nonnegative(g: Seq<Seq<int>>) -> bool {
    forall|i: int| 0 <= i < g.len() ==> nonnegative(#[trigger] g[i])
}

/// Every entry of `s` is zero.
pub open spec fn all_zero(s: Seq<int>) -> bool {
    forall|i: int| 0 <= i < s.len() ==> s[i] == 0
}

/// Rewriting one entry moves the sum by the difference of the new and the
/// old entry.
pub proof fn lemma_seq_sum_update(s: Seq<int>, i: int, v: int)
    requires
        0 <= i < s.len(),
    ensures
        seq_sum(s.update(i, v)) == seq_sum(s) - s[i] + v,
    decreases s.len(),
{
    let u = s.update(i, v);
    if i == s.len() - 1 {
        assert(u.drop_last() =~= s.drop_last());
    } else {
        assert(u.drop_last() =~= s.drop_last().update(i, v));
        lemma_seq_sum_update(s.drop_last(), i, v);
    }
}

/// A sum of entries that are not negative is not negative, and no entry
/// exceeds it.
pub proof fn lemma_seq_sum_bounds(s: Seq<int>)
    requires
        nonnegative(s),
    ensures
        seq_sum(s) >= 0,
        forall|i: int| 0 <= i < s.len() ==> s[i] <= seq_sum(s),
    decreases s.len(),
{
    if s.len() > 0 {
        lemma_seq_sum_bounds(s.drop_last());
        assert forall|i: int| 0 <= i < s.len() implies s[i] <= seq_sum(s) by {
            if i < s.len() - 1 {
                assert(s.drop_last()[i] == s[i]);
            }
        }
    }
}

/// A sequence of zeros sums to zero.
pub proof fn lemma_seq_sum_zero(s: Seq<int>)
    requires
        all_zero(s),
    ensures
        seq_sum(s) == 0,
    decreases s.len(),
{
    if s.len() > 0 {
        lemma_seq_sum_zero(s.drop_last());
    }
}

/// One entry more adds that entry to the sum of a prefix.
pub proof fn lemma_seq_sum_take(s: Seq<int>, k: int)
    requires
        0 <= k < s.len(),
    ensures
        seq_sum(s.take(k + 1)) == seq_sum(s.take(k)) + s[k],
{
    assert(s.take(k + 1).drop_last() =~= s.take(k));
}

/// Without negative entries, the sum of a prefix is not negative and at
/// most the sum of the whole.
pub proof fn lemma_seq_sum_prefix(s: Seq<int>, k: int)
    requires
        nonnegative(s),
        0 <= k <= s.len(),
    ensures
        0 <= seq_sum(s.take(k)) <= seq_sum(s),
    decreases s.len() - k,
{
    lemma_seq_sum_bounds(s.take(k));
    if k < s.len() {
        lemma_seq_sum_take(s, k);
        lemma_seq_sum_prefix(s, k + 1);
    } else {
        assert(s.take(k) =~= s);
    }
}

/// Replacing one row moves the grid's sum by the difference of the sums of
/// the new and the old row.
pub proof fn lemma_grid_sum_update_row(g: Seq<Seq<int>>, i: int, row: Seq<int>)
    requires
        0 <= i < g.len(),
    ensures
        grid_sum(g.update(i, row)) == grid_sum(g) - seq_sum(g[i]) + seq_sum(row),
    decreases g.len(),
{
    let u = g.update(i, row);
    if i == g.len() - 1 {
        assert(u.drop_last() =~= g.drop_last());
    } else {
        assert(u.drop_last() =~= g.drop_last().update(i, row));
        lemma_grid_sum_update_row(g.drop_last(), i, row);
    }
}

/// Rewriting one entry of a grid moves its sum by the difference of the new
/// and the old entry.
pub proof fn lemma_grid_sum_update(g: Seq<Seq<int>>, i: int, j: int, v: int)
    requires
        0 <= i < g.len(),
        0 <= j < g[i].len(),
    ensures
        grid_sum(g.update(i, g[i].update(j, v))) == grid_sum(g) - g[i][j] + v,
{
    lemma_grid_sum_update_row(g, i, g[i].update(j, v));
    lemma_seq_sum_update(g[i], j, v);
}

/// The sum of a grid without negative entries is not negative, and no row's
/// sum and no entry exceeds it.
pub proof fn lemma_grid_sum_bounds(g: Seq<Seq<int>>)
    requires
        grid_nonnegative(g),
    ensures
        grid_sum(g) >= 0,
        forall|i: int| 0 <= i < g.len() ==> seq_sum(#[trigger] g[i]) <= grid_sum(g),
        forall|i: int, j: int|
            0 <= i < g.len() && 0 <= j < g[i].len() ==> #[trigger] g[i][j] <= grid_sum(g),
    decreases g.len(),
{
    if g.len() > 0 {
        let front = g.drop_last();
        assert forall|i: int| 0 <= i < front.len() implies nonnegative(#[trigger] front[i]) by {
            assert(front[i] == g[i]);
        }
        lemma_grid_sum_bounds(front);
        lemma_seq_sum_bounds(g.last());
        assert forall|i: int| 0 <= i < g.len() implies seq_sum(#[trigger] g[i]) <= grid_sum(
            g,
        ) by {
            if i < g.len() - 1 {
                assert(front[i] == g[i]);
            }
        }
        assert forall|i: int, j: int|
            0 <= i < g.len() && 0 <= j < g[i].len() implies #[trigger] g[i][j] <= grid_sum(g) by {
            lemma_seq_sum_bounds(g[i]);
        }
    }
}

/// A grid of zeros sums to zero.
pub proof fn lemma_grid_sum_zero(g: Seq<Seq<int>>)
    requires
        forall|i: int| 0 <= i < g.len() ==> all_zero(#[trigger] g[i]),
    ensures
        grid_sum(g) == 0,
    decreases g.len(),
{
    if g.len() > 0 {
        let front = g.drop_last();
        assert forall|i: int| 0 <= i < front.len() implies all_zero(#[trigger] front[i]) by {
            assert(front[i] == g[i]);
        }
        lemma_grid_sum_zero(front);
        lemma_seq_sum_zero(g.last());
    }
}

/// One row more adds the sum of that row to the sum of the rows before it.
pub proof fn lemma_grid_sum_take(g: Seq<Seq<int>>, k: int)
    requires
        0 <= k < g.len(),
    ensures
        grid_sum(g.take(k + 1)) == grid_sum(g.take(k)) + seq_sum(g[k]),
{
    assert(g.take(k + 1).drop_last() =~= g.take(k));
}

/// Without negative entries, the sum of the first rows is not negative and
/// at most the sum of the whole grid.
pub proof fn lemma_grid_sum_prefix(g: Seq<Seq<int>>, k: int)
    requires
        grid_nonnegative(g),
        0 <= k <= g.len(),
    ensures
        0 <= grid_sum(g.take(k)) <= grid_sum(g),
    decreases g.len() - k,
{
    assert forall|i: int| 0 <= i < g.take(k).len() implies nonnegative(#[trigger] g.take(k)[i]) by {
        assert(g.take(k)[i] == g[i]);
    }
    lemma_grid_sum_bounds(g.take(k));
    if k < g.len() {
        lemma_grid_sum_take(g, k);
        lemma_seq_sum_bounds(g[k]);
        lemma_grid_sum_prefix(g, k + 1);
    } else {
        assert(g.take(k) =~= g);
    }
}

} // verus!
