//! Terms as the machine holds them, and the expansion engine.

use crate::expansion::{lemma_cross_child_derived, lemma_scalar_child_derived};
use crate::model::{
    canonical, children, cross_child, cross_children, expand, folded, lemma_canonical_wf,
    lemma_grid_sum_square, lemma_seed_wf, ordered, same_key, scalar_child, scalar_children, seed,
    slot_children, wrap, TermView,
};
use crate::storage::{CountMatrix, IndexVector};
use crate::sums::{
    all_zero, grid_nonnegative, grid_sum, int_rows, ints, lemma_grid_sum_bounds,
    lemma_grid_sum_prefix, lemma_grid_sum_take, lemma_seq_sum_bounds, lemma_seq_sum_prefix,
    lemma_seq_sum_take, nonnegative, seq_sum,
};
use vstd::prelude::*;

verus! {

/// One state of the derivation.
///
/// The weight is kept in 64 bits and wraps around when a product or a sum no
/// longer fits. The indices and cross counts live in `nalgebra` containers
/// whose sizes are fixed when the term is made. What a term is, is its view,
/// a [`TermView`].
///
/// Every term that this library hands out is well formed (see
/// [`Term::wf`]), and so is every term that can be made from outside.
pub struct Term {
    /// The weight gathered along the derivation path.
    factor: u64,
    /// How often the scalar can still be differentiated.
    pi: u64,
    /// The primary index of each slot.
    ds: IndexVector,
    /// The secondary index of each slot.
    es: IndexVector,
    /// The cross counts: row by secondary slot, column by primary slot.
    deltas: CountMatrix,
    /// Whether no further differentiation applies.
    terminal: bool,
}

impl View for Term {
    type V = TermView;

    closed spec fn view(&self) -> TermView {
        TermView {
            factor: self.factor as int,
            pi: self.pi as int,
            ds: ints(self.ds@),
            es: ints(self.es@),
            deltas: int_rows(self.deltas@),
            terminal: self.terminal,
        }
    }
}

impl Clone for Term {
    /// A second term that is what this one is.
    fn clone(&self) -> (r: Self)
        ensures
            r@ == self@,
    {
        self.marked(self.terminal)
    }
}

/// What each term of `terms` is, in order.
pub open spec fn views(terms: Seq<Term>) -> Seq<TermView> {
    Seq::new(terms.len(), |i: int| terms[i]@)
}

/// Every term of `terms` is well formed.
pub open spec fn all_wf(terms: Seq<Term>) -> bool {
    forall|i: int| 0 <= i < terms.len() ==> (#[trigger] terms[i]).wf()
}

/// The rows of a grid that is given as plain vectors, as mathematical
/// integers.
pub open spec fn plain_rows(g: Seq<Vec<u64>>) -> Seq<Seq<int>> {
    Seq::new(g.len(), |i: int| ints(g[i]@))
}

/// The term that the given parts describe.
pub open spec fn described(
    factor: u64,
    pi: u64,
    ds: Seq<u64>,
    es: Seq<u64>,
    deltas: Seq<Vec<u64>>,
    terminal: bool,
) -> TermView {
    TermView {
        factor: factor as int,
        pi: pi as int,
        ds: ints(ds),
        es: ints(es),
        deltas: plain_rows(deltas),
        terminal,
    }
}

/// `start` plus all of `values`, if that fits in 64 bits.
fn checked_total(values: &Vec<u64>, start: u64) -> (r: Option<u64>)
    ensures
        match r {
            Some(x) => x == start + seq_sum(ints(values@)),
            None => start + seq_sum(ints(values@)) > u64::MAX,
        },
{
    let ghost all = ints(values@);
    let mut total: u64 = start;
    let mut i: usize = 0;
    assert(all.take(0) =~= Seq::<int>::empty());
    while i < values.len()
        invariant
            i <= values.len(),
            all == ints(values@),
            total == start + seq_sum(all.take(i as int)),
        decreases values.len() - i,
    {
        proof {
            lemma_seq_sum_take(all, i as int);
            lemma_seq_sum_prefix(all, i + 1);
        }
        match total.checked_add(values[i]) {
            Some(x) => {
                total = x;
            },
            None => {
                return None;
            },
        }
        i += 1;
    }
    assert(all.take(values@.len() as int) =~= all);
    Some(total)
}

/// The entries of an index vector as a plain vector.
fn entries(v: &IndexVector) -> (out: Vec<u64>)
    ensures
        out@ == v@,
{
    let n: usize = v.len();
    let mut out: Vec<u64> = Vec::new();
    let mut i: usize = 0;
    while i < n
        invariant
            n == v@.len(),
            i <= n,
            out@ == v@.take(i as int),
        decreases n - i,
    {
        out.push(v.get(i));
        assert(out@ =~= v@.take(i + 1));
        i += 1;
    }
    assert(v@.take(n as int) =~= v@);
    out
}

impl Term {
    /// The term is one of those that differentiation produces and handles:
    /// see [`TermView::wf`].
    pub open spec fn wf(&self) -> bool {
        self@.wf()
    }

    /// The term that every derivation starts from: `a` slots of primary
    /// index 2, then `b` of 4, then `c` of 6; all secondary indices and cross
    /// counts zero; the scalar at `n`; weight 1; not terminal.
    ///
    /// The slots, and the grid of cross counts over them, must fit in memory.
    pub fn create_initial(a: usize, b: usize, c: usize, n: usize) -> (t: Term)
        requires
            a + b + c <= usize::MAX,
            (a + b + c) * (a + b + c) <= usize::MAX,
        ensures
            t@ == seed(a as nat, b as nat, c as nat, n as nat),
            t.wf(),
    {
        let mut ds_vec: Vec<u64> = vec![2; a];
        let mut fours: Vec<u64> = vec![4; b];
        let mut sixes: Vec<u64> = vec![6; c];
        ds_vec.append(&mut fours);
        ds_vec.append(&mut sixes);
        let m: usize = a + b + c;
        let t = Term {
            factor: 1,
            pi: n as u64,
            ds: IndexVector::from_values(m, ds_vec),
            es: IndexVector::zeros(m),
            deltas: CountMatrix::zeros(m, m),
            terminal: false,
        };
        proof {
            let want = seed(a as nat, b as nat, c as nat, n as nat);
            assert(t@.ds =~= want.ds);
            assert(t@.es =~= want.es);
            assert(t@.deltas =~= want.deltas) by {
                assert forall|r: int| 0 <= r < want.deltas.len() implies t@.deltas[r]
                    =~= want.deltas[r] by {}
            }
            assert(t@ =~= want);
            lemma_seed_wf(a as nat, b as nat, c as nat, n as nat);
        }
        t
    }

    /// Makes a term from plain values: the weight, the scalar, the primary
    /// and the secondary indices, the cross counts row by row, and the
    /// terminal mark.
    ///
    /// There is such a term if and only if the parts describe a well-formed
    /// one (see [`TermView::wf`]) whose grid of cross counts fits in memory.
    pub fn from_parts(
        factor: u64,
        pi: u64,
        ds: Vec<u64>,
        es: Vec<u64>,
        deltas: Vec<Vec<u64>>,
        terminal: bool,
    ) -> (r: Option<Term>)
        ensures
            r.is_some() == (described(factor, pi, ds@, es@, deltas@, terminal).wf() && ds@.len()
                * ds@.len() <= usize::MAX),
            r matches Some(t) ==> t@ == described(factor, pi, ds@, es@, deltas@, terminal),
    {
        let ghost want = described(factor, pi, ds@, es@, deltas@, terminal);
        let m: usize = ds.len();
        if es.len() != m || deltas.len() != m {
            return None;
        }
        if m.checked_mul(m).is_none() {
            return None;
        }
        proof {
            assert forall|i: int| 0 <= i < want.deltas.len() implies nonnegative(
                #[trigger] want.deltas[i],
            ) by {}
            assert(grid_nonnegative(want.deltas));
            assert(want.deltas.take(0) =~= Seq::<Seq<int>>::empty());
        }
        let mut total: u64 = match checked_total(&es, pi) {
            Some(x) => x,
            None => {
                proof {
                    lemma_grid_sum_bounds(want.deltas);
                }
                return None;
            },
        };
        let mut r: usize = 0;
        while r < m
            invariant
                m == deltas@.len(),
                m == ds@.len(),
                r <= m,
                want == described(factor, pi, ds@, es@, deltas@, terminal),
                grid_nonnegative(want.deltas),
                total == pi + seq_sum(want.es) + grid_sum(want.deltas.take(r as int)),
                forall|i: int| 0 <= i < r ==> (#[trigger] deltas@[i])@.len() == m,
            decreases m - r,
        {
            if deltas[r].len() != m {
                assert(want.deltas[r as int].len() != want.ds.len());
                return None;
            }
            proof {
                lemma_grid_sum_take(want.deltas, r as int);
                lemma_grid_sum_prefix(want.deltas, r + 1);
            }
            match checked_total(&deltas[r], total) {
                Some(x) => {
                    total = x;
                },
                None => {
                    return None;
                },
            }
            r += 1;
        }
        assert(want.deltas.take(m as int) =~= want.deltas);
        assert(want.wf()) by {
            assert forall|i: int| 0 <= i < want.deltas.len() implies (
            #[trigger] want.deltas[i]).len() == want.ds.len() by {
                assert(deltas@[i]@.len() == m);
            }
        }
        let mut grid = CountMatrix::zeros(m, m);
        let mut r: usize = 0;
        while r < m
            invariant
                m == deltas@.len(),
                r <= m,
                forall|i: int| 0 <= i < m ==> (#[trigger] deltas@[i])@.len() == m,
                grid@.len() == m,
                forall|i: int| 0 <= i < m ==> (#[trigger] grid@[i]).len() == m,
                forall|i: int| 0 <= i < r ==> (#[trigger] grid@[i]) == deltas@[i]@,
            decreases m - r,
        {
            let mut c: usize = 0;
            while c < m
                invariant
                    m == deltas@.len(),
                    r < m,
                    c <= m,
                    forall|i: int| 0 <= i < m ==> (#[trigger] deltas@[i])@.len() == m,
                    grid@.len() == m,
                    forall|i: int| 0 <= i < m ==> (#[trigger] grid@[i]).len() == m,
                    forall|i: int| 0 <= i < r ==> (#[trigger] grid@[i]) == deltas@[i]@,
                    forall|j: int| 0 <= j < c ==> grid@[r as int][j] == deltas@[r as int]@[j],
                decreases m - c,
            {
                assert(deltas@[r as int]@.len() == m);
                assert(grid@[r as int].len() == m);
                grid.set(r, c, deltas[r][c]);
                c += 1;
            }
            assert(grid@[r as int] =~= deltas@[r as int]@);
            r += 1;
        }
        let t = Term {
            factor,
            pi,
            ds: IndexVector::from_values(m, ds),
            es: IndexVector::from_values(m, es),
            deltas: grid,
            terminal,
        };
        proof {
            assert(t@.deltas =~= want.deltas) by {
                assert forall|i: int| 0 <= i < want.deltas.len() implies t@.deltas[i]
                    =~= want.deltas[i] by {
                    assert(grid@[i] == deltas@[i]@);
                }
            }
            assert(t@ =~= want);
        }
        Some(t)
    }

    /// The number of vertex slots.
    pub fn slots(&self) -> (m: usize)
        ensures
            m == self@.slots(),
    {
        self.ds.len()
    }

    /// The primary indices, slot by slot.
    pub fn ds(&self) -> (v: Vec<u64>)
        ensures
            ints(v@) == self@.ds,
    {
        entries(&self.ds)
    }

    /// The secondary indices, slot by slot.
    pub fn es(&self) -> (v: Vec<u64>)
        ensures
            ints(v@) == self@.es,
    {
        entries(&self.es)
    }

    /// The cross counts, row by row: the entry `d` of row `i` counts the
    /// cross-derivatives that paired the secondary slot `i` with the primary
    /// slot `d`.
    pub fn deltas(&self) -> (g: Vec<Vec<u64>>)
        requires
            self.wf(),
        ensures
            plain_rows(g@) == self@.deltas,
    {
        let m: usize = self.ds.len();
        let mut g: Vec<Vec<u64>> = Vec::new();
        let mut r: usize = 0;
        while r < m
            invariant
                self.wf(),
                m == self@.slots(),
                r <= m,
                g@.len() == r,
                forall|i: int| 0 <= i < r ==> ints((#[trigger] g@[i])@) == self@.deltas[i],
            decreases m - r,
        {
            assert(self@.deltas[r as int].len() == m);
            let mut row: Vec<u64> = Vec::new();
            let mut c: usize = 0;
            while c < m
                invariant
                    m == self.deltas@.len(),
                    r < m,
                    c <= m,
                    self.deltas@[r as int].len() == m,
                    row@ == self.deltas@[r as int].take(c as int),
                decreases m - c,
            {
                row.push(self.deltas.get(r, c));
                assert(row@ =~= self.deltas@[r as int].take(c + 1));
                c += 1;
            }
            assert(self.deltas@[r as int].take(m as int) =~= self.deltas@[r as int]);
            g.push(row);
            r += 1;
        }
        assert(plain_rows(g@) =~= self@.deltas);
        g
    }

    /// The weight gathered along the derivation path.
    pub fn factor(&self) -> (x: u64)
        ensures
            x == self@.factor,
    {
        self.factor
    }

    /// How often the scalar can still be differentiated.
    pub fn pi(&self) -> (x: u64)
        ensures
            x == self@.pi,
    {
        self.pi
    }

    /// Whether the term is marked terminal.
    pub fn terminal(&self) -> (b: bool)
        ensures
            b == self@.terminal,
    {
        self.terminal
    }

    /// Whether two terms have the same structure: the same secondary
    /// indices and the same cross counts, entry by entry.
    pub fn same_key(&self, other: &Term) -> (r: bool)
        requires
            self.wf(),
            other.wf(),
        ensures
            r == same_key(self@, other@),
    {
        let m: usize = self.es.len();
        if other.es.len() != m {
            assert(self@.es.len() != other@.es.len());
            return false;
        }
        let mut i: usize = 0;
        while i < m
            invariant
                self.wf(),
                other.wf(),
                m == self@.slots(),
                m == other@.slots(),
                i <= m,
                forall|k: int| 0 <= k < i ==> self@.es[k] == other@.es[k],
            decreases m - i,
        {
            if self.es.get(i) != other.es.get(i) {
                assert(self@.es[i as int] != other@.es[i as int]);
                return false;
            }
            i += 1;
        }
        assert(self@.es =~= other@.es);
        let mut r: usize = 0;
        while r < m
            invariant
                self.wf(),
                other.wf(),
                m == self@.slots(),
                m == other@.slots(),
                r <= m,
                self@.es == other@.es,
                forall|k: int| 0 <= k < r ==> self@.deltas[k] == other@.deltas[k],
            decreases m - r,
        {
            assert(self@.deltas[r as int].len() == m && other@.deltas[r as int].len() == m);
            let mut c: usize = 0;
            while c < m
                invariant
                    self.wf(),
                    other.wf(),
                    m == self@.slots(),
                    m == other@.slots(),
                    r < m,
                    c <= m,
                    self@.deltas[r as int].len() == m,
                    other@.deltas[r as int].len() == m,
                    forall|k: int|
                        0 <= k < c ==> self@.deltas[r as int][k] == other@.deltas[r as int][k],
                decreases m - c,
            {
                if self.deltas.get(r, c) != other.deltas.get(r, c) {
                    assert(self@.deltas[r as int][c as int] != other@.deltas[r as int][c as int]);
                    return false;
                }
                c += 1;
            }
            assert(self@.deltas[r as int] =~= other@.deltas[r as int]);
            r += 1;
        }
        assert(self@.deltas =~= other@.deltas);
        true
    }

    /// Takes the weight of `other` into this term: the two weights are
    /// added in 64 bits, and nothing else changes.
    pub fn absorb(&mut self, other: &Term)
        ensures
            final(self)@ == (TermView {
                factor: wrap(old(self)@.factor + other@.factor),
                ..old(self)@
            }),
    {
        self.factor = self.factor.wrapping_add(other.factor);
    }

    /// A copy of this term with the terminal mark set as given.
    fn marked(&self, terminal: bool) -> (r: Term)
        ensures
            r@ == (TermView { terminal, ..self@ }),
    {
        Term {
            factor: self.factor,
            pi: self.pi,
            ds: self.ds.duplicate(),
            es: self.es.duplicate(),
            deltas: self.deltas.duplicate(),
            terminal,
        }
    }

    /// Differentiates slot `d_index` once: against the scalar if `maybe_es`
    /// is `None`, else against the secondary index of the slot it names.
    ///
    /// The primary index of `d_index`, and the scalar or the secondary index
    /// that is differentiated, must be positive.
    pub fn take_derivative(&self, d_index: usize, maybe_es: Option<usize>) -> (child: Term)
        requires
            self.wf(),
            d_index < self@.slots(),
            self@.ds[d_index as int] > 0,
            match maybe_es {
                None => self@.pi > 0,
                Some(i) => i < self@.slots() && self@.es[i as int] > 0,
            },
        ensures
            child@ == match maybe_es {
                None => scalar_child(self@, d_index as int),
                Some(i) => cross_child(self@, d_index as int, i as int),
            },
            child.wf(),
    {
        proof {
            lemma_seq_sum_bounds(self@.es);
            lemma_grid_sum_bounds(self@.deltas);
        }
        match maybe_es {
            None => {
                let mut ds = self.ds.duplicate();
                let d_v: u64 = ds.get(d_index);
                ds.set(d_index, d_v - 1);
                let mut es = self.es.duplicate();
                let e_v: u64 = es.get(d_index);
                assert(self@.es[d_index as int] == e_v);
                es.set(d_index, e_v + 1);
                let child = Term {
                    factor: self.factor.wrapping_mul(self.pi),
                    pi: self.pi - 1,
                    ds,
                    es,
                    deltas: self.deltas.duplicate(),
                    terminal: false,
                };
                proof {
                    let want = scalar_child(self@, d_index as int);
                    assert(child@.ds =~= want.ds);
                    assert(child@.es =~= want.es);
                    assert(child@.factor == want.factor) by {
                        lemma_wrapping_mul(self.factor, self.pi);
                    }
                    assert(child@ =~= want);
                    lemma_scalar_child_derived(self@, d_index as int);
                }
                child
            },
            Some(i) => {
                let mut ds = self.ds.duplicate();
                let d_v: u64 = ds.get(d_index);
                ds.set(d_index, d_v - 1);
                let mut es = self.es.duplicate();
                let e_v: u64 = es.get(i);
                assert(self@.es[i as int] == e_v);
                es.set(i, e_v - 1);
                let mut deltas = self.deltas.duplicate();
                assert(self@.deltas[i as int].len() == self@.slots());
                let count: u64 = deltas.get(i, d_index);
                assert(self@.deltas[i as int][d_index as int] == count);
                deltas.set(i, d_index, count + 1);
                let child = Term {
                    factor: self.factor.wrapping_mul(e_v),
                    pi: self.pi,
                    ds,
                    es,
                    deltas,
                    terminal: false,
                };
                proof {
                    let want = cross_child(self@, d_index as int, i as int);
                    assert(child@.ds =~= want.ds);
                    assert(child@.es =~= want.es);
                    assert(child@.deltas =~= want.deltas) by {
                        assert forall|r: int| 0 <= r < want.deltas.len() implies child@.deltas[r]
                            =~= want.deltas[r] by {}
                    }
                    assert(child@.factor == want.factor) by {
                        lemma_wrapping_mul(self.factor, e_v);
                    }
                    assert(child@ =~= want);
                    lemma_cross_child_derived(self@, d_index as int, i as int);
                }
                child
            },
        }
    }

    /// Whether every primary index is zero.
    fn primaries_all_zero(&self) -> (r: bool)
        ensures
            r == all_zero(self@.ds),
    {
        let m: usize = self.ds.len();
        let mut i: usize = 0;
        while i < m
            invariant
                m == self@.ds.len(),
                i <= m,
                forall|k: int| 0 <= k < i ==> self@.ds[k] == 0,
            decreases m - i,
        {
            if self.ds.get(i) != 0 {
                assert(self@.ds[i as int] != 0);
                return false;
            }
            i += 1;
        }
        true
    }

    /// One step of the expansion engine: the terms that follow this one.
    ///
    /// A terminal term yields a copy of itself. A term whose primary indices
    /// and scalar are all zero yields a copy of itself marked terminal. Any
    /// other term yields, for each slot with a positive primary index, the
    /// scalar child (if the scalar is positive) and then one cross child per
    /// positive secondary index; a term without any such slot yields nothing.
    pub fn iterate(&self) -> (out: Vec<Term>)
        requires
            self.wf(),
        ensures
            views(out@) == expand(self@),
            all_wf(out@),
    {
        if self.terminal {
            let out: Vec<Term> = vec![self.marked(true)];
            assert(views(out@) =~= expand(self@));
            out
        } else if self.primaries_all_zero() && self.pi == 0 {
            let out: Vec<Term> = vec![self.marked(true)];
            assert(views(out@) =~= expand(self@));
            out
        } else {
            let mut new_terms: Vec<Term> = Vec::new();
            let m: usize = self.ds.len();
            let mut d_i: usize = 0;
            assert(views(new_terms@) =~= children(self@, 0));
            while d_i < m
                invariant
                    self.wf(),
                    m == self@.slots(),
                    d_i <= m,
                    views(new_terms@) == children(self@, d_i as int),
                    all_wf(new_terms@),
                decreases m - d_i,
            {
                let ghost before = views(new_terms@);
                if self.ds.get(d_i) > 0 {
                    if self.pi > 0 {
                        new_terms.push(self.take_derivative(d_i, None));
                    }
                    assert(views(new_terms@) =~= before + scalar_children(self@, d_i as int));
                    let mut e_i: usize = 0;
                    while e_i < m
                        invariant
                            self.wf(),
                            m == self@.slots(),
                            d_i < m,
                            e_i <= m,
                            self@.ds[d_i as int] > 0,
                            views(new_terms@) == before + scalar_children(self@, d_i as int)
                                + cross_children(self@, d_i as int, e_i as int),
                            all_wf(new_terms@),
                        decreases m - e_i,
                    {
                        let ghost sofar = views(new_terms@);
                        if self.es.get(e_i) > 0 {
                            new_terms.push(self.take_derivative(d_i, Some(e_i)));
                            assert(views(new_terms@) =~= sofar.push(
                                cross_child(self@, d_i as int, e_i as int),
                            ));
                        }
                        e_i += 1;
                        assert(views(new_terms@) =~= before + scalar_children(self@, d_i as int)
                            + cross_children(self@, d_i as int, e_i as int));
                    }
                    assert(views(new_terms@) =~= before + slot_children(self@, d_i as int));
                } else {
                    assert(views(new_terms@) =~= before + slot_children(self@, d_i as int));
                }
                d_i += 1;
            }
            new_terms
        }
    }

    /// Puts the term in canonical form, so that terms which mirror each
    /// other become equal. Only terms of two slots have a canonical form of
    /// their own; any other term is left as it is.
    pub fn sort(&mut self)
        requires
            old(self).wf(),
        ensures
            final(self)@ == canonical(old(self)@),
            final(self).wf(),
    {
        if self.es.len() == 2 {
            self.sort_2d();
        }
    }

    /// Puts a term of two slots in canonical form: adds the cross count of
    /// `(1, 0)` to that of `(0, 1)` and clears it, then exchanges the
    /// secondary indices and the diagonal cross counts if the second
    /// secondary index is the larger one, or else the diagonal cross counts
    /// alone if the second of them is the larger one.
    pub fn sort_2d(&mut self)
        requires
            old(self).wf(),
            old(self)@.slots() == 2,
        ensures
            final(self)@ == ordered(folded(old(self)@)),
            final(self).wf(),
    {
        proof {
            assert(self@.deltas[0].len() == 2 && self@.deltas[1].len() == 2);
            lemma_grid_sum_square(self@.deltas);
            lemma_seq_sum_bounds(self@.es);
            lemma_canonical_wf(self@);
        }
        let lower: u64 = self.deltas.get(1, 0);
        let upper: u64 = self.deltas.get(0, 1);
        self.deltas.set(0, 1, upper + lower);
        self.deltas.set(1, 0, 0);
        assert(self@.deltas =~= folded(old(self)@).deltas) by {
            assert(self@.deltas[0] =~= folded(old(self)@).deltas[0]);
            assert(self@.deltas[1] =~= folded(old(self)@).deltas[1]);
        }
        assert(self@ =~= folded(old(self)@));
        let ghost mid = self@;
        if self.es.get(1) > self.es.get(0) {
            self.es.swap(0, 1);
            let a: u64 = self.deltas.get(0, 0);
            let b: u64 = self.deltas.get(1, 1);
            self.deltas.set(0, 0, b);
            self.deltas.set(1, 1, a);
            assert(self@.es =~= ordered(mid).es);
            assert(self@.deltas =~= ordered(mid).deltas) by {
                assert(self@.deltas[0] =~= ordered(mid).deltas[0]);
                assert(self@.deltas[1] =~= ordered(mid).deltas[1]);
            }
        } else if self.deltas.get(1, 1) > self.deltas.get(0, 0) {
            let a: u64 = self.deltas.get(0, 0);
            let b: u64 = self.deltas.get(1, 1);
            self.deltas.set(0, 0, b);
            self.deltas.set(1, 1, a);
            assert(self@.deltas =~= ordered(mid).deltas) by {
                assert(self@.deltas[0] =~= ordered(mid).deltas[0]);
                assert(self@.deltas[1] =~= ordered(mid).deltas[1]);
            }
        }
        assert(self@ =~= ordered(mid));
    }
}

/// A wrapping product of two 64-bit numbers is their product as it is kept
/// in 64 bits.
pub proof fn lemma_wrapping_mul(x: u64, y: u64)
    ensures
        x.wrapping_mul(y) as int == wrap(x as int * y as int),
{
    assert(x as int * y as int >= 0) by (nonlinear_arith)
        requires
            x >= 0,
            y >= 0,
    ;
    assert((x as nat * y as nat) as int == x as int * y as int);
}

} // verus!
