//! Index storage: the dense containers of `nalgebra` that hold a term's
//! counters, and the contracts under which the rest of the library uses them.
//!
//! Everything in this file is taken on trust from `nalgebra`; nothing here
//! is proved. Each function names the `nalgebra` operation it stands for.

use nalgebra::DMatrix;
use nalgebra::DVector;
use vstd::prelude::*;

verus! {

/// A column of unsigned counters whose length is fixed when it is made,
/// held in a `nalgebra::DVector<u64>`.
#[verifier::external_body]
pub struct IndexVector {
    inner: DVector<u64>,
}

/// A rectangular grid of unsigned counters whose shape is fixed when it is
/// made, held in a `nalgebra::DMatrix<u64>`.
#[verifier::external_body]
pub struct CountMatrix {
    inner: DMatrix<u64>,
}

/// The entries of an index vector, from the first to the last.
pub uninterp spec fn vector_entries(v: IndexVector) -> Seq<u64>;

/// The rows of a count matrix from top to bottom, each from left to right:
/// the entry in row `i` and column `j` is `matrix_rows(m)[i][j]`.
pub uninterp spec fn matrix_rows(m: CountMatrix) -> Seq<Seq<u64>>;

impl View for IndexVector {
    type V = Seq<u64>;

    open spec fn view(&self) -> Seq<u64> {
        vector_entries(*self)
    }
}

impl View for CountMatrix {
    type V = Seq<Seq<u64>>;

    open spec fn view(&self) -> Seq<Seq<u64>> {
        matrix_rows(*self)
    }
}

impl IndexVector {
    /// `DVector::zeros`: a vector of `n` entries, each of them 0.
    #[verifier::external_body]
    pub(crate) fn zeros(n: usize) -> (v: IndexVector)
        ensures
            vector_entries(v) == Seq::new(n as nat, |i: int| 0u64),
    {
        IndexVector { inner: DVector::zeros(n) }
    }

    /// `DVector::from_iterator`: a vector of `n` entries that takes them
    /// from `values` in order. `nalgebra` panics unless the iterator yields
    /// exactly `n` items, so the lengths have to agree.
    #[verifier::external_body]
    pub(crate) fn from_values(n: usize, values: Vec<u64>) -> (v: IndexVector)
        requires
            values@.len() == n,
        ensures
            vector_entries(v) == values@,
    {
        IndexVector { inner: DVector::from_iterator(n, values) }
    }

    /// `Matrix::len`: the number of entries.
    #[verifier::external_body]
    pub(crate) fn len(&self) -> (n: usize)
        ensures
            n == vector_entries(*self).len(),
    {
        self.inner.len()
    }

    /// `Index<usize>` of a vector: the entry at `i`. `nalgebra` panics on
    /// an index past the end.
    #[verifier::external_body]
    pub(crate) fn get(&self, i: usize) -> (x: u64)
        requires
            i < vector_entries(*self).len(),
        ensures
            x == vector_entries(*self)[i as int],
    {
        self.inner[i]
    }

    /// `IndexMut<usize>` of a vector: overwrites the entry at `i` and leaves
    /// every other entry as it was. `nalgebra` panics on an index past the
    /// end.
    #[verifier::external_body]
    pub(crate) fn set(&mut self, i: usize, value: u64)
        requires
            i < vector_entries(*old(self)).len(),
        ensures
            vector_entries(*final(self)) == vector_entries(*old(self)).update(i as int, value),
    {
        self.inner[i] = value;
    }

    /// `Matrix::swap` on a column vector: exchanges the entries at `i` and
    /// `j`. `nalgebra` panics if either index is past the end.
    #[verifier::external_body]
    pub(crate) fn swap(&mut self, i: usize, j: usize)
        requires
            i < vector_entries(*old(self)).len(),
            j < vector_entries(*old(self)).len(),
        ensures
            vector_entries(*final(self)) == vector_entries(*old(self)).update(
                i as int,
                vector_entries(*old(self))[j as int],
            ).update(j as int, vector_entries(*old(self))[i as int]),
    {
        self.inner.swap((i, 0), (j, 0));
    }

    /// `Clone` of a `DVector`: a second vector with the same entries.
    #[verifier::external_body]
    pub(crate) fn duplicate(&self) -> (v: IndexVector)
        ensures
            vector_entries(v) == vector_entries(*self),
    {
        IndexVector { inner: self.inner.clone() }
    }
}

impl CountMatrix {
    /// `DMatrix::zeros`: a matrix of `rows` rows and `cols` columns, every
    /// entry 0. The number of entries has to fit in a `usize`.
    #[verifier::external_body]
    pub(crate) fn zeros(rows: usize, cols: usize) -> (m: CountMatrix)
        requires
            rows * cols <= usize::MAX,
        ensures
            matrix_rows(m) == Seq::new(rows as nat, |i: int| Seq::new(cols as nat, |j: int| 0u64)),
    {
        CountMatrix { inner: DMatrix::zeros(rows, cols) }
    }

    /// `Index<(usize, usize)>`: the entry in row `i` and column `j`.
    /// `nalgebra` panics if either index is out of bounds.
    #[verifier::external_body]
    pub(crate) fn get(&self, i: usize, j: usize) -> (x: u64)
        requires
            i < matrix_rows(*self).len(),
            j < matrix_rows(*self)[i as int].len(),
        ensures
            x == matrix_rows(*self)[i as int][j as int],
    {
        self.inner[(i, j)]
    }

    /// `IndexMut<(usize, usize)>`: overwrites the entry in row `i` and
    /// column `j` and leaves every other entry as it was. `nalgebra` panics
    /// if either index is out of bounds.
    #[verifier::external_body]
    pub(crate) fn set(&mut self, i: usize, j: usize, value: u64)
        requires
            i < matrix_rows(*old(self)).len(),
            j < matrix_rows(*old(self))[i as int].len(),
        ensures
            matrix_rows(*final(self)) == matrix_rows(*old(self)).update(
                i as int,
                matrix_rows(*old(self))[i as int].update(j as int, value),
            ),
    {
        self.inner[(i, j)] = value;
    }

    /// `Clone` of a `DMatrix`: a second matrix with the same entries.
    #[verifier::external_body]
    pub(crate) fn duplicate(&self) -> (m: CountMatrix)
        ensures
            matrix_rows(m) == matrix_rows(*self),
    {
        CountMatrix { inner: self.inner.clone() }
    }
}

} // verus!
