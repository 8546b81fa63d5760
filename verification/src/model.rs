//! The mathematical model of a term and of the differentiation rule.
//!
//! A term is described by plain integers and sequences of integers. The
//! rule that turns one term into its children is stated here once, over that
//! description; the executable code is proved to compute exactly it.

use crate::sums::{
    all_zero, grid_nonnegative, grid_sum, lemma_grid_sum_zero, lemma_seq_sum_zero, nonnegative,
    seq_sum,
};
use vstd::prelude::*;

verus! {

/// One state of the derivation: what a term is, as mathematics.
#[verifier::ext_equal]
pub struct TermView {
    /// The multiplicative weight gathered along the derivation path, kept in
    /// 64 bits.
    pub factor: int,
    /// How often the independent scalar can still be differentiated.
    pub pi: int,
    /// The primary index of each vertex slot, which differentiation consumes.
    pub ds: Seq<int>,
    /// The secondary index of each vertex slot.
    pub es: Seq<int>,
    /// `deltas[i][d]` counts the cross-derivatives that paired the secondary
    /// slot `i` with the primary slot `d`.
    pub deltas: Seq<Seq<int>>,
    /// Whether no further differentiation applies.
    pub terminal: bool,
}

/// The number of values that 64 bits can hold.
pub open spec fn word_modulus() -> int {
    0x1_0000_0000_0000_0000
}

/// `x` as it is kept in an unsigned 64-bit weight.
pub open spec fn wrap(x: int) -> int {
    x % word_modulus()
}

impl TermView {
    /// The number of vertex slots.
    pub open spec fn slots(self) -> int {
        self.ds.len() as int
    }

    /// Both index sequences have one entry per slot, and the cross counts
    /// form a square grid over the slots.
    pub open spec fn shaped(self) -> bool {
        &&& self.es.len() == self.ds.len()
        &&& self.deltas.len() == self.ds.len()
        &&& forall|i: int|
            0 <= i < self.deltas.len() ==> (#[trigger] self.deltas[i]).len() == self.ds.len()
    }

    /// No counter of the term is negative.
    pub open spec fn nonnegative(self) -> bool {
        &&& self.pi >= 0
        &&& nonnegative(self.ds)
        &&& nonnegative(self.es)
        &&& grid_nonnegative(self.deltas)
    }

    /// What differentiation moves around but never creates: the scalar that
    /// is left, plus all secondary indices, plus all cross counts.
    pub open spec fn charge(self) -> int {
        self.pi + seq_sum(self.es) + grid_sum(self.deltas)
    }

    /// The term makes sense as a state of the derivation: it has the right
    /// shape and nothing in it is negative.
    pub open spec fn sound(self) -> bool {
        self.shaped() && self.nonnegative()
    }

    /// The term is one that the machine can hold: it is sound, and its
    /// weight, its primary indices and its charge each fit in 64 bits.
    pub open spec fn wf(self) -> bool {
        &&& self.sound()
        &&& 0 <= self.factor <= u64::MAX
        &&& self.charge() <= u64::MAX
        &&& forall|i: int| 0 <= i < self.ds.len() ==> self.ds[i] <= u64::MAX
    }

    /// Nothing is left to differentiate: every primary index is zero and so
    /// is the scalar.
    pub open spec fn exhausted(self) -> bool {
        self.pi == 0 && all_zero(self.ds)
    }

    /// The same term, marked terminal.
    pub open spec fn closed(self) -> TermView {
        TermView { terminal: true, ..self }
    }
}

/// The child that differentiates slot `d` against the scalar: one unit moves
/// from the scalar to the secondary index of `d`, and the weight is
/// multiplied by what the scalar was.
pub open spec fn scalar_child(t: TermView, d: int) -> TermView {
    TermView {
        factor: wrap(t.factor * t.pi),
        pi: t.pi - 1,
        ds: t.ds.update(d, t.ds[d] - 1),
        es: t.es.update(d, t.es[d] + 1),
        deltas: t.deltas,
        terminal: false,
    }
}

/// The child that differentiates slot `d` against the secondary index of
/// slot `i`: one unit moves from that secondary index to the cross count of
/// `(i, d)`, and the weight is multiplied by what the secondary index was.
pub open spec fn cross_child(t: TermView, d: int, i: int) -> TermView {
    TermView {
        factor: wrap(t.factor * t.es[i]),
        pi: t.pi,
        ds: t.ds.update(d, t.ds[d] - 1),
        es: t.es.update(i, t.es[i] - 1),
        deltas: t.deltas.update(i, t.deltas[i].update(d, t.deltas[i][d] + 1)),
        terminal: false,
    }
}

/// The scalar child of slot `d`, if the scalar is not used up.
pub open spec fn scalar_children(t: TermView, d: int) -> Seq<TermView> {
    if t.pi > 0 {
        seq![scalar_child(t, d)]
    } else {
        Seq::empty()
    }
}

/// The cross children of slot `d` against the secondary slots below `upto`,
/// in the order of those slots. Only a positive secondary index gives one.
pub open spec fn cross_children(t: TermView, d: int, upto: int) -> Seq<TermView>
    decreases upto,
{
    if upto <= 0 {
        Seq::empty()
    } else if t.es[upto - 1] > 0 {
        cross_children(t, d, upto - 1).push(cross_child(t, d, upto - 1))
    } else {
        cross_children(t, d, upto - 1)
    }
}

/// All children that differentiate slot `d`: none if its primary index is
/// zero, else the scalar child, if there is one, and then the cross
/// children.
pub open spec fn slot_children(t: TermView, d: int) -> Seq<TermView> {
    if t.ds[d] > 0 {
        scalar_children(t, d) + cross_children(t, d, t.es.len() as int)
    } else {
        Seq::empty()
    }
}

/// The children of the slots below `upto`, slot after slot.
pub open spec fn children(t: TermView, upto: int) -> Seq<TermView>
    decreases upto,
{
    if upto <= 0 {
        Seq::empty()
    } else {
        children(t, upto - 1) + slot_children(t, upto - 1)
    }
}

/// One step of the expansion engine.
///
/// A terminal term yields itself. A term with nothing left to differentiate
/// yields itself marked terminal. Any other term yields the children of all
/// its slots; there may be none, and then the term and its weight are gone.
pub open spec fn expand(t: TermView) -> Seq<TermView> {
    if t.terminal {
        seq![t]
    } else if t.exhausted() {
        seq![t.closed()]
    } else {
        children(t, t.slots())
    }
}

/// The grid `g` of two rows and two columns with its two diagonal entries
/// exchanged.
pub open spec fn swap_diagonal(g: Seq<Seq<int>>) -> Seq<Seq<int>> {
    seq![seq![g[1][1], g[0][1]], seq![g[1][0], g[0][0]]]
}

/// A term of two slots in which the cross count of `(1, 0)` has been added
/// to that of `(0, 1)` and then cleared: the two orders of one pair of slots
/// are counted in one place.
pub open spec fn folded(t: TermView) -> TermView {
    TermView {
        deltas: seq![
            seq![t.deltas[0][0], t.deltas[0][1] + t.deltas[1][0]],
            seq![0, t.deltas[1][1]],
        ],
        ..t
    }
}

/// A term of two slots put in order: if the second secondary index is the
/// larger one, the secondary indices are exchanged and so are the diagonal
/// cross counts; otherwise, if the second diagonal cross count is the larger
/// one, the diagonal cross counts alone are exchanged.
pub open spec fn ordered(t: TermView) -> TermView {
    if t.es[1] > t.es[0] {
        TermView { es: seq![t.es[1], t.es[0]], deltas: swap_diagonal(t.deltas), ..t }
    } else if t.deltas[1][1] > t.deltas[0][0] {
        TermView { deltas: swap_diagonal(t.deltas), ..t }
    } else {
        t
    }
}

/// The canonical form of a term: for two slots, folded and then put in
/// order; for any other number of slots, the term as it is.
pub open spec fn canonical(t: TermView) -> TermView {
    if t.es.len() == 2 {
        ordered(folded(t))
    } else {
        t
    }
}

/// A sequence of two entries sums to the sum of the two.
pub proof fn lemma_seq_sum_pair(s: Seq<int>)
    requires
        s.len() == 2,
    ensures
        seq_sum(s) == s[0] + s[1],
{
    reveal_with_fuel(seq_sum, 3);
    assert(s.drop_last().drop_last().len() == 0);
}

/// A grid of two rows of two entries sums to the sum of the four.
pub proof fn lemma_grid_sum_square(g: Seq<Seq<int>>)
    requires
        g.len() == 2,
        g[0].len() == 2,
        g[1].len() == 2,
    ensures
        grid_sum(g) == g[0][0] + g[0][1] + g[1][0] + g[1][1],
{
    reveal_with_fuel(grid_sum, 3);
    assert(g.drop_last().drop_last().len() == 0);
    lemma_seq_sum_pair(g[0]);
    lemma_seq_sum_pair(g[1]);
}

/// Canonicalization keeps a term well formed and moves no charge in or out.
pub proof fn lemma_canonical_wf(t: TermView)
    requires
        t.wf(),
    ensures
        canonical(t).wf(),
        canonical(t).charge() == t.charge(),
{
    if t.es.len() == 2 {
        let f = folded(t);
        let c = canonical(t);
        assert(t.deltas[0].len() == 2 && t.deltas[1].len() == 2);
        assert(nonnegative(t.deltas[0]) && nonnegative(t.deltas[1]));
        lemma_grid_sum_square(t.deltas);
        lemma_grid_sum_square(f.deltas);
        lemma_grid_sum_square(c.deltas);
        lemma_seq_sum_pair(t.es);
        lemma_seq_sum_pair(c.es);
        assert forall|i: int| 0 <= i < c.deltas.len() implies (#[trigger] c.deltas[i]).len() == 2
            && nonnegative(c.deltas[i]) by {
            if i == 0 {
            } else {
                assert(i == 1);
            }
        }
    }
}

/// The structural key of a term: its secondary indices and its cross
/// counts, each in order. Weight, scalar, primary indices and terminal mark
/// are no part of it.
pub open spec fn key(t: TermView) -> (Seq<int>, Seq<Seq<int>>) {
    (t.es, t.deltas)
}

/// Two terms have the same structure: their keys are equal, entry by entry.
pub open spec fn same_key(a: TermView, b: TermView) -> bool {
    key(a) == key(b)
}

/// The sum of the weights of a sequence of terms, as an integer.
pub open spec fn weight_sum(s: Seq<TermView>) -> int
    decreases s.len(),
{
    if s.len() == 0 {
        0
    } else {
        weight_sum(s.drop_last()) + s.last().factor
    }
}

/// The primary indices of the first term: `a` times 2, then `b` times 4,
/// then `c` times 6.
pub open spec fn seed_ds(a: nat, b: nat, c: nat) -> Seq<int> {
    Seq::new(
        a + b + c,
        |i: int|
            if i < a {
                2
            } else if i < a + b {
                4
            } else {
                6
            },
    )
}

/// The term that every derivation starts from.
pub open spec fn seed(a: nat, b: nat, c: nat, n: nat) -> TermView {
    TermView {
        factor: 1,
        pi: n as int,
        ds: seed_ds(a, b, c),
        es: Seq::new(a + b + c, |i: int| 0int),
        deltas: Seq::new(a + b + c, |i: int| Seq::new(a + b + c, |j: int| 0int)),
        terminal: false,
    }
}

/// The first term is well formed, and its charge is the exponent.
pub proof fn lemma_seed_wf(a: nat, b: nat, c: nat, n: nat)
    requires
        n <= u64::MAX,
    ensures
        seed(a, b, c, n).wf(),
        seed(a, b, c, n).charge() == n,
{
    let t = seed(a, b, c, n);
    lemma_seq_sum_zero(t.es);
    lemma_grid_sum_zero(t.deltas);
}

} // verus!
