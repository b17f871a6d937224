//! The normalized graph Laplacian, kept in exact form.
//!
//! For an adjacency matrix A with degree vector d, the Laplacian is
//! L = I − D^(−1/2) A D^(−1/2), so entry (i, j) is the real number
//!
//!   (if i == j { 1 } else { 0 }) − a(i, j) / sqrt(d(i) * d(j)).
//!
//! Every such entry is determined exactly by the triple
//! (i == j, a(i, j), d(i) * d(j)) of integers, which is what this module
//! stores and states contracts over.  Turning the triple into a
//! floating-point number — and taking eigenvalues of the resulting
//! matrix — is the caller's business; a node of degree zero makes the
//! scale zero, and the division then propagates non-finite values, a
//! documented degeneracy that is deliberately not intercepted here.

use vstd::arithmetic::mul::lemma_mul_upper_bound;
use vstd::prelude::*;

use crate::adjacency::row_total;
use crate::adjacency::symmetric;
use crate::adjacency::wf_matrix;
use crate::adjacency::zero_diagonal;
use crate::adjacency::AdjacencyMatrix;

verus! {

/// One entry of the normalized Laplacian, representing exactly the real
/// number `(if on_diagonal { 1 } else { 0 }) - weight / sqrt(scale)`.
#[derive(Clone, Copy, Debug, PartialEq, Eq, Structural)]
pub struct LapEntry {
    /// True on the main diagonal, where the identity matrix contributes 1.
    pub on_diagonal: bool,
    /// The adjacency entry a(i, j), the numerator of the subtracted term.
    pub weight: u64,
    /// d(i) * d(j); the subtracted term divides by its square root.
    pub scale: u128,
}

/// A normalized Laplacian: the adjacency matrix it derives from, plus the
/// degree of every node.
pub struct Laplacian {
    adj: AdjacencyMatrix,
    deg: Vec<u64>,
}

/// The subtracted weight of entry (i, j): the adjacency entry a(i, j).
pub open spec fn entry_weight(l: Laplacian, i: int, j: int) -> int {
    l.matrix()[i][j] as int
}

/// The squared denominator of entry (i, j): d(i) * d(j).
pub open spec fn entry_scale(l: Laplacian, i: int, j: int) -> int {
    l.degrees()[i] * l.degrees()[j]
}

/// Whether the identity matrix contributes 1 to entry (i, j).
pub open spec fn entry_unit(l: Laplacian, i: int, j: int) -> bool {
    i == j
}

/// Entry (i, j) represents exactly the real number 1: the unit is present,
/// nothing is subtracted, and the denominator is a positive real.
pub open spec fn entry_is_one(l: Laplacian, i: int, j: int) -> bool {
    entry_unit(l, i, j) && entry_weight(l, i, j) == 0 && entry_scale(l, i, j) > 0
}

impl Laplacian {
    /// The adjacency matrix this Laplacian derives from.
    pub closed spec fn matrix(&self) -> Seq<Seq<u64>> {
        self.adj@
    }

    /// The degree of every node, in node order.
    pub closed spec fn degrees(&self) -> Seq<u64> {
        self.deg@
    }

    /// The adjacency matrix is well formed and the stored degrees are its
    /// row sums.
    pub open spec fn wf(&self) -> bool {
        &&& wf_matrix(self.matrix())
        &&& self.degrees().len() == self.matrix().len()
        &&& forall|i: int|
            0 <= i < self.matrix().len()
                ==> #[trigger] self.degrees()[i] == row_total(self.matrix()[i])
    }

    /// Derive the normalized Laplacian of an adjacency matrix: compute the
    /// degree vector; every entry is then determined by `entry`.
    pub fn from_adjacency(adj: AdjacencyMatrix) -> (l: Laplacian)
        requires
            adj.wf(),
        ensures
            l.wf(),
            l.matrix() == adj@,
    {
        let n = adj.dim();
        let mut deg: Vec<u64> = Vec::new();
        let mut i: usize = 0;
        while i < n
            invariant
                i <= n,
                n == adj@.len(),
                adj.wf(),
                deg@.len() == i,
                forall|p: int|
                    0 <= p < i ==> #[trigger] deg@[p] == row_total(adj@[p]),
            decreases n - i,
        {
            let d = adj.degree(i);
            deg.push(d);
            i = i + 1;
        }
        Laplacian { adj, deg }
    }

    /// The node count.
    pub fn dim(&self) -> (n: usize)
        ensures
            n == self.matrix().len(),
    {
        self.adj.dim()
    }

    /// Entry (i, j) in exact form.
    pub fn entry(&self, i: usize, j: usize) -> (e: LapEntry)
        requires
            self.wf(),
            i < self.matrix().len(),
            j < self.matrix().len(),
        ensures
            e.on_diagonal == entry_unit(*self, i as int, j as int),
            e.weight == entry_weight(*self, i as int, j as int),
            e.scale == entry_scale(*self, i as int, j as int),
    {
        let di = self.deg[i];
        let dj = self.deg[j];
        proof {
            lemma_mul_upper_bound(di as int, u64::MAX as int, dj as int, u64::MAX as int);
        }
        LapEntry {
            on_diagonal: i == j,
            weight: self.adj.get(i, j),
            scale: (di as u128) * (dj as u128),
        }
    }
}

/// Law: over a symmetric, zero-diagonal adjacency matrix in which every
/// node has degree at least one, the Laplacian is symmetric — entry (i, j)
/// and entry (j, i) agree in all three components, hence as reals — and
/// every diagonal entry is exactly 1.
pub proof fn lemma_laplacian_symmetric_unit_diagonal(l: Laplacian)
    requires
        l.wf(),
        symmetric(l.matrix()),
        zero_diagonal(l.matrix()),
        forall|i: int|
            0 <= i < l.matrix().len() ==> #[trigger] l.degrees()[i] >= 1,
    ensures
        forall|i: int, j: int|
            0 <= i < l.matrix().len() && 0 <= j < l.matrix().len()
                ==> #[trigger] entry_weight(l, i, j) == entry_weight(l, j, i)
                    && entry_scale(l, i, j) == entry_scale(l, j, i)
                    && (entry_unit(l, i, j) == entry_unit(l, j, i)),
        forall|i: int|
            0 <= i < l.matrix().len() ==> #[trigger] entry_is_one(l, i, i),
{
    assert forall|i: int, j: int|
        0 <= i < l.matrix().len() && 0 <= j < l.matrix().len()
            implies #[trigger] entry_weight(l, i, j) == entry_weight(l, j, i)
                && entry_scale(l, i, j) == entry_scale(l, j, i)
                && (entry_unit(l, i, j) == entry_unit(l, j, i)) by {
        assert(l.matrix()[i][j] == l.matrix()[j][i]);
    }
    assert forall|i: int| 0 <= i < l.matrix().len() implies #[trigger] entry_is_one(l, i, i) by {
        assert(l.matrix()[i][i] == 0);
        assert(l.degrees()[i] * l.degrees()[i] >= 1) by (nonlinear_arith)
            requires
                l.degrees()[i] >= 1,
        ;
    }
}

} // verus!
