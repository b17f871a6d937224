//! Adjacency matrices of undirected, unweighted graphs.
//!
//! A matrix is square with entries in `{0, 1}`.  Symmetry and a zero
//! diagonal are stated as separate predicates rather than baked into
//! well-formedness, because an edge list may describe each undirected
//! edge by one or by both of its ordered pairs.

use vstd::prelude::*;

verus! {

/// Sum of the entries of one row: the degree of the row's node.
pub open spec fn row_total(row: Seq<u64>) -> int
    decreases row.len(),
{
    if row.len() == 0 {
        0
    } else {
        row_total(row.drop_last()) + row.last()
    }
}

/// Square, with every entry 0 or 1.
pub open spec fn wf_matrix(m: Seq<Seq<u64>>) -> bool {
    &&& forall|i: int| 0 <= i < m.len() ==> (#[trigger] m[i]).len() == m.len()
    &&& forall|i: int, j: int|
        0 <= i < m.len() && 0 <= j < m.len() ==> #[trigger] m[i][j] <= 1
}

/// Every entry mirrors its transpose entry.
pub open spec fn symmetric(m: Seq<Seq<u64>>) -> bool {
    forall|i: int, j: int|
        0 <= i < m.len() && 0 <= j < m.len() ==> #[trigger] m[i][j] == m[j][i]
}

/// No node has an edge to itself.
pub open spec fn zero_diagonal(m: Seq<Seq<u64>>) -> bool {
    forall|i: int| 0 <= i < m.len() ==> #[trigger] m[i][i] == 0
}

/// One graph's connectivity: a square matrix of 0/1 entries.
pub struct AdjacencyMatrix {
    rows: Vec<Vec<u64>>,
}

impl View for AdjacencyMatrix {
    type V = Seq<Seq<u64>>;

    closed spec fn view(&self) -> Seq<Seq<u64>> {
        self.rows@.map(|_i: int, r: Vec<u64>| r@)
    }
}

impl AdjacencyMatrix {
    /// Square, with every entry 0 or 1.
    pub open spec fn wf(&self) -> bool {
        wf_matrix(self@)
    }

    /// The node count this matrix is sized for.
    pub fn dim(&self) -> (n: usize)
        ensures
            n == self@.len(),
    {
        proof {
            assert(self@.len() == self.rows@.len());
        }
        self.rows.len()
    }

    /// A zero-initialized `n` by `n` matrix.
    pub fn zeros(n: usize) -> (m: AdjacencyMatrix)
        ensures
            m.wf(),
            m@.len() == n,
            forall|i: int, j: int| 0 <= i < n && 0 <= j < n ==> #[trigger] m@[i][j] == 0,
    {
        let mut rows: Vec<Vec<u64>> = Vec::new();
        let mut i: usize = 0;
        while i < n
            invariant
                i <= n,
                rows@.len() == i,
                forall|p: int| 0 <= p < i ==> (#[trigger] rows@[p])@.len() == n,
                forall|p: int, q: int|
                    #![trigger rows@[p]@[q]]
                    0 <= p < i && 0 <= q < n ==> rows@[p]@[q] == 0,
            decreases n - i,
        {
            let mut row: Vec<u64> = Vec::new();
            let mut j: usize = 0;
            while j < n
                invariant
                    j <= n,
                    row@.len() == j,
                    forall|q: int| 0 <= q < j ==> #[trigger] row@[q] == 0,
                decreases n - j,
            {
                row.push(0);
                j = j + 1;
            }
            rows.push(row);
            i = i + 1;
        }
        AdjacencyMatrix { rows }
    }

    /// Wrap literal rows that already form a square 0/1 matrix.
    pub fn from_rows(rows: Vec<Vec<u64>>) -> (m: AdjacencyMatrix)
        requires
            forall|i: int|
                0 <= i < rows@.len() ==> (#[trigger] rows@[i])@.len() == rows@.len(),
            forall|i: int, j: int|
                #![trigger rows@[i]@[j]]
                0 <= i < rows@.len() && 0 <= j < rows@.len() ==> rows@[i]@[j] <= 1,
        ensures
            m.wf(),
            m@.len() == rows@.len(),
            forall|i: int| 0 <= i < rows@.len() ==> #[trigger] m@[i] == rows@[i]@,
    {
        AdjacencyMatrix { rows }
    }

    /// Read one entry.
    pub fn get(&self, i: usize, j: usize) -> (e: u64)
        requires
            self.wf(),
            i < self@.len(),
            j < self@.len(),
        ensures
            e == self@[i as int][j as int],
    {
        proof {
            assert(self@.len() == self.rows@.len());
            assert(self@[i as int] == self.rows@[i as int]@);
        }
        self.rows[i][j]
    }

    /// Record the ordered pair `(i, j)` as present.
    pub fn set_one(&mut self, i: usize, j: usize)
        requires
            old(self).wf(),
            i < old(self)@.len(),
            j < old(self)@.len(),
        ensures
            final(self).wf(),
            final(self)@ == old(self)@.update(
                i as int,
                old(self)@[i as int].update(j as int, 1u64),
            ),
            final(self)@.len() == old(self)@.len(),
    {
        proof {
            assert(self@.len() == self.rows@.len());
            assert(self@[i as int] == self.rows@[i as int]@);
        }
        let row = &mut self.rows[i];
        row.set(j, 1);
        assert(self@ =~= old(self)@.update(
            i as int,
            old(self)@[i as int].update(j as int, 1u64),
        ));
    }

    /// Degree of node `i`: the sum of row `i`.
    pub fn degree(&self, i: usize) -> (d: u64)
        requires
            self.wf(),
            i < self@.len(),
        ensures
            d == row_total(self@[i as int]),
    {
        proof {
            assert(self@.len() == self.rows@.len());
            assert(self@[i as int] == self.rows@[i as int]@);
        }
        let row_ref = &self.rows[i];
        let n = row_ref.len();
        let mut total: u64 = 0;
        let mut j: usize = 0;
        proof {
            lemma_row_total_bounds(self@[i as int].subrange(0, 0));
        }
        while j < n
            invariant
                j <= n,
                n == self@[i as int].len(),
                self.wf(),
                i < self@.len(),
                row_ref@ == self@[i as int],
                total == row_total(self@[i as int].subrange(0, j as int)),
                total <= j,
            decreases n - j,
        {
            proof {
                assert(self@[i as int].subrange(0, j + 1).drop_last()
                    =~= self@[i as int].subrange(0, j as int));
            }
            total = total + row_ref[j];
            j = j + 1;
        }
        proof {
            assert(self@[i as int].subrange(0, n as int) =~= self@[i as int]);
        }
        total
    }
}

/// A row of 0/1 entries sums to something between 0 and its length.
pub proof fn lemma_row_total_bounds(row: Seq<u64>)
    requires
        forall|j: int| 0 <= j < row.len() ==> #[trigger] row[j] <= 1,
    ensures
        0 <= row_total(row) <= row.len(),
    decreases row.len(),
{
    if row.len() > 0 {
        lemma_row_total_bounds(row.drop_last());
    }
}

} // verus!
