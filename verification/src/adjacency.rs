//! Binary adjacency matrices of learned graphs.
//!
//! An adjacency matrix is held in an `ndarray::Array2<i32>`; the entry at
//! row `i`, column `j` is positive exactly when the graph has the directed
//! edge `i -> j`.

use vstd::prelude::*;
use ndarray::Array2;

verus! {

/// A `rows x cols` matrix of `i32` entries, stored as an `ndarray` array.
#[verifier::external_body]
pub struct AdjacencyMatrix {
    inner: Array2<i32>,
}

/// The entries of an adjacency matrix, row by row.
pub uninterp spec fn adjacency_entries(a: AdjacencyMatrix) -> Seq<Seq<i32>>;

/// The shape `(rows, cols)` that the array was made with.
pub uninterp spec fn adjacency_shape(a: AdjacencyMatrix) -> (usize, usize);

/// The product of the non-zero axis lengths, which `ndarray` keeps within
/// `isize::MAX`.
pub open spec fn nonzero_size(rows: usize, cols: usize) -> int {
    (if rows == 0 { 1int } else { rows as int }) * (if cols == 0 { 1int } else { cols as int })
}

/// The matrix whose row `i` holds `values[i * cols .. (i + 1) * cols]`.
pub open spec fn row_major(values: Seq<i32>, rows: nat, cols: nat) -> Seq<Seq<i32>> {
    Seq::new(rows, |i: int| values.subrange(i * cols, i * cols + cols))
}

/// Entries of the right shape: `rows` rows of `cols` entries each.
pub open spec fn has_shape(m: Seq<Seq<i32>>, rows: nat, cols: nat) -> bool {
    &&& m.len() == rows
    &&& forall|i: int| 0 <= i < rows ==> #[trigger] m[i].len() == cols
}

/// The edges `(i, j)` with `j < j_end` that row `i` of a matrix holds, in
/// column order: those whose entry is positive.
pub open spec fn row_edges(row: Seq<i32>, i: usize, j_end: int) -> Seq<(usize, usize)>
    decreases j_end,
{
    if j_end <= 0 {
        seq![]
    } else {
        row_edges(row, i, j_end - 1) + if row[j_end - 1] > 0 {
            seq![(i, (j_end - 1) as usize)]
        } else {
            seq![]
        }
    }
}

/// The edges of the `n`-node graph of `m` whose source is below `i_end`,
/// in row-major order.
pub open spec fn edge_list(m: Seq<Seq<i32>>, n: int, i_end: int) -> Seq<(usize, usize)>
    decreases i_end,
{
    if i_end <= 0 {
        seq![]
    } else {
        edge_list(m, n, i_end - 1) + row_edges(m[i_end - 1], (i_end - 1) as usize, n)
    }
}

/// Number of positive entries among the first `j_end` of a row.
pub open spec fn row_positive_count(row: Seq<i32>, j_end: int) -> nat
    decreases j_end,
{
    if j_end <= 0 {
        0
    } else {
        row_positive_count(row, j_end - 1) + if row[j_end - 1] > 0 { 1nat } else { 0nat }
    }
}

/// Number of positive entries in the first `i_end` rows of a matrix.
pub open spec fn positive_count(m: Seq<Seq<i32>>, i_end: int) -> nat
    decreases i_end,
{
    if i_end <= 0 {
        0
    } else {
        positive_count(m, i_end - 1) + row_positive_count(m[i_end - 1], m[i_end - 1].len() as int)
    }
}

/// `a` comes strictly before `b` in row-major order.
pub open spec fn precedes(a: (usize, usize), b: (usize, usize)) -> bool {
    a.0 < b.0 || (a.0 == b.0 && a.1 < b.1)
}

/// `m` has the edge `i -> j`.
pub open spec fn has_edge(m: Seq<Seq<i32>>, i: int, j: int) -> bool {
    m[i][j] > 0
}

/// `edges` lists, in strictly increasing row-major order, exactly the edges
/// `i -> j` of `m` with `i < n` and `j < n`.
pub open spec fn lists_edges_in_order(edges: Seq<(usize, usize)>, m: Seq<Seq<i32>>, n: int) -> bool {
    &&& forall|k: int| 0 <= k < edges.len() ==> {
        &&& (#[trigger] edges[k]).0 < n
        &&& edges[k].1 < n
        &&& has_edge(m, edges[k].0 as int, edges[k].1 as int)
    }
    &&& forall|k: int, l: int| 0 <= k < l < edges.len() ==> precedes(#[trigger] edges[k], #[trigger] edges[l])
    &&& forall|i: usize, j: usize| i < n && j < n && has_edge(m, i as int, j as int)
        ==> #[trigger] edges.contains((i, j))
}

/// The edges of one row are the positive entries before `j_end`, in column
/// order, and there are as many as positive entries.
proof fn lemma_row_edges(row: Seq<i32>, i: usize, j_end: int)
    requires
        0 <= j_end <= row.len(),
        j_end <= usize::MAX,
    ensures
        row_edges(row, i, j_end).len() == row_positive_count(row, j_end),
        forall|k: int| 0 <= k < row_edges(row, i, j_end).len() ==> {
            &&& (#[trigger] row_edges(row, i, j_end)[k]).0 == i
            &&& row_edges(row, i, j_end)[k].1 < j_end
            &&& row[row_edges(row, i, j_end)[k].1 as int] > 0
        },
        forall|k: int, l: int| 0 <= k < l < row_edges(row, i, j_end).len()
            ==> (#[trigger] row_edges(row, i, j_end)[k]).1 < (#[trigger] row_edges(row, i, j_end)[l]).1,
        forall|j: usize| j < j_end && row[j as int] > 0 ==> #[trigger] row_edges(row, i, j_end).contains((i, j)),
    decreases j_end,
{
    if j_end > 0 {
        lemma_row_edges(row, i, j_end - 1);
        let prev = row_edges(row, i, j_end - 1);
        let cur = row_edges(row, i, j_end);
        assert forall|k: int| 0 <= k < cur.len() implies {
            &&& (#[trigger] cur[k]).0 == i
            &&& cur[k].1 < j_end
            &&& row[cur[k].1 as int] > 0
        } by {
            if k < prev.len() {
                assert(cur[k] == prev[k]);
            }
        }
        assert forall|k: int, l: int| 0 <= k < l < cur.len() implies (#[trigger] cur[k]).1 < (#[trigger] cur[l]).1 by {
            if l < prev.len() {
                assert(cur[k] == prev[k]);
                assert(cur[l] == prev[l]);
            } else {
                assert(cur[k] == prev[k]);
            }
        }
        assert forall|j: usize| j < j_end && row[j as int] > 0 implies #[trigger] cur.contains((i, j)) by {
            if j < j_end - 1 {
                assert(prev.contains((i, j)));
                let k = choose|k: int| 0 <= k < prev.len() && prev[k] == (i, j);
                assert(cur[k] == (i, j));
            } else {
                assert(cur[cur.len() - 1] == (i, j));
            }
        }
    }
}

/// `edge_list` lists, in row-major order, exactly the edges whose source is
/// below `i_end`, and there are as many as positive entries in those rows.
proof fn lemma_edge_list(m: Seq<Seq<i32>>, n: int, i_end: int)
    requires
        0 <= i_end <= m.len(),
        i_end <= usize::MAX,
        0 <= n <= usize::MAX,
        forall|i: int| 0 <= i < i_end ==> #[trigger] m[i].len() >= n,
    ensures
        forall|k: int| 0 <= k < edge_list(m, n, i_end).len() ==> {
            &&& (#[trigger] edge_list(m, n, i_end)[k]).0 < i_end
            &&& edge_list(m, n, i_end)[k].1 < n
            &&& has_edge(m, edge_list(m, n, i_end)[k].0 as int, edge_list(m, n, i_end)[k].1 as int)
        },
        forall|k: int, l: int| 0 <= k < l < edge_list(m, n, i_end).len()
            ==> precedes(#[trigger] edge_list(m, n, i_end)[k], #[trigger] edge_list(m, n, i_end)[l]),
        forall|i: usize, j: usize| i < i_end && j < n && has_edge(m, i as int, j as int)
            ==> #[trigger] edge_list(m, n, i_end).contains((i, j)),
    decreases i_end,
{
    if i_end > 0 {
        let r = i_end - 1;
        lemma_edge_list(m, n, r);
        lemma_row_edges(m[r], r as usize, n);
        let prev = edge_list(m, n, r);
        let row = row_edges(m[r], r as usize, n);
        let cur = edge_list(m, n, i_end);
        assert(cur == prev + row);
        assert forall|k: int| 0 <= k < cur.len() implies {
            &&& (#[trigger] cur[k]).0 < i_end
            &&& cur[k].1 < n
            &&& has_edge(m, cur[k].0 as int, cur[k].1 as int)
        } by {
            if k >= prev.len() {
                assert(cur[k] == row[k - prev.len()]);
            }
        }
        assert forall|k: int, l: int| 0 <= k < l < cur.len() implies precedes(#[trigger] cur[k], #[trigger] cur[l]) by {
            if l < prev.len() {
            } else if k < prev.len() {
                assert(cur[l] == row[l - prev.len()]);
            } else {
                assert(cur[k] == row[k - prev.len()]);
                assert(cur[l] == row[l - prev.len()]);
            }
        }
        assert forall|i: usize, j: usize| i < i_end && j < n && has_edge(m, i as int, j as int)
            implies #[trigger] cur.contains((i, j)) by {
            if i < r {
                assert(prev.contains((i, j)));
                let k = choose|k: int| 0 <= k < prev.len() && prev[k] == (i, j);
                assert(cur[k] == (i, j));
            } else {
                assert(row.contains((i, j)));
                let k = choose|k: int| 0 <= k < row.len() && row[k] == (i, j);
                assert(cur[prev.len() + k] == (i, j));
            }
        }
    }
}

/// Law: on a square matrix, the edge list has one entry per positive entry,
/// so `edges().len() == edge_count()`.
pub proof fn lemma_edge_count_is_number_of_edges(m: Seq<Seq<i32>>, n: usize)
    requires
        has_shape(m, n as nat, n as nat),
    ensures
        edge_list(m, n as int, n as int).len() == positive_count(m, n as int),
{
    lemma_edge_list_len(m, n as nat, n as int);
}

proof fn lemma_edge_list_len(m: Seq<Seq<i32>>, n: nat, i_end: int)
    requires
        has_shape(m, n, n),
        n <= usize::MAX,
        0 <= i_end <= n,
    ensures
        edge_list(m, n as int, i_end).len() == positive_count(m, i_end),
    decreases i_end,
{
    if i_end > 0 {
        lemma_edge_list_len(m, n, i_end - 1);
        lemma_row_edges(m[i_end - 1], (i_end - 1) as usize, n as int);
    }
}

/// Law: the edge list of a square matrix lists exactly its edges, in
/// strictly increasing row-major order (so without repeats).
pub proof fn lemma_edges_are_the_positive_entries(m: Seq<Seq<i32>>, n: usize)
    requires
        has_shape(m, n as nat, n as nat),
    ensures
        lists_edges_in_order(edge_list(m, n as int, n as int), m, n as int),
{
    lemma_edge_list(m, n as int, n as int);
}

proof fn lemma_row_positive_count_monotone(r1: Seq<i32>, r2: Seq<i32>, j_end: int)
    requires
        0 <= j_end,
        forall|j: int| 0 <= j < j_end && r1[j] > 0 ==> #[trigger] r2[j] > 0,
    ensures
        row_positive_count(r1, j_end) <= row_positive_count(r2, j_end),
    decreases j_end,
{
    if j_end > 0 {
        lemma_row_positive_count_monotone(r1, r2, j_end - 1);
    }
}

/// Law: when every edge of `m1` is an edge of `m2` (same shape), `m1` has
/// at most as many positive entries as `m2`.
pub proof fn lemma_edge_count_monotone(m1: Seq<Seq<i32>>, m2: Seq<Seq<i32>>, rows: nat, cols: nat)
    requires
        has_shape(m1, rows, cols),
        has_shape(m2, rows, cols),
        forall|i: int, j: int| 0 <= i < rows && 0 <= j < cols && has_edge(m1, i, j) ==> #[trigger] has_edge(m2, i, j),
    ensures
        positive_count(m1, rows as int) <= positive_count(m2, rows as int),
{
    lemma_positive_count_monotone(m1, m2, rows, cols, rows as int);
}

proof fn lemma_positive_count_monotone(m1: Seq<Seq<i32>>, m2: Seq<Seq<i32>>, rows: nat, cols: nat, i_end: int)
    requires
        has_shape(m1, rows, cols),
        has_shape(m2, rows, cols),
        forall|i: int, j: int| 0 <= i < rows && 0 <= j < cols && has_edge(m1, i, j) ==> #[trigger] has_edge(m2, i, j),
        0 <= i_end <= rows,
    ensures
        positive_count(m1, i_end) <= positive_count(m2, i_end),
    decreases i_end,
{
    if i_end > 0 {
        let i = i_end - 1;
        lemma_positive_count_monotone(m1, m2, rows, cols, i);
        assert forall|j: int| 0 <= j < cols && m1[i][j] > 0 implies #[trigger] m2[i][j] > 0 by {
            assert(has_edge(m1, i, j));
            assert(has_edge(m2, i, j));
        }
        lemma_row_positive_count_monotone(m1[i], m2[i], cols as int);
    }
}

proof fn lemma_row_positive_count_bound(row: Seq<i32>, skip: int, j_end: int)
    requires
        0 <= j_end,
        0 <= skip,
        skip < j_end ==> row[skip] <= 0,
    ensures
        row_positive_count(row, j_end) + (if skip < j_end { 1int } else { 0int }) <= j_end,
    decreases j_end,
{
    if j_end > 0 {
        lemma_row_positive_count_bound(row, skip, j_end - 1);
    }
}

/// Law: a square matrix without positive diagonal entries (no self-loop)
/// has at most `n * (n - 1)` positive entries.
pub proof fn lemma_loopless_edge_count_bound(m: Seq<Seq<i32>>, n: nat)
    requires
        has_shape(m, n, n),
        forall|i: int| 0 <= i < n ==> !#[trigger] has_edge(m, i, i),
    ensures
        positive_count(m, n as int) <= n * (n - 1),
{
    lemma_loopless_count_prefix(m, n, n as int);
}

proof fn lemma_loopless_count_prefix(m: Seq<Seq<i32>>, n: nat, i_end: int)
    requires
        has_shape(m, n, n),
        forall|i: int| 0 <= i < n ==> !#[trigger] has_edge(m, i, i),
        0 <= i_end <= n,
    ensures
        positive_count(m, i_end) <= i_end * (n - 1),
    decreases i_end,
{
    if i_end > 0 {
        let i = i_end - 1;
        lemma_loopless_count_prefix(m, n, i);
        assert(!has_edge(m, i, i));
        lemma_row_positive_count_bound(m[i], i, n as int);
        assert(i * (n - 1) + (n - 1) == i_end * (n - 1)) by (nonlinear_arith)
            requires
                i_end == i + 1,
        ;
    }
}

impl AdjacencyMatrix {
    /// The entries, row by row.
    pub open spec fn entries(self) -> Seq<Seq<i32>> {
        adjacency_entries(self)
    }

    /// Number of rows.
    pub open spec fn rows(self) -> usize {
        adjacency_shape(self).0
    }

    /// Number of columns.
    pub open spec fn cols(self) -> usize {
        adjacency_shape(self).1
    }

    /// What every `ndarray` array satisfies: the entries have the shape, and
    /// the non-zero axis lengths multiply to at most `isize::MAX`.
    pub open spec fn well_formed(self) -> bool {
        &&& has_shape(self.entries(), self.rows() as nat, self.cols() as nat)
        &&& nonzero_size(self.rows(), self.cols()) <= isize::MAX
    }

    /// `ndarray::Array2::from_shape_vec` with the shape `(rows, cols)` in
    /// standard (row-major) layout. The crate's source (`from_shape_vec_impl`,
    /// `can_index_slice_not_custom`, `size_of_shape_checked`) succeeds exactly
    /// when `rows * cols` equals the number of values and the product of the
    /// non-zero axis lengths is at most `isize::MAX`; the array then holds
    /// the values row by row.
    #[verifier::external_body]
    fn array_from_shape_vec(rows: usize, cols: usize, values: Vec<i32>) -> (r: Option<AdjacencyMatrix>)
        ensures
            r is Some <==> (rows * cols == values@.len() && nonzero_size(rows, cols) <= isize::MAX),
            r matches Some(a) ==> {
                &&& a.rows() == rows
                &&& a.cols() == cols
                &&& adjacency_entries(a) == row_major(values@, rows as nat, cols as nat)
            },
    {
        match Array2::from_shape_vec((rows, cols), values) {
            Ok(inner) => Some(AdjacencyMatrix { inner }),
            Err(_) => None,
        }
    }

    /// `ndarray::ArrayBase::dim`: the shape `(rows, cols)`. Every array has
    /// entries of that shape, and its non-zero axis lengths multiply to at
    /// most `isize::MAX` (an invariant that `ndarray` keeps).
    #[verifier::external_body]
    fn array_dim(&self) -> (r: (usize, usize))
        ensures
            r == adjacency_shape(*self),
            has_shape(adjacency_entries(*self), r.0 as nat, r.1 as nat),
            nonzero_size(r.0, r.1) <= isize::MAX,
    {
        self.inner.dim()
    }

    /// `Index<[usize; 2]>` of `ndarray::ArrayBase`: the entry at row `i`,
    /// column `j`; it panics out of bounds, which `requires` excludes.
    #[verifier::external_body]
    fn array_get(&self, i: usize, j: usize) -> (r: i32)
        requires
            i < self.rows(),
            j < self.cols(),
        ensures
            r == adjacency_entries(*self)[i as int][j as int],
    {
        self.inner[[i, j]]
    }

    /// Builds a `rows x cols` matrix from its entries listed row by row.
    ///
    /// Returns `None` when the number of values is not `rows * cols`, or when
    /// the shape is too large for `ndarray`.
    pub fn from_shape_vec(rows: usize, cols: usize, values: Vec<i32>) -> (r: Option<AdjacencyMatrix>)
        ensures
            r is Some <==> (rows * cols == values@.len() && nonzero_size(rows, cols) <= isize::MAX),
            r matches Some(a) ==> {
                &&& a.rows() == rows
                &&& a.cols() == cols
                &&& a.entries() == row_major(values@, rows as nat, cols as nat)
                &&& a.well_formed()
            },
    {
        let r = Self::array_from_shape_vec(rows, cols, values);
        proof {
            if r is Some {
                let a = r->0;
                let m = a.entries();
                assert forall|i: int| 0 <= i < rows implies #[trigger] m[i].len() == cols by {
                    assert(i * cols + cols <= rows * cols) by (nonlinear_arith)
                        requires
                            0 <= i < rows,
                    ;
                    assert(0 <= i * cols) by (nonlinear_arith)
                        requires
                            0 <= i,
                    ;
                }
            }
        }
        r
    }

    /// The shape `(rows, cols)`.
    pub fn shape(&self) -> (r: (usize, usize))
        ensures
            r == (self.rows(), self.cols()),
            self.well_formed(),
    {
        self.array_dim()
    }

    /// The entry at row `i`, column `j`.
    pub fn get(&self, i: usize, j: usize) -> (r: i32)
        requires
            i < self.rows(),
            j < self.cols(),
        ensures
            r == self.entries()[i as int][j as int],
    {
        self.array_get(i, j)
    }
    /// The edges `(i, j)` of the graph, with `i` and `j` below the number of
    /// rows, in row-major order.
    pub fn edges(&self) -> (r: Vec<(usize, usize)>)
        requires
            self.rows() <= self.cols(),
        ensures
            r@ == edge_list(self.entries(), self.rows() as int, self.rows() as int),
            lists_edges_in_order(r@, self.entries(), self.rows() as int),
    {
        let (n, _cols) = self.shape();
        let ghost m = self.entries();
        let mut edges: Vec<(usize, usize)> = Vec::new();
        let mut i: usize = 0;
        while i < n
            invariant
                i <= n,
                n == self.rows(),
                n <= self.cols(),
                m == self.entries(),
                edges@ == edge_list(m, n as int, i as int),
            decreases n - i,
        {
            let mut j: usize = 0;
            while j < n
                invariant
                    i < n,
                    j <= n,
                    n == self.rows(),
                    n <= self.cols(),
                    m == self.entries(),
                    edges@ == edge_list(m, n as int, i as int) + row_edges(m[i as int], i, j as int),
                decreases n - j,
            {
                if self.get(i, j) > 0 {
                    edges.push((i, j));
                }
                j += 1;
            }
            i += 1;
        }
        proof {
            lemma_edge_list(m, n as int, n as int);
        }
        edges
    }

    /// Number of positive entries of the whole matrix.
    pub fn edge_count(&self) -> (r: usize)
        ensures
            r == positive_count(self.entries(), self.rows() as int),
    {
        let (rows, cols) = self.shape();
        let ghost m = self.entries();
        let mut count: usize = 0;
        let mut i: usize = 0;
        while i < rows
            invariant
                i <= rows,
                rows == self.rows(),
                cols == self.cols(),
                m == self.entries(),
                self.well_formed(),
                count == positive_count(m, i as int),
                count <= i * cols,
            decreases rows - i,
        {
            let mut j: usize = 0;
            while j < cols
                invariant
                    i < rows,
                    j <= cols,
                    rows == self.rows(),
                    cols == self.cols(),
                    m == self.entries(),
                    self.well_formed(),
                    count == positive_count(m, i as int) + row_positive_count(m[i as int], j as int),
                    count <= i * cols + j,
                decreases cols - j,
            {
                proof {
                    assert(i * cols + j + 1 <= rows * cols) by (nonlinear_arith)
                        requires
                            i < rows,
                            j < cols,
                    ;
                }
                if self.get(i, j) > 0 {
                    count += 1;
                }
                j += 1;
            }
            proof {
                assert((i + 1) * cols == i * cols + cols) by (nonlinear_arith);
            }
            i += 1;
        }
        count
    }
}

} // verus!
