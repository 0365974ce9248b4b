//! A dense matrix stored in row-major order, generic over its element type.
use vstd::prelude::*;

verus! {

/// A matrix stored in row-major order: entry `(i, j)` lives at
/// `data[i * cols + j]`.
pub struct Matrix<T> {
    /// Number of rows.
    pub rows: usize,
    /// Number of columns.
    pub cols: usize,
    /// Row-major data.
    pub data: Vec<T>,
}

/// `i * cols + j` is a valid row-major position whenever `(i, j)` lies
/// inside a `rows x cols` grid.
pub proof fn lemma_index_in_bounds(rows: int, cols: int, i: int, j: int)
    requires
        0 <= i < rows,
        0 <= j < cols,
    ensures
        0 <= i * cols + j < rows * cols,
{
    assert(i * cols + j < rows * cols) by (nonlinear_arith)
        requires 0 <= i < rows, 0 <= j < cols;
    assert(0 <= i * cols) by (nonlinear_arith)
        requires 0 <= i, 0 <= cols;
}

/// Distinct cells of a grid with `cols` columns have distinct row-major
/// positions.
pub proof fn lemma_index_injective(cols: int, i1: int, j1: int, i2: int, j2: int)
    requires
        0 <= i1,
        0 <= i2,
        0 <= j1 < cols,
        0 <= j2 < cols,
        i1 * cols + j1 == i2 * cols + j2,
    ensures
        i1 == i2,
        j1 == j2,
{
    if i1 < i2 {
        assert(i1 * cols + cols <= i2 * cols) by (nonlinear_arith)
            requires i1 < i2, 0 <= cols;
    } else if i2 < i1 {
        assert(i2 * cols + cols <= i1 * cols) by (nonlinear_arith)
            requires i2 < i1, 0 <= cols;
    }
}

/// Every row-major position of a `rows x cols` grid comes from a cell.
pub proof fn lemma_index_decompose(rows: int, cols: int, k: int)
    requires
        0 <= rows,
        0 <= k < rows * cols,
    ensures
        cols > 0,
        0 <= k / cols < rows,
        0 <= k % cols < cols,
        (k / cols) * cols + k % cols == k,
{
    if cols <= 0 {
        assert(rows * cols <= 0) by (nonlinear_arith)
            requires cols <= 0, 0 <= rows;
    }
    vstd::arithmetic::div_mod::lemma_fundamental_div_mod(k, cols);
    vstd::arithmetic::div_mod::lemma_mod_bound(k, cols);
    vstd::arithmetic::div_mod::lemma_div_pos_is_pos(k, cols);
    vstd::arithmetic::mul::lemma_mul_is_commutative(cols, k / cols);
    if k / cols >= rows {
        assert(rows * cols <= (k / cols) * cols) by (nonlinear_arith)
            requires k / cols >= rows, cols > 0;
    }
}

impl<T> Matrix<T> {
    /// The data vector holds exactly `rows * cols` entries.
    pub open spec fn wf(&self) -> bool {
        self.data@.len() == self.rows * self.cols
    }

    /// The entry at row `i`, column `j`.
    pub open spec fn entry(&self, i: int, j: int) -> T {
        self.data@[i * self.cols + j]
    }

    /// `self` is the transpose of `m`: the shape is swapped and entry
    /// `(j, i)` of `self` is entry `(i, j)` of `m`.
    pub open spec fn is_transpose_of(&self, m: &Matrix<T>) -> bool {
        &&& self.wf()
        &&& self.rows == m.cols
        &&& self.cols == m.rows
        &&& forall|i: int, j: int|
            0 <= i < m.rows && 0 <= j < m.cols ==> #[trigger] self.entry(j, i) == m.entry(i, j)
    }

    /// Set element at `(i, j)`, that is at row-major position
    /// `i * cols + j`; the shape is unchanged.
    pub fn set(&mut self, i: usize, j: usize, v: T)
        requires
            i * old(self).cols + j < old(self).data@.len(),
        ensures
            final(self).rows == old(self).rows,
            final(self).cols == old(self).cols,
            final(self).data@ == old(self).data@.update(i * old(self).cols + j, v),
    {
        let len: usize = self.data.len();
        assert(i * self.cols <= i * self.cols + j < len) by (nonlinear_arith)
            requires i * self.cols + j < len, 0 <= j;
        let k: usize = i * self.cols + j;
        self.data.set(k, v);
    }
}

/// Reading back a cell of a well-formed matrix after `set` gives the value
/// written, and every other cell keeps its value.
pub proof fn law_get_after_set<T>(m: Matrix<T>, m2: Matrix<T>, i: int, j: int, v: T)
    requires
        m.wf(),
        0 <= i < m.rows,
        0 <= j < m.cols,
        m2.rows == m.rows,
        m2.cols == m.cols,
        m2.data@ == m.data@.update(i * m.cols + j, v),
    ensures
        m2.wf(),
        m2.entry(i, j) == v,
        forall|i2: int, j2: int|
            0 <= i2 < m.rows && 0 <= j2 < m.cols && (i2 != i || j2 != j) ==> #[trigger] m2.entry(
                i2,
                j2,
            ) == m.entry(i2, j2),
{
    lemma_index_in_bounds(m.rows as int, m.cols as int, i, j);
    assert forall|i2: int, j2: int|
        0 <= i2 < m.rows && 0 <= j2 < m.cols && (i2 != i || j2 != j) implies #[trigger] m2.entry(
            i2,
            j2,
        ) == m.entry(i2, j2) by {
        lemma_index_in_bounds(m.rows as int, m.cols as int, i2, j2);
        if i2 * m.cols + j2 == i * m.cols + j {
            lemma_index_injective(m.cols as int, i2, j2, i, j);
        }
    }
}

/// Transposing twice gives back the matrix one started from.
pub proof fn law_transpose_involution<T>(m: Matrix<T>, t: Matrix<T>, tt: Matrix<T>)
    requires
        m.wf(),
        t.is_transpose_of(&m),
        tt.is_transpose_of(&t),
    ensures
        tt.rows == m.rows,
        tt.cols == m.cols,
        tt.data@ == m.data@,
{
    assert(tt.data@.len() == m.data@.len()) by (nonlinear_arith)
        requires
            tt.data@.len() == tt.rows * tt.cols,
            m.data@.len() == m.rows * m.cols,
            tt.rows == m.rows,
            tt.cols == m.cols,
    ;
    assert forall|k: int| 0 <= k < m.data@.len() implies tt.data@[k] == m.data@[k] by {
        lemma_index_decompose(m.rows as int, m.cols as int, k);
        let i = k / (m.cols as int);
        let j = k % (m.cols as int);
        assert(t.entry(j, i) == m.entry(i, j));
        assert(tt.entry(i, j) == t.entry(j, i));
    }
    assert(tt.data@ =~= m.data@);
}

impl<T: Copy> Matrix<T> {
    /// Get element at `(i, j)`, that is at row-major position `i * cols + j`.
    pub fn get(&self, i: usize, j: usize) -> (v: T)
        requires
            i * self.cols + j < self.data@.len(),
        ensures
            v == self.data@[i * self.cols + j],
    {
        let len: usize = self.data.len();
        assert(i * self.cols <= i * self.cols + j < len) by (nonlinear_arith)
            requires i * self.cols + j < len, 0 <= j;
        self.data[i * self.cols + j]
    }

    /// Create a `rows x cols` matrix whose every entry is `zero`.
    pub fn zeros(rows: usize, cols: usize, zero: T) -> (m: Self)
        requires
            rows * cols <= usize::MAX,
        ensures
            m.rows == rows,
            m.cols == cols,
            m.wf(),
            forall|k: int| 0 <= k < m.data@.len() ==> m.data@[k] == zero,
    {
        let n: usize = rows * cols;
        let mut data: Vec<T> = Vec::new();
        let mut k: usize = 0;
        while k < n
            invariant
                k <= n,
                data@.len() == k,
                forall|p: int| 0 <= p < k ==> data@[p] == zero,
            decreases n - k,
        {
            data.push(zero);
            k = k + 1;
        }
        Matrix { rows, cols, data }
    }

    /// Create an `n x n` identity matrix: `one` on the diagonal and `zero`
    /// everywhere else.
    pub fn identity(n: usize, zero: T, one: T) -> (m: Self)
        requires
            n * n <= usize::MAX,
        ensures
            m.rows == n,
            m.cols == n,
            m.wf(),
            forall|i: int, j: int|
                0 <= i < n && 0 <= j < n ==> #[trigger] m.entry(i, j) == if i == j {
                    one
                } else {
                    zero
                },
    {
        let mut m = Self::zeros(n, n, zero);
        assert forall|i: int, j: int| 0 <= i < n && 0 <= j < n implies #[trigger] m.entry(i, j)
            == zero by {
            lemma_index_in_bounds(n as int, n as int, i, j);
        }
        let mut d: usize = 0;
        while d < n
            invariant
                d <= n,
                m.rows == n,
                m.cols == n,
                m.wf(),
                forall|i: int, j: int|
                    0 <= i < n && 0 <= j < n ==> #[trigger] m.entry(i, j) == if i == j && i < d {
                        one
                    } else {
                        zero
                    },
            decreases n - d,
        {
            proof {
                lemma_index_in_bounds(n as int, n as int, d as int, d as int);
            }
            let ghost before = m;
            m.set(d, d, one);
            assert forall|i: int, j: int| 0 <= i < n && 0 <= j < n implies #[trigger] m.entry(i, j)
                == if i == j && i < d + 1 {
                one
            } else {
                zero
            } by {
                lemma_index_in_bounds(n as int, n as int, i, j);
                if i * (n as int) + j == d * n + d {
                    lemma_index_injective(n as int, i, j, d as int, d as int);
                } else {
                    assert(m.entry(i, j) == before.entry(i, j));
                }
            }
            d = d + 1;
        }
        m
    }

    /// Matrix transpose: reads the first `rows * cols` entries of `data`.
    pub fn transpose(&self) -> (t: Self)
        requires
            self.rows * self.cols <= self.data@.len(),
        ensures
            t.is_transpose_of(self),
    {
        let rows = self.rows;
        let cols = self.cols;
        let mut data: Vec<T> = Vec::new();
        let mut j: usize = 0;
        while j < cols
            invariant
                rows * cols <= self.data@.len(),
                rows == self.rows,
                cols == self.cols,
                j <= cols,
                data@.len() == j * rows,
                forall|jj: int, ii: int|
                    0 <= jj < j && 0 <= ii < rows ==> data@[jj * rows + ii] == #[trigger] self.entry(
                        ii,
                        jj,
                    ),
            decreases cols - j,
        {
            let mut i: usize = 0;
            while i < rows
                invariant
                    rows * cols <= self.data@.len(),
                    rows == self.rows,
                    cols == self.cols,
                    j < cols,
                    i <= rows,
                    data@.len() == j * rows + i,
                    forall|jj: int, ii: int|
                        0 <= jj < j && 0 <= ii < rows ==> data@[jj * rows + ii]
                            == #[trigger] self.entry(ii, jj),
                    forall|ii: int| 0 <= ii < i ==> data@[j * rows + ii] == #[trigger] self.entry(ii, j as int),
                decreases rows - i,
            {
                proof {
                    lemma_index_in_bounds(rows as int, cols as int, i as int, j as int);
                }
                let v = self.get(i, j);
                let ghost before = data@;
                data.push(v);
                assert forall|jj: int, ii: int| 0 <= jj < j && 0 <= ii < rows implies data@[jj * rows
                    + ii] == #[trigger] self.entry(ii, jj) by {
                    lemma_index_in_bounds(j as int, rows as int, jj, ii);
                    assert(data@[jj * rows + ii] == before[jj * rows + ii]);
                }
                i = i + 1;
            }
            assert((j + 1) * rows == j * rows + rows) by (nonlinear_arith);
            j = j + 1;
        }
        assert(data@.len() == cols * rows);
        let t = Matrix { rows: cols, cols: rows, data };
        assert(t.data@.len() == t.rows * t.cols) by (nonlinear_arith)
            requires t.data@.len() == cols * rows, t.rows == cols, t.cols == rows;
        t
    }
}

} // verus!
