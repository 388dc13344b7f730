//! Packed upper-triangular matrices: a square matrix whose cells strictly
//! below the diagonal are all zero, stored as the row-major concatenation
//! of each row's cells from the diagonal to the last column.
use vstd::prelude::*;

use crate::MatrixError;
use crate::dense::{dense_wf, lemma_dense_pointwise_eq, mat_view, spec_square};

verus! {

/// The number of packed values of the first `i` rows of an n-by-n matrix:
/// row r contributes n - r.
pub open spec fn upper_count(n: int, i: int) -> int
    decreases i,
{
    if i <= 0 {
        0
    } else {
        upper_count(n, i - 1) + (n - (i - 1))
    }
}

/// `upper_count` matches the closed form i*(2n - i + 1)/2.
proof fn lemma_upper_count_formula(n: int, i: int)
    requires
        0 <= i <= n,
    ensures
        2 * upper_count(n, i) == i * (2 * n - i + 1),
    decreases i,
{
    if i > 0 {
        lemma_upper_count_formula(n, i - 1);
        assert(2 * upper_count(n, i) == i * (2 * n - i + 1)) by (nonlinear_arith)
            requires
                2 * upper_count(n, i - 1) == (i - 1) * (2 * n - i + 2),
                upper_count(n, i) == upper_count(n, i - 1) + (n - i + 1),
        {
        }
    } else {
        assert(2 * upper_count(n, 0) == 0 * (2 * n + 1)) by (nonlinear_arith)
            requires
                upper_count(n, 0) == 0,
        {
        }
    }
}

proof fn lemma_upper_count_ge(n: int, i: int)
    requires
        0 <= i <= n,
    ensures
        upper_count(n, i) >= i,
    decreases i,
{
    if i > 0 {
        lemma_upper_count_ge(n, i - 1);
    }
}

proof fn lemma_upper_count_mono(n: int, i: int, i2: int)
    requires
        0 <= i <= i2 <= n,
    ensures
        upper_count(n, i) <= upper_count(n, i2),
    decreases i2 - i,
{
    if i < i2 {
        lemma_upper_count_mono(n, i, i2 - 1);
    }
}

/// The flattened index of cell (i, j), for j at or right of the diagonal,
/// equals the packed base of row i plus the offset inside the row.
proof fn lemma_upper_index(n: int, i: int, j: int)
    requires
        0 <= i <= n,
        i <= j,
    ensures
        i * (2 * n - i - 1) / 2 + j == upper_count(n, i) + (j - i),
{
    lemma_upper_count_formula(n, i);
    assert(i * (2 * n - i - 1) == 2 * upper_count(n, i) - 2 * i) by (nonlinear_arith)
        requires
            2 * upper_count(n, i) == i * (2 * n - i + 1),
    {
    }
    assert((2 * (upper_count(n, i) - i)) / 2 == upper_count(n, i) - i);
}

/// No nonzero cell strictly below the diagonal.
pub open spec fn spec_upper_ok(m: Seq<Seq<i32>>) -> bool {
    forall|i: int, j: int| 0 <= j < i < m.len() ==> #[trigger] m[i][j] == 0
}

/// A square dense matrix with zeros strictly below the diagonal.
pub open spec fn spec_is_htm(m: Seq<Seq<i32>>) -> bool {
    spec_square(m) && spec_upper_ok(m)
}

/// A packed upper-triangular matrix.
#[derive(Debug, PartialEq)]
pub struct Htm {
    /// The common row and column count of the square matrix.
    pub size: usize,
    /// Exactly size*(size+1)/2 values: rows packed in order, row r holding
    /// its columns r ..= size - 1.
    pub data: Vec<i32>,
}

impl Htm {
    /// Representation invariant: nonzero size and a fully packed store.
    pub open spec fn wf(&self) -> bool {
        &&& self.size >= 1
        &&& self.data@.len() == upper_count(self.size as int, self.size as int)
    }

    /// The matrix cell at (i, j): zero below the diagonal, otherwise the
    /// packed value at flattened index i*(2*size - i - 1)/2 + j.
    pub open spec fn cell(&self, i: int, j: int) -> i32 {
        if j < i {
            0
        } else {
            self.data@[i * (2 * self.size as int - i - 1) / 2 + j]
        }
    }

    /// Whether a dense matrix is square with zeros strictly below the diagonal.
    pub fn is_htm(matrix: &Vec<Vec<i32>>) -> (r: bool)
        requires
            dense_wf(mat_view(*matrix)),
        ensures
            r == spec_is_htm(mat_view(*matrix)),
    {
        let ghost mv = mat_view(*matrix);
        let n = matrix.len();
        if n != matrix[0].len() {
            proof {
                assert(mv[0] == matrix@[0]@);
            }
            return false;
        }
        let mut i: usize = 0;
        while i < n
            invariant
                i <= n,
                forall|x: int, y: int| 0 <= x < i && 0 <= y < x ==> #[trigger] mv[x][y] == 0,
            decreases n - i,
        {
            proof {
                assert(mv[i as int] == matrix@[i as int]@);
            }
            let rowv = &matrix[i];
            let mut j: usize = 0;
            while j < i
                invariant
                    j <= i,
                    forall|y: int| 0 <= y < j ==> #[trigger] mv[i as int][y] == 0,
                decreases i - j,
            {
                if rowv[j] != 0 {
                    proof {
                        assert(mv[i as int][j as int] != 0);
                    }
                    return false;
                }
                j = j + 1;
            }
            i = i + 1;
        }
        true
    }

    /// Build the packed form of a dense matrix. Fails with `NotSquare` when
    /// the matrix is not square, and with `NotUpperTriangular` when a cell
    /// strictly below the diagonal is nonzero; otherwise packs each row's
    /// columns row ..= size - 1 in row-major order.
    pub fn from(matrix: &Vec<Vec<i32>>) -> (r: Result<Self, MatrixError>)
        requires
            dense_wf(mat_view(*matrix)),
        ensures
            ({
                let mv = mat_view(*matrix);
                &&& (r is Ok <==> spec_is_htm(mv))
                &&& (!spec_square(mv) ==> r == Result::<Htm, MatrixError>::Err(
                    MatrixError::NotSquare,
                ))
                &&& (spec_square(mv) && !spec_is_htm(mv) ==> r == Result::<Htm, MatrixError>::Err(
                    MatrixError::NotUpperTriangular,
                ))
                &&& (r is Ok ==> ({
                    let t = r->Ok_0;
                    &&& t.wf()
                    &&& t.size as int == mv.len()
                    &&& forall|i: int, j: int|
                        0 <= i < mv.len() && 0 <= j < mv.len() ==> #[trigger] t.cell(i, j)
                            == mv[i][j]
                }))
            }),
    {
        let ghost mv = mat_view(*matrix);
        let n = matrix.len();
        if n != matrix[0].len() {
            proof {
                assert(mv[0] == matrix@[0]@);
            }
            return Err(MatrixError::NotSquare);
        }
        if !Self::is_htm(matrix) {
            return Err(MatrixError::NotUpperTriangular);
        }
        let mut data: Vec<i32> = Vec::new();
        let mut i: usize = 0;
        while i < n
            invariant
                i <= n,
                data@.len() == upper_count(n as int, i as int),
                forall|x: int, y: int|
                    0 <= x < i && x <= y < n ==> #[trigger] data@[upper_count(n as int, x) + (y
                        - x)] == mv[x][y],
            decreases n - i,
        {
            proof {
                assert(mv[i as int] == matrix@[i as int]@);
            }
            let rowv = &matrix[i];
            let mut j: usize = i;
            while j < n
                invariant
                    i <= j <= n,
                    data@.len() == upper_count(n as int, i as int) + (j - i),
                    forall|x: int, y: int|
                        0 <= x < i && x <= y < n ==> #[trigger] data@[upper_count(n as int, x) + (y
                            - x)] == mv[x][y],
                    forall|y: int|
                        i <= y < j ==> #[trigger] data@[upper_count(n as int, i as int) + (y
                            - i as int)] == mv[i as int][y],
                decreases n - j,
            {
                let ghost d0 = data@;
                data.push(rowv[j]);
                proof {
                    assert forall|x: int, y: int|
                        0 <= x < i && x <= y < n implies #[trigger] data@[upper_count(
                        n as int,
                        x,
                    ) + (y - x)] == mv[x][y] by {
                        lemma_upper_count_ge(n as int, x);
                        lemma_upper_count_mono(n as int, x + 1, i as int);
                        assert(upper_count(n as int, x + 1) == upper_count(n as int, x) + (n - x));
                        assert(upper_count(n as int, x) + (y - x) < upper_count(
                            n as int,
                            i as int,
                        ));
                        assert(data@[upper_count(n as int, x) + (y - x)] == d0[upper_count(
                            n as int,
                            x,
                        ) + (y - x)]);
                    }
                }
                j = j + 1;
            }
            i = i + 1;
        }
        let t = Htm { size: n, data };
        proof {
            assert forall|x: int, y: int|
                0 <= x < mv.len() && 0 <= y < mv.len() implies #[trigger] t.cell(x, y)
                == mv[x][y] by {
                if y < x {
                    assert(mv[x][y] == 0);
                } else {
                    lemma_upper_index(n as int, x, y);
                    lemma_upper_count_ge(n as int, x);
                    lemma_upper_count_mono(n as int, x + 1, n as int);
                    assert(upper_count(n as int, x + 1) == upper_count(n as int, x) + (n - x));
                    assert(t.cell(x, y) == t.data@[upper_count(n as int, x) + (y - x)]);
                }
            }
        }
        Ok(t)
    }

    /// Reconstruct the dense matrix: zero below the diagonal, the packed
    /// value at flattened index i*(2*size - i - 1)/2 + j at and above it.
    pub fn to_vec(&self) -> (r: Vec<Vec<i32>>)
        requires
            self.wf(),
        ensures
            mat_view(r).len() == self.size as int,
            forall|i: int|
                0 <= i < self.size ==> (#[trigger] mat_view(r)[i]).len() == self.size as int,
            forall|i: int, j: int|
                0 <= i < self.size && 0 <= j < self.size ==> #[trigger] mat_view(r)[i][j]
                    == self.cell(i, j),
            dense_wf(mat_view(r)),
    {
        let n = self.size;
        let total = self.data.len();
        let mut out: Vec<Vec<i32>> = Vec::new();
        let mut off: usize = 0;
        let mut i: usize = 0;
        while i < n
            invariant
                i <= n,
                off as int == upper_count(n as int, i as int),
                out@.len() == i as int,
                forall|x: int| 0 <= x < i ==> (#[trigger] out@[x])@.len() == n as int,
                forall|x: int, y: int|
                    0 <= x < i && 0 <= y < n ==> #[trigger] out@[x]@[y] == self.cell(x, y),
            decreases n - i,
        {
            proof {
                lemma_upper_count_mono(n as int, i as int + 1, n as int);
                assert(upper_count(n as int, i as int + 1) == upper_count(n as int, i as int) + (n
                    - i));
                assert(off as int + (n - i) <= total as int);
            }
            let mut row: Vec<i32> = Vec::new();
            let mut j: usize = 0;
            while j < n
                invariant
                    j <= n,
                    row@.len() == j as int,
                    forall|y: int| 0 <= y < j ==> #[trigger] row@[y] == self.cell(i as int, y),
                decreases n - j,
            {
                if j < i {
                    row.push(0);
                } else {
                    let v = self.data[off + (j - i)];
                    proof {
                        lemma_upper_index(n as int, i as int, j as int);
                        assert(off + (j - i) == i as int * (2 * n as int - i as int - 1) / 2
                            + j as int);
                    }
                    row.push(v);
                }
                j = j + 1;
            }
            out.push(row);
            off = off + (n - i);
            i = i + 1;
        }
        proof {
            assert forall|x: int, y: int|
                0 <= x < self.size && 0 <= y < self.size implies #[trigger] mat_view(out)[x][y]
                == self.cell(x, y) by {
                assert(mat_view(out)[x] == out@[x]@);
            }
            assert forall|x: int|
                0 <= x < self.size implies (#[trigger] mat_view(out)[x]).len()
                == self.size as int by {
                assert(mat_view(out)[x] == out@[x]@);
            }
        }
        out
    }
}

/// Converting a valid upper-triangular dense matrix to packed form and back
/// to dense form yields the original matrix.
pub proof fn lemma_upper_round_trip(m: Seq<Seq<i32>>, t: Htm, d: Seq<Seq<i32>>)
    requires
        dense_wf(m),
        spec_is_htm(m),
        t.wf(),
        t.size as int == m.len(),
        // t is the packed form of m, per `from`'s contract
        forall|i: int, j: int|
            0 <= i < m.len() && 0 <= j < m.len() ==> #[trigger] t.cell(i, j) == m[i][j],
        // d is the dense form of t, per `to_vec`'s contract
        d.len() == t.size as int,
        forall|i: int| 0 <= i < t.size ==> (#[trigger] d[i]).len() == t.size as int,
        forall|i: int, j: int|
            0 <= i < t.size && 0 <= j < t.size ==> #[trigger] d[i][j] == t.cell(i, j),
    ensures
        d == m,
{
    lemma_dense_pointwise_eq(d, m);
}

} // verus!
