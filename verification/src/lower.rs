//! Packed lower-triangular matrices: a square matrix whose cells strictly
//! above the diagonal are all zero, stored as the row-major concatenation
//! of each row's cells from column 0 up to and including the diagonal.
use vstd::prelude::*;

use crate::MatrixError;
use crate::dense::{dense_wf, lemma_dense_pointwise_eq, mat_view, spec_square};

verus! {

/// The number of packed values of the first `i` rows: row r contributes r + 1.
pub open spec fn lower_count(i: int) -> int
    decreases i,
{
    if i <= 0 {
        0
    } else {
        lower_count(i - 1) + i
    }
}

/// `lower_count` matches the closed-form flattened row base i*(i+1)/2.
proof fn lemma_lower_count_formula(i: int)
    requires
        0 <= i,
    ensures
        2 * lower_count(i) == i * (i + 1),
        lower_count(i) == i * (i + 1) / 2,
    decreases i,
{
    if i > 0 {
        lemma_lower_count_formula(i - 1);
        assert(2 * lower_count(i) == i * (i + 1)) by (nonlinear_arith)
            requires
                2 * lower_count(i - 1) == (i - 1) * i,
                lower_count(i) == lower_count(i - 1) + i,
        {
        }
    }
    assert(2 * lower_count(i) / 2 == lower_count(i));
}

proof fn lemma_lower_count_mono(i: int, n: int)
    requires
        0 <= i <= n,
    ensures
        lower_count(i) <= lower_count(n),
    decreases n - i,
{
    if i < n {
        lemma_lower_count_mono(i, n - 1);
    }
}

/// No nonzero cell strictly above the diagonal.
pub open spec fn spec_lower_ok(m: Seq<Seq<i32>>) -> bool {
    forall|i: int, j: int| 0 <= i < j < m.len() ==> #[trigger] m[i][j] == 0
}

/// A square dense matrix with zeros strictly above the diagonal.
pub open spec fn spec_is_ltm(m: Seq<Seq<i32>>) -> bool {
    spec_square(m) && spec_lower_ok(m)
}

/// A packed lower-triangular matrix.
#[derive(Debug, PartialEq)]
pub struct Ltm {
    /// The common row and column count of the square matrix.
    pub size: usize,
    /// Exactly size*(size+1)/2 values: rows packed in order, row r holding
    /// its columns 0 ..= r.
    pub data: Vec<i32>,
}

impl Ltm {
    /// Representation invariant: nonzero size and a fully packed store.
    pub open spec fn wf(&self) -> bool {
        &&& self.size >= 1
        &&& self.data@.len() == lower_count(self.size as int)
    }

    /// The matrix cell at (i, j): zero above the diagonal, otherwise the
    /// packed value at flattened index i*(i+1)/2 + j.
    pub open spec fn cell(&self, i: int, j: int) -> i32 {
        if j > i {
            0
        } else {
            self.data@[i * (i + 1) / 2 + j]
        }
    }

    /// Whether a dense matrix is square with zeros strictly above the diagonal.
    pub fn is_ltm(matrix: &Vec<Vec<i32>>) -> (r: bool)
        requires
            dense_wf(mat_view(*matrix)),
        ensures
            r == spec_is_ltm(mat_view(*matrix)),
    {
        let ghost mv = mat_view(*matrix);
        let n = matrix.len();
        if n != matrix[0].len() {
            proof {
                assert(mv[0] == matrix@[0]@);
            }
            return false;
        }
        let mut i: usize = 0;
        while i < n
            invariant
                i <= n,
                forall|x: int, y: int| 0 <= x < i && x < y < n ==> #[trigger] mv[x][y] == 0,
            decreases n - i,
        {
            proof {
                assert(mv[i as int] == matrix@[i as int]@);
            }
            let rowv = &matrix[i];
            let mut j: usize = i + 1;
            while j < n
                invariant
                    i < j <= n || j == i + 1,
                    forall|y: int| i < y < j ==> #[trigger] mv[i as int][y] == 0,
                decreases n - j,
            {
                if rowv[j] != 0 {
                    proof {
                        assert(mv[i as int][j as int] != 0);
                    }
                    return false;
                }
                j = j + 1;
            }
            i = i + 1;
        }
        true
    }

    /// Build the packed form of a dense matrix. Fails with `NotSquare` when
    /// the matrix is not square, and with `NotLowerTriangular` when a cell
    /// strictly above the diagonal is nonzero; otherwise packs each row's
    /// columns 0 ..= row in row-major order.
    pub fn from(matrix: &Vec<Vec<i32>>) -> (r: Result<Self, MatrixError>)
        requires
            dense_wf(mat_view(*matrix)),
        ensures
            ({
                let mv = mat_view(*matrix);
                &&& (r is Ok <==> spec_is_ltm(mv))
                &&& (!spec_square(mv) ==> r == Result::<Ltm, MatrixError>::Err(
                    MatrixError::NotSquare,
                ))
                &&& (spec_square(mv) && !spec_is_ltm(mv) ==> r == Result::<Ltm, MatrixError>::Err(
                    MatrixError::NotLowerTriangular,
                ))
                &&& (r is Ok ==> ({
                    let t = r->Ok_0;
                    &&& t.wf()
                    &&& t.size as int == mv.len()
                    &&& forall|i: int, j: int|
                        0 <= i < mv.len() && 0 <= j < mv.len() ==> #[trigger] t.cell(i, j)
                            == mv[i][j]
                }))
            }),
    {
        let ghost mv = mat_view(*matrix);
        let n = matrix.len();
        if n != matrix[0].len() {
            proof {
                assert(mv[0] == matrix@[0]@);
            }
            return Err(MatrixError::NotSquare);
        }
        if !Self::is_ltm(matrix) {
            return Err(MatrixError::NotLowerTriangular);
        }
        let mut data: Vec<i32> = Vec::new();
        let mut i: usize = 0;
        while i < n
            invariant
                i <= n,
                data@.len() == lower_count(i as int),
                forall|x: int, y: int|
                    0 <= x < i && 0 <= y <= x ==> #[trigger] data@[lower_count(x) + y] == mv[x][y],
            decreases n - i,
        {
            proof {
                assert(mv[i as int] == matrix@[i as int]@);
            }
            let rowv = &matrix[i];
            let mut j: usize = 0;
            while j <= i
                invariant
                    j <= i + 1,
                    data@.len() == lower_count(i as int) + j,
                    forall|x: int, y: int|
                        0 <= x < i && 0 <= y <= x ==> #[trigger] data@[lower_count(x) + y]
                            == mv[x][y],
                    forall|y: int|
                        0 <= y < j ==> #[trigger] data@[lower_count(i as int) + y] == mv[i as int][y],
                decreases i + 1 - j,
            {
                let ghost d0 = data@;
                data.push(rowv[j]);
                proof {
                    assert forall|x: int, y: int|
                        0 <= x < i && 0 <= y <= x implies #[trigger] data@[lower_count(x) + y]
                        == mv[x][y] by {
                        lemma_lower_count_mono(0, x);
                        lemma_lower_count_mono(x + 1, i as int);
                        assert(lower_count(x + 1) == lower_count(x) + x + 1);
                        assert(lower_count(x) + y < lower_count(i as int));
                        assert(data@[lower_count(x) + y] == d0[lower_count(x) + y]);
                    }
                }
                j = j + 1;
            }
            i = i + 1;
        }
        let t = Ltm { size: n, data };
        proof {
            assert forall|x: int, y: int|
                0 <= x < mv.len() && 0 <= y < mv.len() implies #[trigger] t.cell(x, y)
                == mv[x][y] by {
                if y > x {
                    assert(mv[x][y] == 0);
                } else {
                    lemma_lower_count_formula(x);
                    lemma_lower_count_mono(0, x);
                    lemma_lower_count_mono(x + 1, mv.len() as int);
                    assert(lower_count(x + 1) == lower_count(x) + x + 1);
                    assert(t.cell(x, y) == t.data@[lower_count(x) + y]);
                }
            }
        }
        Ok(t)
    }

    /// Reconstruct the dense matrix: zero above the diagonal, the packed
    /// value at flattened index i*(i+1)/2 + j at and below it.
    pub fn to_vec(&self) -> (r: Vec<Vec<i32>>)
        requires
            self.wf(),
        ensures
            mat_view(r).len() == self.size as int,
            forall|i: int|
                0 <= i < self.size ==> (#[trigger] mat_view(r)[i]).len() == self.size as int,
            forall|i: int, j: int|
                0 <= i < self.size && 0 <= j < self.size ==> #[trigger] mat_view(r)[i][j]
                    == self.cell(i, j),
            dense_wf(mat_view(r)),
    {
        let n = self.size;
        let total = self.data.len();
        let mut out: Vec<Vec<i32>> = Vec::new();
        let mut off: usize = 0;
        let mut i: usize = 0;
        while i < n
            invariant
                i <= n,
                off as int == lower_count(i as int),
                out@.len() == i as int,
                forall|x: int| 0 <= x < i ==> (#[trigger] out@[x])@.len() == n as int,
                forall|x: int, y: int|
                    0 <= x < i && 0 <= y < n ==> #[trigger] out@[x]@[y] == self.cell(x, y),
            decreases n - i,
        {
            proof {
                lemma_lower_count_mono(i as int + 1, n as int);
                assert(lower_count(i as int + 1) == lower_count(i as int) + i + 1);
                lemma_lower_count_formula(i as int);
                assert(off as int + i as int + 1 <= total as int);
            }
            let mut row: Vec<i32> = Vec::new();
            let mut j: usize = 0;
            while j < n
                invariant
                    j <= n,
                    row@.len() == j as int,
                    forall|y: int| 0 <= y < j ==> #[trigger] row@[y] == self.cell(i as int, y),
                decreases n - j,
            {
                if j > i {
                    row.push(0);
                } else {
                    let v = self.data[off + j];
                    proof {
                        assert(off + j == i as int * (i as int + 1) / 2 + j);
                    }
                    row.push(v);
                }
                j = j + 1;
            }
            out.push(row);
            off = off + i + 1;
            i = i + 1;
        }
        proof {
            assert forall|x: int, y: int|
                0 <= x < self.size && 0 <= y < self.size implies #[trigger] mat_view(out)[x][y]
                == self.cell(x, y) by {
                assert(mat_view(out)[x] == out@[x]@);
            }
            assert forall|x: int|
                0 <= x < self.size implies (#[trigger] mat_view(out)[x]).len()
                == self.size as int by {
                assert(mat_view(out)[x] == out@[x]@);
            }
        }
        out
    }
}

/// Converting a valid lower-triangular dense matrix to packed form and back
/// to dense form yields the original matrix.
pub proof fn lemma_lower_round_trip(m: Seq<Seq<i32>>, t: Ltm, d: Seq<Seq<i32>>)
    requires
        dense_wf(m),
        spec_is_ltm(m),
        t.wf(),
        t.size as int == m.len(),
        // t is the packed form of m, per `from`'s contract
        forall|i: int, j: int|
            0 <= i < m.len() && 0 <= j < m.len() ==> #[trigger] t.cell(i, j) == m[i][j],
        // d is the dense form of t, per `to_vec`'s contract
        d.len() == t.size as int,
        forall|i: int| 0 <= i < t.size ==> (#[trigger] d[i]).len() == t.size as int,
        forall|i: int, j: int|
            0 <= i < t.size && 0 <= j < t.size ==> #[trigger] d[i][j] == t.cell(i, j),
    ensures
        d == m,
{
    lemma_dense_pointwise_eq(d, m);
}

} // verus!
