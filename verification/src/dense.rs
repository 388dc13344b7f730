//! The dense interchange form: an ordered sequence of rows, each an ordered
//! sequence of signed 32-bit integers, all rows of equal, nonzero length.
use vstd::prelude::*;

verus! {

/// The mathematical view of a dense matrix value.
pub open spec fn mat_view(m: Vec<Vec<i32>>) -> Seq<Seq<i32>> {
    m@.map_values(|r: Vec<i32>| r@)
}

/// A well-formed dense matrix: at least one row, at least one column,
/// and all rows of equal length.
pub open spec fn dense_wf(m: Seq<Seq<i32>>) -> bool {
    &&& m.len() >= 1
    &&& m[0].len() >= 1
    &&& forall|i: int| 0 <= i < m.len() ==> (#[trigger] m[i]).len() == m[0].len()
}

/// A square dense matrix: as many columns as rows.
pub open spec fn spec_square(m: Seq<Seq<i32>>) -> bool {
    m.len() == m[0].len()
}

/// The number of nonzero values among the first `n` cells of a row.
pub open spec fn row_nonzeros(r: Seq<i32>, n: int) -> int
    decreases n,
{
    if n <= 0 {
        0
    } else {
        row_nonzeros(r, n - 1) + if r[n - 1] == 0 { 0int } else { 1int }
    }
}

/// The number of nonzero cells in the first `i` rows of a dense matrix.
pub open spec fn mat_nonzeros(m: Seq<Seq<i32>>, i: int) -> int
    decreases i,
{
    if i <= 0 {
        0
    } else {
        mat_nonzeros(m, i - 1) + row_nonzeros(m[i - 1], m[i - 1].len() as int)
    }
}

/// Two dense matrices of the same shape that agree on every cell are equal.
pub proof fn lemma_dense_pointwise_eq(a: Seq<Seq<i32>>, b: Seq<Seq<i32>>)
    requires
        a.len() == b.len(),
        forall|i: int| 0 <= i < a.len() ==> (#[trigger] a[i]).len() == b[i].len(),
        forall|i: int, j: int|
            0 <= i < a.len() && 0 <= j < a[i].len() ==> #[trigger] a[i][j] == b[i][j],
    ensures
        a == b,
{
    assert(a =~~= b);
}

} // verus!
