//! General sparse matrices: coordinate-list encoding of a matrix of
//! arbitrary shape, with construction from dense form, transpose,
//! multiplication, and conversion back to dense form.
use vstd::prelude::*;

use crate::MatrixError;
use crate::dense::{dense_wf, lemma_dense_pointwise_eq, mat_nonzeros, mat_view, row_nonzeros};
use crate::entries::{
    Entry, all_nonzero, entry_at, has_coord, in_range, lemma_all_nonzero_from_cells,
    lemma_entries_canonical, lemma_entry_at_absent, lemma_entry_at_found, lemma_entry_at_push,
    lemma_has_coord_iff, lt_coord, sorted_strict, upsert,
};

verus! {

/// A sparse matrix: shape, number of stored entries, and the stored
/// (row, column, value) triples in strictly increasing (row, column) order.
#[derive(Debug, PartialEq)]
pub struct SparseMatrix {
    /// (row count, column count), both at least 1.
    pub size: (usize, usize),
    /// Number of stored entries; equals the length of the entry list.
    pub non_zero: usize,
    /// The stored (row, column, value) triples, in raster order.
    pub data: Vec<Entry>,
}

impl SparseMatrix {
    /// The stored entries, in order.
    pub open spec fn entries_seq(&self) -> Seq<Entry> {
        self.data@
    }

    pub open spec fn rows(&self) -> int {
        self.size.0 as int
    }

    pub open spec fn cols(&self) -> int {
        self.size.1 as int
    }

    /// The matrix cell at (i, j): the stored value, or 0 when none is stored.
    pub open spec fn cell(&self, i: int, j: int) -> i32 {
        entry_at(self.entries_seq(), i, j)
    }

    /// Representation invariant: nonzero shape, `non_zero` counts the stored
    /// entries, and the entries are strictly sorted, in range, and nonzero.
    pub open spec fn wf(&self) -> bool {
        &&& self.size.0 >= 1
        &&& self.size.1 >= 1
        &&& self.non_zero == self.entries_seq().len()
        &&& sorted_strict(self.entries_seq())
        &&& in_range(self.entries_seq(), self.rows(), self.cols())
        &&& all_nonzero(self.entries_seq())
    }

    /// Build the coordinate-list encoding of a dense matrix: shape is the
    /// dense shape, the entries are exactly the nonzero cells in raster
    /// order, and `non_zero` counts the nonzero cells.
    pub fn from(matrix: &Vec<Vec<i32>>) -> (r: Self)
        requires
            dense_wf(mat_view(*matrix)),
        ensures
            r.wf(),
            r.size.0 == matrix@.len(),
            r.size.1 == matrix@[0]@.len(),
            forall|i: int, j: int|
                0 <= i < r.rows() && 0 <= j < r.cols() ==> r.cell(i, j) == mat_view(*matrix)[i][j],
            r.non_zero as int == mat_nonzeros(mat_view(*matrix), matrix@.len() as int),
    {
        let ghost mv = mat_view(*matrix);
        let rows = matrix.len();
        let cols = matrix[0].len();
        let mut data: Vec<Entry> = Vec::new();
        let mut i: usize = 0;
        while i < rows
            invariant
                i <= rows,
                data@.len() as int == mat_nonzeros(mv, i as int),
                sorted_strict(data@),
                in_range(data@, rows as int, cols as int),
                all_nonzero(data@),
                forall|k: int| 0 <= k < data@.len() ==> (#[trigger] data@[k]).0 < i,
                forall|x: int, y: int|
                    0 <= x < i && 0 <= y < cols ==> #[trigger] entry_at(data@, x, y) == mv[x][y],
            decreases rows - i,
        {
            proof {
                assert(mv[i as int] == matrix@[i as int]@);
            }
            let rowv = &matrix[i];
            let mut j: usize = 0;
            while j < cols
                invariant
                    j <= cols,
                    data@.len() as int == mat_nonzeros(mv, i as int) + row_nonzeros(
                        mv[i as int],
                        j as int,
                    ),
                    sorted_strict(data@),
                    in_range(data@, rows as int, cols as int),
                    all_nonzero(data@),
                    forall|k: int|
                        0 <= k < data@.len() ==> lt_coord(
                            (#[trigger] data@[k]).0 as int,
                            data@[k].1 as int,
                            i as int,
                            j as int,
                        ),
                    forall|x: int, y: int|
                        0 <= x < i && 0 <= y < cols ==> #[trigger] entry_at(data@, x, y)
                            == mv[x][y],
                    forall|y: int|
                        0 <= y < j ==> #[trigger] entry_at(data@, i as int, y) == mv[i as int][y],
                decreases cols - j,
            {
                let v = rowv[j];
                let ghost d0 = data@;
                proof {
                    assert(v == mv[i as int][j as int]);
                    assert(!has_coord(d0, i as int, j as int)) by {
                        lemma_has_coord_iff(d0, i as int, j as int);
                    }
                }
                if v != 0 {
                    data.push((i, j, v));
                    proof {
                        assert forall|x: int, y: int|
                            0 <= x < i && 0 <= y < cols implies #[trigger] entry_at(data@, x, y)
                            == mv[x][y] by {
                            lemma_entry_at_push(d0, (i, j, v), x, y);
                        }
                        assert forall|y: int|
                            0 <= y < j + 1 implies #[trigger] entry_at(data@, i as int, y)
                            == mv[i as int][y] by {
                            lemma_entry_at_push(d0, (i, j, v), i as int, y);
                        }
                    }
                } else {
                    proof {
                        lemma_entry_at_absent(d0, i as int, j as int);
                    }
                }
                j = j + 1;
            }
            proof {
                assert(mv[i as int].len() == cols as int);
                assert(mat_nonzeros(mv, i as int + 1) == mat_nonzeros(mv, i as int) + row_nonzeros(
                    mv[i as int],
                    cols as int,
                ));
            }
            i = i + 1;
        }
        let non_zero = data.len();
        SparseMatrix { size: (rows, cols), non_zero, data }
    }

    /// Reconstruct the dense matrix of the stored shape: stored entries land
    /// at their coordinates, every other cell is 0.
    pub fn to_vec(&self) -> (r: Vec<Vec<i32>>)
        requires
            self.wf(),
        ensures
            mat_view(r).len() == self.rows(),
            forall|i: int|
                0 <= i < self.rows() ==> (#[trigger] mat_view(r)[i]).len() == self.cols(),
            forall|i: int, j: int|
                0 <= i < self.rows() && 0 <= j < self.cols() ==> #[trigger] mat_view(r)[i][j]
                    == self.cell(i, j),
            dense_wf(mat_view(r)),
    {
        let ghost e = self.entries_seq();
        let rows = self.size.0;
        let cols = self.size.1;
        let n = self.data.len();
        let mut out: Vec<Vec<i32>> = Vec::new();
        let mut k: usize = 0;
        let mut i: usize = 0;
        while i < rows
            invariant
                i <= rows,
                k <= n,
                out@.len() == i as int,
                forall|x: int| 0 <= x < i ==> (#[trigger] out@[x])@.len() == cols,
                forall|x: int, y: int|
                    0 <= x < i && 0 <= y < cols ==> #[trigger] out@[x]@[y] == self.cell(x, y),
                forall|q: int|
                    0 <= q < k ==> lt_coord(
                        (#[trigger] e[q]).0 as int,
                        e[q].1 as int,
                        i as int,
                        0,
                    ),
                forall|q: int|
                    k <= q < n ==> !lt_coord(
                        (#[trigger] e[q]).0 as int,
                        e[q].1 as int,
                        i as int,
                        0,
                    ),
            decreases rows - i,
        {
            let mut row: Vec<i32> = Vec::new();
            let mut j: usize = 0;
            while j < cols
                invariant
                    j <= cols,
                    k <= n,
                    row@.len() == j as int,
                    forall|y: int| 0 <= y < j ==> #[trigger] row@[y] == self.cell(i as int, y),
                    forall|q: int|
                        0 <= q < k ==> lt_coord(
                            (#[trigger] e[q]).0 as int,
                            e[q].1 as int,
                            i as int,
                            j as int,
                        ),
                    forall|q: int|
                        k <= q < n ==> !lt_coord(
                            (#[trigger] e[q]).0 as int,
                            e[q].1 as int,
                            i as int,
                            j as int,
                        ),
                decreases cols - j,
            {
                if k < n && self.data[k].0 == i && self.data[k].1 == j {
                    row.push(self.data[k].2);
                    proof {
                        lemma_entry_at_found(e, k as int, i as int, j as int);
                        assert forall|q: int| k + 1 <= q < n implies !lt_coord(
                            (#[trigger] e[q]).0 as int,
                            e[q].1 as int,
                            i as int,
                            j as int + 1,
                        ) by {
                            if q > k as int {
                                assert(lt_coord(
                                    e[k as int].0 as int,
                                    e[k as int].1 as int,
                                    e[q].0 as int,
                                    e[q].1 as int,
                                ));
                            }
                        }
                    }
                    k = k + 1;
                } else {
                    row.push(0);
                    proof {
                        assert(!has_coord(e, i as int, j as int)) by {
                            lemma_has_coord_iff(e, i as int, j as int);
                            if exists|q: int|
                                0 <= q < e.len() && (#[trigger] e[q]).0 as int == i as int
                                    && e[q].1 as int == j as int {
                                let q = choose|q: int|
                                    0 <= q < e.len() && (#[trigger] e[q]).0 as int == i as int
                                        && e[q].1 as int == j as int;
                                assert(q >= k as int);
                                if q > k as int {
                                    assert(lt_coord(
                                        e[k as int].0 as int,
                                        e[k as int].1 as int,
                                        e[q].0 as int,
                                        e[q].1 as int,
                                    ));
                                }
                            }
                        }
                        lemma_entry_at_absent(e, i as int, j as int);
                    }
                }
                j = j + 1;
            }
            out.push(row);
            i = i + 1;
        }
        proof {
            assert forall|x: int, y: int|
                0 <= x < self.rows() && 0 <= y < self.cols() implies #[trigger] mat_view(
                out,
            )[x][y] == self.cell(x, y) by {
                assert(mat_view(out)[x] == out@[x]@);
            }
            assert forall|x: int|
                0 <= x < self.rows() implies (#[trigger] mat_view(out)[x]).len()
                == self.cols() by {
                assert(mat_view(out)[x] == out@[x]@);
            }
        }
        out
    }
}

/// The dot product of row `i` of the matrix represented by `ea` and column
/// `j` of the one represented by `eb`, over inner indices 0 .. m, as an
/// unbounded integer.
pub open spec fn dot_prefix(ea: Seq<Entry>, eb: Seq<Entry>, i: int, j: int, m: int) -> int
    decreases m,
{
    if m <= 0 {
        0
    } else {
        dot_prefix(ea, eb, i, j, m - 1) + (entry_at(ea, i, m - 1) as int) * (entry_at(
            eb,
            m - 1,
            j,
        ) as int)
    }
}

/// The mathematical product cell at (i, j) of two sparse matrices whose
/// inner dimensions agree.
pub open spec fn prod_cell(a: SparseMatrix, b: SparseMatrix, i: int, j: int) -> int {
    dot_prefix(a.entries_seq(), b.entries_seq(), i, j, a.cols())
}

/// The operands are small enough that every product of paired values and
/// every partial dot-product sum fits in the 32-bit accumulation width.
pub open spec fn mul_fits(a: SparseMatrix, b: SparseMatrix) -> bool {
    &&& forall|i: int, k: int, j: int|
        #![trigger a.cell(i, k), b.cell(k, j)]
        0 <= i < a.rows() && 0 <= k < a.cols() && 0 <= j < b.cols() ==> i32::MIN <= (a.cell(i, k)
            as int) * (b.cell(k, j) as int) <= i32::MAX
    &&& forall|i: int, j: int, m: int|
        0 <= i < a.rows() && 0 <= j < b.cols() && 0 <= m <= a.cols() ==> i32::MIN
            <= #[trigger] dot_prefix(a.entries_seq(), b.entries_seq(), i, j, m) <= i32::MAX
}

/// The column of the first entry of row `i` at index `p` or later, or
/// `cols` when row `i` has no further entries.
pub open spec fn next_col(ea: Seq<Entry>, p: int, i: int, cols: int) -> int
    decreases ea.len() - p,
{
    if p < 0 || p >= ea.len() {
        cols
    } else if ea[p].0 as int == i {
        ea[p].1 as int
    } else {
        next_col(ea, p + 1, i, cols)
    }
}

/// `next_col` never exceeds the column of any later entry of row `i`.
proof fn lemma_next_col_le(ea: Seq<Entry>, p: int, i: int, cols: int, q: int)
    requires
        sorted_strict(ea),
        0 <= p <= q < ea.len(),
        ea[q].0 as int == i,
    ensures
        next_col(ea, p, i, cols) <= ea[q].1 as int,
    decreases q - p,
{
    if ea[p].0 as int == i {
        if p < q {
            assert(lt_coord(ea[p].0 as int, ea[p].1 as int, ea[q].0 as int, ea[q].1 as int));
        }
    } else {
        lemma_next_col_le(ea, p + 1, i, cols, q);
    }
}

/// `next_col` is `cols` or the column of some later entry of row `i`.
proof fn lemma_next_col_is(ea: Seq<Entry>, p: int, i: int, cols: int)
    requires
        0 <= p,
    ensures
        next_col(ea, p, i, cols) == cols || exists|q: int|
            p <= q < ea.len() && (#[trigger] ea[q]).0 as int == i && ea[q].1 as int == next_col(
                ea,
                p,
                i,
                cols,
            ),
    decreases ea.len() - p,
{
    if p < ea.len() && ea[p].0 as int != i {
        lemma_next_col_is(ea, p + 1, i, cols);
    }
}

/// Row `i` reads as zero at every column strictly before its first entry.
proof fn lemma_row_zero_before(ea: Seq<Entry>, i: int, cols: int, c: int)
    requires
        sorted_strict(ea),
        0 <= c < next_col(ea, 0, i, cols),
    ensures
        entry_at(ea, i, c) == 0i32,
{
    lemma_has_coord_iff(ea, i, c);
    if exists|q: int| 0 <= q < ea.len() && (#[trigger] ea[q]).0 as int == i && ea[q].1 as int
        == c {
        let q = choose|q: int|
            0 <= q < ea.len() && (#[trigger] ea[q]).0 as int == i && ea[q].1 as int == c;
        lemma_next_col_le(ea, 0, i, cols, q);
    }
    lemma_entry_at_absent(ea, i, c);
}

/// Between the column of the entry at index `ai` and the column of the next
/// entry of the same row, that row reads as zero.
proof fn lemma_row_zero_between(ea: Seq<Entry>, ai: int, cols: int, c: int)
    requires
        sorted_strict(ea),
        0 <= ai < ea.len(),
        (ea[ai].1 as int) < c,
        next_col(ea, ai + 1, ea[ai].0 as int, cols) > c,
    ensures
        entry_at(ea, ea[ai].0 as int, c) == 0i32,
{
    let i = ea[ai].0 as int;
    lemma_has_coord_iff(ea, i, c);
    if exists|q: int| 0 <= q < ea.len() && (#[trigger] ea[q]).0 as int == i && ea[q].1 as int
        == c {
        let q = choose|q: int|
            0 <= q < ea.len() && (#[trigger] ea[q]).0 as int == i && ea[q].1 as int == c;
        if q <= ai {
            if q < ai {
                assert(lt_coord(ea[q].0 as int, ea[q].1 as int, ea[ai].0 as int, ea[ai].1 as int));
            }
            assert(false);
        } else {
            lemma_next_col_le(ea, ai + 1, i, cols, q);
            assert(false);
        }
    }
    lemma_entry_at_absent(ea, i, c);
}

/// A dot-product prefix does not change over a range of zero cells of the row.
proof fn lemma_dot_prefix_constant(
    ea: Seq<Entry>,
    eb: Seq<Entry>,
    i: int,
    j: int,
    m1: int,
    m2: int,
)
    requires
        0 <= m1 <= m2,
        forall|c: int| m1 <= c < m2 ==> #[trigger] entry_at(ea, i, c) == 0i32,
    ensures
        dot_prefix(ea, eb, i, j, m2) == dot_prefix(ea, eb, i, j, m1),
    decreases m2 - m1,
{
    if m2 > m1 {
        lemma_dot_prefix_constant(ea, eb, i, j, m1, m2 - 1);
        assert(entry_at(ea, i, m2 - 1) == 0i32);
    }
}

impl SparseMatrix {
    /// The transpose: shape swapped, every stored entry's row and column
    /// indices swapped, entries re-sorted into raster order; the number of
    /// stored entries is unchanged.
    pub fn transpose(&self) -> (r: Self)
        requires
            self.wf(),
        ensures
            r.wf(),
            r.size.0 == self.size.1,
            r.size.1 == self.size.0,
            r.non_zero == self.non_zero,
            forall|i: int, j: int|
                0 <= i < r.rows() && 0 <= j < r.cols() ==> #[trigger] r.cell(i, j) == self.cell(
                    j,
                    i,
                ),
    {
        let ghost e = self.entries_seq();
        let n = self.data.len();
        let mut acc: Vec<Entry> = Vec::new();
        let mut k: usize = 0;
        while k < n
            invariant
                k <= n,
                acc@.len() == k as int,
                sorted_strict(acc@),
                in_range(acc@, self.cols(), self.rows()),
                forall|x: int, y: int|
                    #[trigger] entry_at(acc@, x, y) == entry_at(e.take(k as int), y, x),
                forall|x: int, y: int|
                    #[trigger] has_coord(acc@, x, y) <==> has_coord(e.take(k as int), y, x),
                forall|x: int, y: int|
                    #[trigger] has_coord(acc@, x, y) ==> entry_at(acc@, x, y) != 0i32,
            decreases n - k,
        {
            let t = self.data[k];
            let ghost a0 = acc@;
            proof {
                assert(e[k as int] == t);
                assert(!has_coord(e.take(k as int), t.0 as int, t.1 as int)) by {
                    lemma_has_coord_iff(e.take(k as int), t.0 as int, t.1 as int);
                    if exists|q: int|
                        0 <= q < e.take(k as int).len() && (#[trigger] e.take(k as int)[q]).0 as int
                            == t.0 as int && e.take(k as int)[q].1 as int == t.1 as int {
                        let q = choose|q: int|
                            0 <= q < e.take(k as int).len() && (#[trigger] e.take(
                                k as int,
                            )[q]).0 as int == t.0 as int && e.take(k as int)[q].1 as int
                                == t.1 as int;
                        assert(e.take(k as int)[q] == e[q]);
                        assert(lt_coord(
                            e[q].0 as int,
                            e[q].1 as int,
                            e[k as int].0 as int,
                            e[k as int].1 as int,
                        ));
                    }
                }
                lemma_entry_at_absent(e.take(k as int), t.0 as int, t.1 as int);
                assert(entry_at(a0, t.1 as int, t.0 as int) == 0i32);
            }
            upsert(&mut acc, t.1, t.0, t.2, Ghost((self.cols(), self.rows())));
            proof {
                assert(e.take(k as int + 1) =~= e.take(k as int).push(e[k as int]));
                assert forall|x: int, y: int| #[trigger]
                    entry_at(acc@, x, y) == entry_at(e.take(k as int + 1), y, x) by {
                    lemma_entry_at_push(e.take(k as int), e[k as int], y, x);
                }
                assert forall|x: int, y: int| #[trigger]
                    has_coord(acc@, x, y) <==> has_coord(e.take(k as int + 1), y, x) by {
                    lemma_entry_at_push(e.take(k as int), e[k as int], y, x);
                }
                assert forall|x: int, y: int| #[trigger]
                    has_coord(acc@, x, y) implies entry_at(acc@, x, y) != 0i32 by {
                    if x == t.1 as int && y == t.0 as int {
                        assert(entry_at(acc@, x, y) == t.2);
                        assert(t.2 != 0);
                    } else {
                        assert(entry_at(acc@, x, y) == entry_at(a0, x, y));
                        assert(has_coord(a0, x, y));
                    }
                }
            }
            k = k + 1;
        }
        proof {
            assert(e.take(n as int) =~= e);
            assert forall|q: int| 0 <= q < acc@.len() implies (#[trigger] acc@[q]).2 != 0i32 by {
                lemma_entry_at_found(acc@, q, acc@[q].0 as int, acc@[q].1 as int);
            }
        }
        let non_zero = acc.len();
        SparseMatrix { size: (self.size.1, self.size.0), non_zero, data: acc }
    }

    /// The sparse product. Fails with `DimensionMismatch`, carrying both
    /// shapes, exactly when the operands' inner dimensions differ; otherwise
    /// every cell of the result is the dot product of the matching row of
    /// `a` and column of `b`.
    pub fn mul(a: &Self, b: &Self) -> (r: Result<Self, MatrixError>)
        requires
            a.wf(),
            b.wf(),
            a.size.1 == b.size.0 ==> mul_fits(*a, *b),
        ensures
            r is Ok <==> a.size.1 == b.size.0,
            a.size.1 != b.size.0 ==> r == Result::<SparseMatrix, MatrixError>::Err(
                MatrixError::DimensionMismatch(a.size, b.size),
            ),
            r is Ok ==> ({
                let c = r->Ok_0;
                &&& c.wf()
                &&& c.size.0 == a.size.0
                &&& c.size.1 == b.size.1
                &&& forall|i: int, j: int|
                    0 <= i < c.rows() && 0 <= j < c.cols() ==> #[trigger] c.cell(i, j) as int
                        == prod_cell(*a, *b, i, j)
            }),
    {
        if a.size.1 != b.size.0 {
            return Err(MatrixError::DimensionMismatch(a.size, b.size));
        }
        let ghost ea = a.entries_seq();
        let ghost eb = b.entries_seq();
        let ghost cols = a.cols();
        let an = a.data.len();
        let bn = b.data.len();
        let mut acc: Vec<Entry> = Vec::new();
        proof {
            assert forall|x: int, y: int|
                0 <= x < a.rows() && 0 <= y < b.cols() implies #[trigger] entry_at(
                acc@,
                x,
                y,
            ) as int == dot_prefix(ea, eb, x, y, next_col(ea, 0, x, cols)) by {
                assert(entry_at(acc@, x, y) == 0i32);
                let m0 = next_col(ea, 0, x, cols);
                lemma_next_col_is(ea, 0, x, cols);
                assert(0 <= m0);
                assert forall|c: int| 0 <= c < m0 implies #[trigger] entry_at(ea, x, c)
                    == 0i32 by {
                    lemma_row_zero_before(ea, x, cols, c);
                }
                lemma_dot_prefix_constant(ea, eb, x, y, 0, m0);
            }
        }
        let mut ai: usize = 0;
        while ai < an
            invariant
                ai <= an,
                sorted_strict(acc@),
                in_range(acc@, a.rows(), b.cols()),
                forall|x: int, y: int|
                    0 <= x < a.rows() && 0 <= y < b.cols() ==> #[trigger] entry_at(
                        acc@,
                        x,
                        y,
                    ) as int == dot_prefix(ea, eb, x, y, next_col(ea, ai as int, x, cols)),
            decreases an - ai,
        {
            let t = a.data[ai];
            let ghost i0 = t.0 as int;
            let ghost ac = t.1 as int;
            proof {
                assert(ea[ai as int] == t);
                assert(next_col(ea, ai as int, i0, cols) == ac);
                assert(eb.take(0) =~= Seq::<Entry>::empty());
                lemma_entry_at_found(ea, ai as int, i0, ac);
                assert forall|y: int| 0 <= y < b.cols() implies #[trigger] entry_at(
                    acc@,
                    i0,
                    y,
                ) as int == dot_prefix(ea, eb, i0, y, ac) + (t.2 as int) * (entry_at(
                    eb.take(0),
                    ac,
                    y,
                ) as int) by {
                    assert(entry_at(eb.take(0), ac, y) == 0i32);
                    assert(0 <= i0 < a.rows());
                    assert(entry_at(acc@, i0, y) as int == dot_prefix(
                        ea,
                        eb,
                        i0,
                        y,
                        next_col(ea, ai as int, i0, cols),
                    ));
                }
            }
            let mut bi: usize = 0;
            while bi < bn
                invariant
                    bi <= bn,
                    sorted_strict(acc@),
                    in_range(acc@, a.rows(), b.cols()),
                    forall|y: int|
                        0 <= y < b.cols() ==> #[trigger] entry_at(acc@, i0, y) as int == dot_prefix(
                            ea,
                            eb,
                            i0,
                            y,
                            ac,
                        ) + (t.2 as int) * (entry_at(eb.take(bi as int), ac, y) as int),
                    forall|x: int, y: int|
                        0 <= x < a.rows() && 0 <= y < b.cols() && x != i0 ==> #[trigger] entry_at(
                            acc@,
                            x,
                            y,
                        ) as int == dot_prefix(ea, eb, x, y, next_col(ea, ai as int, x, cols)),
                decreases bn - bi,
            {
                let u = b.data[bi];
                let ghost a0 = acc@;
                if u.0 == t.1 {
                    proof {
                        assert(eb[bi as int] == u);
                        lemma_entry_at_found(eb, bi as int, ac, u.1 as int);
                        // the pending partial term at (i0, u.1) is still zero
                        assert(!has_coord(eb.take(bi as int), ac, u.1 as int)) by {
                            lemma_has_coord_iff(eb.take(bi as int), ac, u.1 as int);
                            if exists|q: int|
                                0 <= q < eb.take(bi as int).len() && (#[trigger] eb.take(
                                    bi as int,
                                )[q]).0 as int == ac && eb.take(bi as int)[q].1 as int
                                    == u.1 as int {
                                let q = choose|q: int|
                                    0 <= q < eb.take(bi as int).len() && (#[trigger] eb.take(
                                        bi as int,
                                    )[q]).0 as int == ac && eb.take(bi as int)[q].1 as int
                                        == u.1 as int;
                                assert(eb.take(bi as int)[q] == eb[q]);
                                assert(lt_coord(
                                    eb[q].0 as int,
                                    eb[q].1 as int,
                                    eb[bi as int].0 as int,
                                    eb[bi as int].1 as int,
                                ));
                            }
                        }
                        lemma_entry_at_absent(eb.take(bi as int), ac, u.1 as int);
                        assert(entry_at(a0, i0, u.1 as int) as int == dot_prefix(
                            ea,
                            eb,
                            i0,
                            u.1 as int,
                            ac,
                        ));
                        // the product and the grown prefix both fit in i32
                        assert(a.cell(i0, ac) == t.2 && b.cell(ac, u.1 as int) == u.2);
                        assert(i32::MIN <= (t.2 as int) * (u.2 as int) <= i32::MAX);
                        assert(dot_prefix(ea, eb, i0, u.1 as int, ac + 1) == dot_prefix(
                            ea,
                            eb,
                            i0,
                            u.1 as int,
                            ac,
                        ) + (t.2 as int) * (u.2 as int));
                        assert(i32::MIN <= dot_prefix(ea, eb, i0, u.1 as int, ac + 1)
                            <= i32::MAX);
                    }
                    let prod = t.2 * u.2;
                    upsert(&mut acc, t.0, u.1, prod, Ghost((a.rows(), b.cols())));
                    proof {
                        assert(eb.take(bi as int + 1) =~= eb.take(bi as int).push(eb[bi as int]));
                        assert forall|y: int| 0 <= y < b.cols() implies #[trigger] entry_at(
                            acc@,
                            i0,
                            y,
                        ) as int == dot_prefix(ea, eb, i0, y, ac) + (t.2 as int) * (entry_at(
                            eb.take(bi as int + 1),
                            ac,
                            y,
                        ) as int) by {
                            lemma_entry_at_push(eb.take(bi as int), eb[bi as int], ac, y);
                        }
                    }
                } else {
                    proof {
                        assert(eb.take(bi as int + 1) =~= eb.take(bi as int).push(eb[bi as int]));
                        assert forall|y: int| 0 <= y < b.cols() implies entry_at(
                            eb.take(bi as int + 1),
                            ac,
                            y,
                        ) == entry_at(eb.take(bi as int), ac, y) by {
                            lemma_entry_at_push(eb.take(bi as int), eb[bi as int], ac, y);
                        }
                    }
                }
                bi = bi + 1;
            }
            proof {
                assert(eb.take(bn as int) =~= eb);
                let m2 = next_col(ea, ai as int + 1, i0, cols);
                assert(ac < m2 <= cols) by {
                    lemma_next_col_is(ea, ai as int + 1, i0, cols);
                    if m2 != cols {
                        let q = choose|q: int|
                            ai as int + 1 <= q < ea.len() && (#[trigger] ea[q]).0 as int == i0
                                && ea[q].1 as int == m2;
                        assert(lt_coord(
                            ea[ai as int].0 as int,
                            ea[ai as int].1 as int,
                            ea[q].0 as int,
                            ea[q].1 as int,
                        ));
                    }
                }
                assert forall|y: int| 0 <= y < b.cols() implies #[trigger] entry_at(
                    acc@,
                    i0,
                    y,
                ) as int == dot_prefix(ea, eb, i0, y, m2) by {
                    assert(dot_prefix(ea, eb, i0, y, ac + 1) == dot_prefix(ea, eb, i0, y, ac) + (
                    entry_at(ea, i0, ac) as int) * (entry_at(eb, ac, y) as int));
                    assert forall|c: int| ac + 1 <= c < m2 implies #[trigger] entry_at(ea, i0, c)
                        == 0i32 by {
                        lemma_row_zero_between(ea, ai as int, cols, c);
                    }
                    lemma_dot_prefix_constant(ea, eb, i0, y, ac + 1, m2);
                }
                assert forall|x: int, y: int|
                    0 <= x < a.rows() && 0 <= y < b.cols() && x != i0 implies #[trigger] entry_at(
                    acc@,
                    x,
                    y,
                ) as int == dot_prefix(ea, eb, x, y, next_col(ea, ai as int + 1, x, cols)) by {
                    assert(next_col(ea, ai as int, x, cols) == next_col(
                        ea,
                        ai as int + 1,
                        x,
                        cols,
                    ));
                }
            }
            ai = ai + 1;
        }
        proof {
            assert forall|x: int, y: int|
                0 <= x < a.rows() && 0 <= y < b.cols() implies #[trigger] entry_at(
                acc@,
                x,
                y,
            ) as int == dot_prefix(ea, eb, x, y, cols) by {
                assert(next_col(ea, an as int, x, cols) == cols);
            }
        }
        // keep only the nonzero accumulated cells
        let mut out: Vec<Entry> = Vec::new();
        let mut q: usize = 0;
        let acc_len = acc.len();
        while q < acc_len
            invariant
                q <= acc_len,
                acc_len == acc@.len(),
                sorted_strict(acc@),
                sorted_strict(out@),
                in_range(out@, a.rows(), b.cols()),
                all_nonzero(out@),
                forall|x: int, y: int|
                    #[trigger] entry_at(out@, x, y) == entry_at(acc@.take(q as int), x, y),
                out@.len() > 0 ==> exists|s: int|
                    0 <= s < q && out@[out@.len() - 1] == #[trigger] acc@[s],
            decreases acc_len - q,
        {
            let w = acc[q];
            let ghost o0 = out@;
            proof {
                assert(acc@[q as int] == w);
                assert(acc@.take(q as int + 1) =~= acc@.take(q as int).push(acc@[q as int]));
                assert(!has_coord(acc@.take(q as int), w.0 as int, w.1 as int)) by {
                    lemma_has_coord_iff(acc@.take(q as int), w.0 as int, w.1 as int);
                    if exists|s: int|
                        0 <= s < acc@.take(q as int).len() && (#[trigger] acc@.take(
                            q as int,
                        )[s]).0 as int == w.0 as int && acc@.take(q as int)[s].1 as int
                            == w.1 as int {
                        let s = choose|s: int|
                            0 <= s < acc@.take(q as int).len() && (#[trigger] acc@.take(
                                q as int,
                            )[s]).0 as int == w.0 as int && acc@.take(q as int)[s].1 as int
                                == w.1 as int;
                        assert(acc@.take(q as int)[s] == acc@[s]);
                        assert(lt_coord(
                            acc@[s].0 as int,
                            acc@[s].1 as int,
                            acc@[q as int].0 as int,
                            acc@[q as int].1 as int,
                        ));
                    }
                }
                lemma_entry_at_absent(acc@.take(q as int), w.0 as int, w.1 as int);
            }
            if w.2 != 0 {
                proof {
                    assert(!has_coord(o0, w.0 as int, w.1 as int)) by {
                        if has_coord(o0, w.0 as int, w.1 as int) {
                            lemma_has_coord_iff(o0, w.0 as int, w.1 as int);
                            let s = choose|s: int|
                                0 <= s < o0.len() && (#[trigger] o0[s]).0 as int == w.0 as int
                                    && o0[s].1 as int == w.1 as int;
                            lemma_entry_at_found(o0, s, w.0 as int, w.1 as int);
                            assert(o0[s].2 != 0);
                        }
                    }
                    assert forall|v: int| 0 <= v < o0.len() implies lt_coord(
                        (#[trigger] o0[v]).0 as int,
                        o0[v].1 as int,
                        w.0 as int,
                        w.1 as int,
                    ) by {
                        let s = choose|s: int|
                            0 <= s < q && o0[o0.len() - 1] == #[trigger] acc@[s];
                        assert(lt_coord(
                            acc@[s].0 as int,
                            acc@[s].1 as int,
                            acc@[q as int].0 as int,
                            acc@[q as int].1 as int,
                        ));
                        if v < o0.len() - 1 {
                            assert(lt_coord(
                                o0[v].0 as int,
                                o0[v].1 as int,
                                o0[o0.len() - 1].0 as int,
                                o0[o0.len() - 1].1 as int,
                            ));
                        }
                    }
                }
                out.push(w);
                proof {
                    assert forall|x: int, y: int| #[trigger]
                        entry_at(out@, x, y) == entry_at(acc@.take(q as int + 1), x, y) by {
                        lemma_entry_at_push(o0, w, x, y);
                        lemma_entry_at_push(acc@.take(q as int), acc@[q as int], x, y);
                    }
                }
            } else {
                proof {
                    assert forall|x: int, y: int| #[trigger]
                        entry_at(out@, x, y) == entry_at(acc@.take(q as int + 1), x, y) by {
                        lemma_entry_at_push(acc@.take(q as int), acc@[q as int], x, y);
                    }
                }
            }
            q = q + 1;
        }
        proof {
            assert(acc@.take(acc_len as int) =~= acc@);
        }
        let non_zero = out.len();
        Ok(SparseMatrix { size: (a.size.0, b.size.1), non_zero, data: out })
    }
}

/// The standard dense dot product of row `i` of `da` and column `j` of `db`
/// over inner indices 0 .. m.
pub open spec fn dense_dot(da: Seq<Seq<i32>>, db: Seq<Seq<i32>>, i: int, j: int, m: int) -> int
    decreases m,
{
    if m <= 0 {
        0
    } else {
        dense_dot(da, db, i, j, m - 1) + (da[i][m - 1] as int) * (db[m - 1][j] as int)
    }
}

proof fn lemma_dot_prefix_matches_dense(
    ea: Seq<Entry>,
    eb: Seq<Entry>,
    da: Seq<Seq<i32>>,
    db: Seq<Seq<i32>>,
    i: int,
    j: int,
    m: int,
)
    requires
        forall|k: int| 0 <= k < m ==> #[trigger] da[i][k] == entry_at(ea, i, k),
        forall|k: int| 0 <= k < m ==> #[trigger] db[k][j] == entry_at(eb, k, j),
    ensures
        dense_dot(da, db, i, j, m) == dot_prefix(ea, eb, i, j, m),
    decreases m,
{
    if m > 0 {
        lemma_dot_prefix_matches_dense(ea, eb, da, db, i, j, m - 1);
    }
}

/// Multiplying two sparse matrices of compatible shapes agrees, cell for
/// cell, with the standard dense matrix product of their dense forms.
pub proof fn lemma_mul_matches_dense(
    a: SparseMatrix,
    b: SparseMatrix,
    c: SparseMatrix,
    da: Seq<Seq<i32>>,
    db: Seq<Seq<i32>>,
    dc: Seq<Seq<i32>>,
)
    requires
        a.wf(),
        b.wf(),
        a.size.1 == b.size.0,
        // c is the product of a and b, per `mul`'s contract
        c.size.0 == a.size.0,
        c.size.1 == b.size.1,
        forall|i: int, j: int|
            0 <= i < c.rows() && 0 <= j < c.cols() ==> #[trigger] c.cell(i, j) as int == prod_cell(
                a,
                b,
                i,
                j,
            ),
        // da, db, dc are the dense forms of a, b, c, per `to_vec`'s contract
        forall|i: int, j: int|
            0 <= i < a.rows() && 0 <= j < a.cols() ==> #[trigger] da[i][j] == a.cell(i, j),
        forall|i: int, j: int|
            0 <= i < b.rows() && 0 <= j < b.cols() ==> #[trigger] db[i][j] == b.cell(i, j),
        forall|i: int, j: int|
            0 <= i < c.rows() && 0 <= j < c.cols() ==> #[trigger] dc[i][j] == c.cell(i, j),
    ensures
        forall|i: int, j: int|
            0 <= i < a.rows() && 0 <= j < b.cols() ==> #[trigger] dc[i][j] as int == dense_dot(
                da,
                db,
                i,
                j,
                a.cols(),
            ),
{
    assert forall|i: int, j: int|
        0 <= i < a.rows() && 0 <= j < b.cols() implies #[trigger] dc[i][j] as int == dense_dot(
        da,
        db,
        i,
        j,
        a.cols(),
    ) by {
        assert forall|k: int| 0 <= k < a.cols() implies #[trigger] da[i][k] == entry_at(
            a.entries_seq(),
            i,
            k,
        ) by {
            assert(da[i][k] == a.cell(i, k));
        }
        assert forall|k: int| 0 <= k < a.cols() implies #[trigger] db[k][j] == entry_at(
            b.entries_seq(),
            k,
            j,
        ) by {
            assert(db[k][j] == b.cell(k, j));
        }
        lemma_dot_prefix_matches_dense(
            a.entries_seq(),
            b.entries_seq(),
            da,
            db,
            i,
            j,
            a.cols(),
        );
        assert(dc[i][j] == c.cell(i, j));
    }
}

/// A well-formed sparse matrix is determined by its shape and its cells:
/// two well-formed matrices of the same shape that agree on every cell have
/// the same stored entries.
pub proof fn lemma_sparse_canonical(a: SparseMatrix, b: SparseMatrix)
    requires
        a.wf(),
        b.wf(),
        a.size == b.size,
        forall|i: int, j: int|
            0 <= i < a.rows() && 0 <= j < a.cols() ==> a.cell(i, j) == #[trigger] b.cell(i, j),
    ensures
        a.entries_seq() == b.entries_seq(),
        a.non_zero == b.non_zero,
{
    assert forall|i: int, j: int| #[trigger]
        entry_at(a.entries_seq(), i, j) == entry_at(b.entries_seq(), i, j) by {
        if 0 <= i < a.rows() && 0 <= j < a.cols() {
            assert(a.cell(i, j) == b.cell(i, j));
        } else {
            assert(!has_coord(a.entries_seq(), i, j)) by {
                lemma_has_coord_iff(a.entries_seq(), i, j);
            }
            assert(!has_coord(b.entries_seq(), i, j)) by {
                lemma_has_coord_iff(b.entries_seq(), i, j);
            }
            lemma_entry_at_absent(a.entries_seq(), i, j);
            lemma_entry_at_absent(b.entries_seq(), i, j);
        }
    }
    lemma_entries_canonical(a.entries_seq(), b.entries_seq());
}

/// Transposing a sparse matrix twice and converting the result to dense
/// form yields the same dense matrix as converting the original: transpose
/// is an involution, and the double transpose even stores the same entries.
pub proof fn lemma_transpose_involution(
    a: SparseMatrix,
    t1: SparseMatrix,
    t2: SparseMatrix,
    da: Seq<Seq<i32>>,
    dt: Seq<Seq<i32>>,
)
    requires
        a.wf(),
        t1.wf(),
        t2.wf(),
        // t1 is the transpose of a and t2 the transpose of t1, per `transpose`'s contract
        t1.size.0 == a.size.1,
        t1.size.1 == a.size.0,
        forall|i: int, j: int|
            0 <= i < t1.rows() && 0 <= j < t1.cols() ==> #[trigger] t1.cell(i, j) == a.cell(j, i),
        t2.size.0 == t1.size.1,
        t2.size.1 == t1.size.0,
        forall|i: int, j: int|
            0 <= i < t2.rows() && 0 <= j < t2.cols() ==> #[trigger] t2.cell(i, j) == t1.cell(j, i),
        // da and dt are the dense forms of a and t2, per `to_vec`'s contract
        da.len() == a.rows(),
        forall|i: int| 0 <= i < a.rows() ==> (#[trigger] da[i]).len() == a.cols(),
        forall|i: int, j: int|
            0 <= i < a.rows() && 0 <= j < a.cols() ==> #[trigger] da[i][j] == a.cell(i, j),
        dt.len() == t2.rows(),
        forall|i: int| 0 <= i < t2.rows() ==> (#[trigger] dt[i]).len() == t2.cols(),
        forall|i: int, j: int|
            0 <= i < t2.rows() && 0 <= j < t2.cols() ==> #[trigger] dt[i][j] == t2.cell(i, j),
    ensures
        dt == da,
        t2.size == a.size,
        t2.non_zero == a.non_zero,
        t2.entries_seq() == a.entries_seq(),
{
    lemma_dense_pointwise_eq(dt, da);
    lemma_sparse_canonical(t2, a);
}

/// Converting a dense matrix to sparse form and back to dense form yields
/// the original matrix, cell for cell and as a whole.
pub proof fn lemma_sparse_round_trip(m: Seq<Seq<i32>>, s: SparseMatrix, d: Seq<Seq<i32>>)
    requires
        dense_wf(m),
        s.wf(),
        s.rows() == m.len(),
        s.cols() == m[0].len(),
        forall|i: int, j: int|
            0 <= i < s.rows() && 0 <= j < s.cols() ==> s.cell(i, j) == #[trigger] m[i][j],
        d.len() == s.rows(),
        forall|i: int| 0 <= i < s.rows() ==> (#[trigger] d[i]).len() == s.cols(),
        forall|i: int, j: int|
            0 <= i < s.rows() && 0 <= j < s.cols() ==> #[trigger] d[i][j] == s.cell(i, j),
    ensures
        d == m,
{
    lemma_dense_pointwise_eq(d, m);
}

} // verus!
