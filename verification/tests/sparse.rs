use compact_matrix::sparse::SparseMatrix;
use compact_matrix::MatrixError;

#[test]
fn sparse_matrix_from() {
    let m = vec![
        vec![0, 0, 2, 4],
        vec![0, 1, 0, 0],
        vec![0, 0, 0, 0],
        vec![0, 0, 3, 0],
        vec![0, 0, 0, 0],
    ];
    assert_eq!(
        SparseMatrix::from(&m),
        SparseMatrix {
            size: (5, 4),
            non_zero: 4,
            data: vec![(0, 2, 2), (0, 3, 4), (1, 1, 1), (3, 2, 3)],
        }
    );
}

#[test]
fn sparse_matrix_transpose() {
    let m = vec![
        vec![0, 0, 2, 4],
        vec![0, 1, 0, 0],
        vec![0, 0, 0, 0],
        vec![0, 0, 3, 0],
        vec![0, 0, 0, 0],
    ];
    let m = SparseMatrix::from(&m);
    assert_eq!(
        m.transpose(),
        SparseMatrix {
            size: (4, 5),
            non_zero: 4,
            data: vec![(1, 1, 1), (2, 0, 2), (2, 3, 3), (3, 0, 4)],
        }
    );
}

#[test]
fn sparse_matrix_mul() {
    /*
        a = 0 0 2 4
            0 1 0 0
            0 0 0 0
            0 0 3 0
            0 0 0 0

        b = 8 0 0 7 0
            0 0 6 0 0
            0 5 0 0 0
            0 0 0 9 0

        a * b = 0  10  0  36  0
                0   0  6   0  0
                0   0  0   0  0
                0  15  0   0  0
                0   0  0   0  0
    */
    let a = SparseMatrix {
        size: (5, 4),
        non_zero: 4,
        data: vec![(0, 2, 2), (0, 3, 4), (1, 1, 1), (3, 2, 3)],
    };

    let b = SparseMatrix {
        size: (4, 5),
        non_zero: 5,
        data: vec![(0, 0, 8), (0, 3, 7), (1, 2, 6), (2, 1, 5), (3, 3, 9)],
    };

    assert_eq!(
        SparseMatrix::mul(&a, &b).unwrap(),
        SparseMatrix {
            size: (5, 5),
            non_zero: 4,
            data: vec![(0, 1, 10), (0, 3, 36), (1, 2, 6), (3, 1, 15)],
        }
    )
}

#[test]
#[should_panic]
fn sparse_matrix_mul_panic() {
    let a = SparseMatrix {
        size: (5, 4),
        non_zero: 4,
        data: vec![(0, 2, 2), (0, 3, 4), (1, 1, 1), (3, 2, 3)],
    };

    let b = SparseMatrix {
        size: (3, 5),
        non_zero: 5,
        data: vec![(0, 0, 8), (0, 3, 7), (1, 2, 6), (2, 1, 5)],
    };

    SparseMatrix::mul(&a, &b).unwrap();
}

#[test]
fn sparse_matrix_to_vec() {
    let m = SparseMatrix {
        size: (5, 4),
        non_zero: 4,
        data: vec![(0, 2, 2), (0, 3, 4), (1, 1, 1), (3, 2, 3)],
    };

    assert_eq!(
        m.to_vec(),
        vec![
            vec![0, 0, 2, 4],
            vec![0, 1, 0, 0],
            vec![0, 0, 0, 0],
            vec![0, 0, 3, 0],
            vec![0, 0, 0, 0],
        ]
    )
}

#[test]
fn sparse_mul_dimension_mismatch_error() {
    let a = SparseMatrix {
        size: (2, 3),
        non_zero: 1,
        data: vec![(0, 0, 1)],
    };
    let b = SparseMatrix {
        size: (2, 2),
        non_zero: 1,
        data: vec![(1, 1, 4)],
    };
    assert_eq!(
        SparseMatrix::mul(&a, &b),
        Err(MatrixError::DimensionMismatch((2, 3), (2, 2)))
    );
}

#[test]
fn sparse_mul_consolidates_contributions() {
    // two stored entries of `a` target the same output cell
    let a = SparseMatrix::from(&vec![vec![1, 1]]);
    let b = SparseMatrix::from(&vec![vec![1], vec![1]]);
    let c = SparseMatrix::mul(&a, &b).unwrap();
    assert_eq!(c.size, (1, 1));
    assert_eq!(c.non_zero, 1);
    assert_eq!(c.data, vec![(0, 0, 2)]);
}

#[test]
fn sparse_mul_drops_cancelled_cells() {
    // the dot product sums to zero, so no entry is stored for the cell
    let a = SparseMatrix::from(&vec![vec![1, -1]]);
    let b = SparseMatrix::from(&vec![vec![3], vec![3]]);
    let c = SparseMatrix::mul(&a, &b).unwrap();
    assert_eq!(c.size, (1, 1));
    assert_eq!(c.non_zero, 0);
    assert_eq!(c.data, vec![]);
    assert_eq!(c.to_vec(), vec![vec![0]]);
}

#[test]
fn sparse_mul_matches_dense_product() {
    let a = SparseMatrix {
        size: (5, 4),
        non_zero: 4,
        data: vec![(0, 2, 2), (0, 3, 4), (1, 1, 1), (3, 2, 3)],
    };
    let b = SparseMatrix {
        size: (4, 5),
        non_zero: 5,
        data: vec![(0, 0, 8), (0, 3, 7), (1, 2, 6), (2, 1, 5), (3, 3, 9)],
    };
    let c = SparseMatrix::mul(&a, &b).unwrap();
    let da = a.to_vec();
    let db = b.to_vec();
    let mut expected = vec![vec![0i32; 5]; 5];
    for i in 0..5 {
        for j in 0..5 {
            let mut sum = 0i32;
            for k in 0..4 {
                sum += da[i][k] * db[k][j];
            }
            expected[i][j] = sum;
        }
    }
    assert_eq!(c.to_vec(), expected);
}
