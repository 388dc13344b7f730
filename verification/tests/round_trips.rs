use compact_matrix::lower::Ltm;
use compact_matrix::sparse::SparseMatrix;
use compact_matrix::upper::Htm;

#[test]
fn sparse_round_trip_dense() {
    let m = vec![
        vec![0, 0, 2, 4],
        vec![0, 1, 0, 0],
        vec![0, 0, 0, 0],
        vec![0, 0, 3, 0],
        vec![0, 0, 0, 0],
    ];
    assert_eq!(SparseMatrix::from(&m).to_vec(), m);
}

#[test]
fn sparse_round_trip_single_cell() {
    let m = vec![vec![0]];
    let s = SparseMatrix::from(&m);
    assert_eq!(s.size, (1, 1));
    assert_eq!(s.non_zero, 0);
    assert_eq!(s.to_vec(), m);

    let m = vec![vec![-7]];
    let s = SparseMatrix::from(&m);
    assert_eq!(s.non_zero, 1);
    assert_eq!(s.data, vec![(0, 0, -7)]);
    assert_eq!(s.to_vec(), m);
}

#[test]
fn sparse_nonzero_count_matches_dense() {
    let m = vec![
        vec![0, -1, 0],
        vec![2, 0, 0],
        vec![0, 3, -4],
    ];
    assert_eq!(SparseMatrix::from(&m).non_zero, 4);
}

#[test]
fn sparse_transpose_involution() {
    let m = vec![
        vec![0, 0, 2, 4],
        vec![0, 1, 0, 0],
        vec![0, 0, 0, 0],
        vec![0, 0, 3, 0],
        vec![0, 0, 0, 0],
    ];
    let s = SparseMatrix::from(&m);
    assert_eq!(s.transpose().transpose().to_vec(), s.to_vec());
    assert_eq!(s.transpose().transpose(), s);
}

#[test]
fn lower_round_trip_dense() {
    let m = vec![
        vec![1, 0, 0, 0],
        vec![2, 3, 0, 0],
        vec![4, 5, 6, 0],
        vec![7, 8, 9, 10],
    ];
    assert_eq!(Ltm::from(&m).unwrap().to_vec(), m);

    let single = vec![vec![42]];
    assert_eq!(Ltm::from(&single).unwrap().to_vec(), single);
}

#[test]
fn upper_round_trip_dense() {
    let m = vec![
        vec![1, 2, 3, 4],
        vec![0, 5, 6, 7],
        vec![0, 0, 8, 9],
        vec![0, 0, 0, 10],
    ];
    assert_eq!(Htm::from(&m).unwrap().to_vec(), m);

    let single = vec![vec![42]];
    assert_eq!(Htm::from(&single).unwrap().to_vec(), single);
}
