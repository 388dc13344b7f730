use compact_matrix::lower::Ltm;
use compact_matrix::upper::Htm;
use compact_matrix::MatrixError;

// ---------- Ltm ---------- //
#[test]
fn ltm_from() {
    let m = vec![
        vec![1, 0, 0, 0],
        vec![2, 3, 0, 0],
        vec![4, 5, 6, 0],
        vec![7, 8, 9, 10],
    ];
    let m = Ltm::from(&m).unwrap();
    assert_eq!(
        m,
        Ltm {
            data: vec![1, 2, 3, 4, 5, 6, 7, 8, 9, 10],
            size: 4,
        }
    );
}

#[test]
#[should_panic]
fn ltm_from_panic_not_square() {
    let m = vec![
        vec![1, 0, 0, 0],
        vec![2, 3, 0, 0],
        vec![4, 5, 6, 0],
    ];
    Ltm::from(&m).unwrap();
}

#[test]
#[should_panic]
fn ltm_from_panic_not_ltm() {
    let m = vec![
        vec![1, 2, 3, 4],
        vec![0, 5, 6, 7],
        vec![0, 0, 8, 9],
        vec![0, 0, 0, 10],
    ];
    Ltm::from(&m).unwrap();
}

#[test]
fn ltm_to_vec() {
    let m = vec![
        vec![1, 0, 0, 0],
        vec![2, 3, 0, 0],
        vec![4, 5, 6, 0],
        vec![7, 8, 9, 10],
    ];
    let ltm = Ltm {
        data: vec![1, 2, 3, 4, 5, 6, 7, 8, 9, 10],
        size: 4,
    };
    assert_eq!(m, ltm.to_vec());
}

#[test]
fn ltm_is_ltm() {
    let m = vec![
        vec![1, 0, 0, 0],
        vec![2, 3, 0, 0],
        vec![4, 5, 6, 0],
        vec![7, 8, 9, 10],
    ];
    assert_eq!(Ltm::is_ltm(&m), true);
    let m = vec![
        vec![1, 2, 3, 4],
        vec![0, 5, 6, 7],
        vec![0, 0, 8, 9],
        vec![0, 0, 0, 10],
    ];
    assert_eq!(Ltm::is_ltm(&m), false);
}

// -------- Htm test -------- //
#[test]
fn htm_from() {
    let m = vec![
        vec![1, 2, 3, 4],
        vec![0, 5, 6, 7],
        vec![0, 0, 8, 9],
        vec![0, 0, 0, 10],
    ];
    let m = Htm::from(&m).unwrap();
    assert_eq!(
        m,
        Htm {
            data: vec![1, 2, 3, 4, 5, 6, 7, 8, 9, 10],
            size: 4,
        }
    );
}

#[test]
#[should_panic]
fn htm_from_panic_not_square() {
    let m = vec![
        vec![1, 0, 0, 0],
        vec![2, 3, 0, 0],
        vec![4, 5, 6, 0],
    ];
    Htm::from(&m).unwrap();
}

#[test]
#[should_panic]
fn htm_from_panic_not_ltm() {
    let m = vec![
        vec![1, 0, 0, 0],
        vec![2, 3, 0, 0],
        vec![4, 5, 6, 0],
        vec![7, 8, 9, 10],
    ];
    Htm::from(&m).unwrap();
}

#[test]
fn htm_to_vec() {
    let m = vec![
        vec![1, 2, 3, 4],
        vec![0, 5, 6, 7],
        vec![0, 0, 8, 9],
        vec![0, 0, 0, 10],
    ];
    let htm = Htm {
        data: vec![1, 2, 3, 4, 5, 6, 7, 8, 9, 10],
        size: 4,
    };
    assert_eq!(m, htm.to_vec());
}

#[test]
fn htm_is_htm() {
    let m = vec![
        vec![1, 2, 3, 4],
        vec![0, 5, 6, 7],
        vec![0, 0, 8, 9],
        vec![0, 0, 0, 10],
    ];
    assert_eq!(Htm::is_htm(&m), true);
    let m = vec![
        vec![1, 0, 0, 0],
        vec![2, 3, 0, 0],
        vec![4, 5, 6, 0],
        vec![7, 8, 9, 10],
    ];
    assert_eq!(Htm::is_htm(&m), false);
}

// -------- error variants -------- //
#[test]
fn ltm_from_not_square_error() {
    let m = vec![vec![1, 0], vec![2, 3], vec![4, 5]];
    assert_eq!(Ltm::from(&m), Err(MatrixError::NotSquare));
}

#[test]
fn ltm_from_not_lower_error() {
    let m = vec![vec![1, 7], vec![2, 3]];
    assert_eq!(Ltm::from(&m), Err(MatrixError::NotLowerTriangular));
}

#[test]
fn htm_from_not_square_error() {
    let m = vec![vec![1, 2], vec![0, 3], vec![0, 0]];
    assert_eq!(Htm::from(&m), Err(MatrixError::NotSquare));
}

#[test]
fn htm_from_not_upper_error() {
    let m = vec![vec![1, 2], vec![7, 3]];
    assert_eq!(Htm::from(&m), Err(MatrixError::NotUpperTriangular));
}

#[test]
fn is_ltm_rejects_non_square() {
    let m = vec![vec![1, 0, 0], vec![2, 3, 0]];
    assert_eq!(Ltm::is_ltm(&m), false);
}

#[test]
fn is_htm_rejects_non_square() {
    let m = vec![vec![1, 2, 3], vec![0, 4, 5]];
    assert_eq!(Htm::is_htm(&m), false);
}
