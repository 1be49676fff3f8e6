use navigation::matrix::{CostMatrix, MatrixError, INF, MAX_ENTRY};

// The trivial reduction sanity case: a 2-by-2 matrix with only the two
// off-diagonal entries finite reduces for exactly those entries' own
// minima and nothing more, leaving both at zero.
#[test]
fn reduce_two_by_two() {
    let mut m = CostMatrix::new(vec![vec![INF, 5], vec![7, INF]]).unwrap();
    let cost = m.reduce();
    assert_eq!(12, cost);
    assert_eq!(INF, m.get(0, 0));
    assert_eq!(0, m.get(0, 1));
    assert_eq!(0, m.get(1, 0));
    assert_eq!(INF, m.get(1, 1));
}

// Row minima come off first, then column minima of the row-reduced grid.
#[test]
fn reduce_three_by_three() {
    let mut m = CostMatrix::new(vec![
        vec![INF, 4, 7],
        vec![2, INF, 8],
        vec![9, 3, INF],
    ])
    .unwrap();
    // Row minima: 4, 2, 3 (total 9). Row-reduced:
    //   INF 0 3
    //   0 INF 6
    //   6 0 INF
    // Column minima: 0, 0, 3 (total 3).
    let cost = m.reduce();
    assert_eq!(12, cost);
    assert_eq!(0, m.get(0, 1));
    assert_eq!(0, m.get(0, 2));
    assert_eq!(0, m.get(1, 0));
    assert_eq!(3, m.get(1, 2));
    assert_eq!(6, m.get(2, 0));
    assert_eq!(0, m.get(2, 1));
}

// An all-INF row is exhausted: it contributes nothing to the reduction.
#[test]
fn reduce_exhausted_row_adds_nothing() {
    let mut m = CostMatrix::new(vec![
        vec![INF, 2, 2],
        vec![INF, INF, INF],
        vec![2, 2, INF],
    ])
    .unwrap();
    // Row minima: 2, INF (counts 0), 2; after that every finite entry is 0.
    let cost = m.reduce();
    assert_eq!(4, cost);
    assert_eq!(0, m.get(0, 1));
    assert_eq!(INF, m.get(1, 0));
}

#[test]
fn new_rejects_empty() {
    assert!(matches!(CostMatrix::new(vec![]), Err(MatrixError::Empty)));
}

#[test]
fn new_rejects_non_square() {
    let r = CostMatrix::new(vec![vec![INF, 1], vec![2, INF, 3]]);
    assert!(matches!(r, Err(MatrixError::NotSquare)));
}

#[test]
fn new_rejects_finite_diagonal() {
    let r = CostMatrix::new(vec![vec![0, 1], vec![2, INF]]);
    assert!(matches!(r, Err(MatrixError::BadDiagonal)));
}

#[test]
fn new_rejects_oversized_entry() {
    let r = CostMatrix::new(vec![vec![INF, MAX_ENTRY + 1], vec![2, INF]]);
    assert!(matches!(r, Err(MatrixError::EntryTooLarge)));
}

#[test]
fn new_rejects_too_large() {
    let n = 1025;
    let rows: Vec<Vec<u64>> = (0..n)
        .map(|i| (0..n).map(|j| if i == j { INF } else { 1 }).collect())
        .collect();
    let r = CostMatrix::new(rows);
    assert!(matches!(r, Err(MatrixError::TooLarge)));
}

#[test]
fn new_accepts_well_formed() {
    let m = CostMatrix::new(vec![vec![INF, 1], vec![2, INF]]).unwrap();
    assert_eq!(2, m.dim());
    assert_eq!(1, m.get(0, 1));
    assert_eq!(2, m.get(1, 0));
    assert_eq!(INF, m.get(0, 0));
}
