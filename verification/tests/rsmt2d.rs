use rsmt2d_rs::data_square::ExtendedDataSquare;
use rsmt2d_rs::rsmt2d::{self, ReedSolomonMerkleTree2D, SparseExtendedDataSquare};
use rsmt2d_rs::{merkle_tree, Error, Matrix2D};

#[test]
fn lib_it_works() {}

fn sample_eds() -> ExtendedDataSquare {
    let data: Matrix2D = vec![
        vec![0, 1, 2, 3],
        vec![4, 5, 6, 7],
        vec![8, 9, 10, 11],
        vec![12, 13, 14, 15],
    ];
    let scheme = rsmt2d::new(merkle_tree::new());
    scheme.compute_extended_data_square(data).unwrap()
}

fn sparse_from(eds: &ExtendedDataSquare, keep: impl Fn(usize, usize) -> bool) -> SparseExtendedDataSquare {
    let w = eds.data_square.width;
    let mut rows: Vec<Vec<Option<Vec<u8>>>> = Vec::new();
    for i in 0..w {
        let mut row: Vec<Option<Vec<u8>>> = Vec::new();
        for j in 0..w {
            if keep(i, j) {
                row.push(Some(eds.data_square.square_row[i][j].clone()));
            } else {
                row.push(None);
            }
        }
        rows.push(row);
    }
    SparseExtendedDataSquare {
        rows,
        width: w,
        original_width: eds.data_square.original_width,
        chunk_size: eds.data_square.chunk_size,
    }
}

#[test]
fn compute_extended_data_square_works() {
    let eds = sample_eds();
    assert_eq!(eds.data_square.width, 4);
    assert_eq!(eds.data_square.original_width, 2);
    assert_eq!(eds.data_square.chunk_size, 4);
    assert_eq!(eds.data_square.row_roots.len(), 4);
    assert_eq!(eds.data_square.col_roots.len(), 4);
    // the original quadrant is the input data
    assert_eq!(eds.data_square.square_row[0][0], vec![0, 1, 2, 3]);
    assert_eq!(eds.data_square.square_row[0][1], vec![4, 5, 6, 7]);
    assert_eq!(eds.data_square.square_row[1][0], vec![8, 9, 10, 11]);
    assert_eq!(eds.data_square.square_row[1][1], vec![12, 13, 14, 15]);
}

#[test]
fn repair_recovers_missing_chunks() {
    let eds = sample_eds();
    let scheme = rsmt2d::new(merkle_tree::new());
    // drop two chunks from every row: still decodable row by row
    let sparse = sparse_from(&eds, |_i, j| j < 2);
    let repaired = scheme
        .repair(
            sparse,
            eds.data_square.row_roots.clone(),
            eds.data_square.col_roots.clone(),
        )
        .unwrap();
    assert_eq!(repaired.data_square.square_row, eds.data_square.square_row);
    assert_eq!(repaired.data_square.square_col, eds.data_square.square_col);
}

#[test]
fn repair_propagates_from_columns_to_rows() {
    let eds = sample_eds();
    let scheme = rsmt2d::new(merkle_tree::new());
    // row 0 keeps only one chunk: unrecoverable alone, but the columns
    // recover it after their own pass
    let sparse = sparse_from(&eds, |i, j| if i == 0 { j == 0 } else { j < 3 });
    let repaired = scheme
        .repair(
            sparse,
            eds.data_square.row_roots.clone(),
            eds.data_square.col_roots.clone(),
        )
        .unwrap();
    assert_eq!(repaired.data_square.square_row, eds.data_square.square_row);
}

#[test]
fn repair_of_a_complete_square_returns_it_unchanged() {
    let eds = sample_eds();
    let scheme = rsmt2d::new(merkle_tree::new());
    let sparse = sparse_from(&eds, |_i, _j| true);
    let repaired = scheme
        .repair(
            sparse,
            eds.data_square.row_roots.clone(),
            eds.data_square.col_roots.clone(),
        )
        .unwrap();
    assert_eq!(repaired.data_square.square_row, eds.data_square.square_row);
    assert_eq!(repaired.data_square.square_col, eds.data_square.square_col);
    assert_eq!(repaired.data_square.row_roots, eds.data_square.row_roots);
    assert_eq!(repaired.data_square.col_roots, eds.data_square.col_roots);
}

#[test]
fn repair_with_too_few_shares_everywhere_fails() {
    let eds = sample_eds();
    let scheme = rsmt2d::new(merkle_tree::new());
    // keep only the diagonal: one chunk per row and per column, below the
    // two every line needs
    let sparse = sparse_from(&eds, |i, j| i == j);
    let err = scheme
        .repair(
            sparse,
            eds.data_square.row_roots.clone(),
            eds.data_square.col_roots.clone(),
        )
        .unwrap_err();
    assert_eq!(err, Error::InsufficientShares);
}

#[test]
fn repair_detects_tampered_chunks() {
    let eds = sample_eds();
    let scheme = rsmt2d::new(merkle_tree::new());
    let mut sparse = sparse_from(&eds, |_i, _j| true);
    // flip one byte of a present chunk: the row root no longer matches
    if let Some(chunk) = &mut sparse.rows[1][1] {
        chunk[0] ^= 0xff;
    }
    let err = scheme
        .repair(
            sparse,
            eds.data_square.row_roots.clone(),
            eds.data_square.col_roots.clone(),
        )
        .unwrap_err();
    assert_eq!(err, Error::RootMismatch);
}

#[test]
fn import_extended_data_square_works() {
    let eds = sample_eds();
    let scheme = rsmt2d::new(merkle_tree::new());
    let mut flat: Vec<Option<Vec<u8>>> = Vec::new();
    for i in 0..4 {
        for j in 0..4 {
            if (i + j) % 2 == 0 {
                flat.push(Some(eds.data_square.square_row[i][j].clone()));
            } else {
                flat.push(None);
            }
        }
    }
    let sparse = scheme.import_extended_data_square(flat).unwrap();
    assert_eq!(sparse.width, 4);
    assert_eq!(sparse.original_width, 2);
    assert_eq!(sparse.chunk_size, 4);
    assert_eq!(
        sparse.rows[0][0],
        Some(eds.data_square.square_row[0][0].clone())
    );
    assert_eq!(sparse.rows[0][1], None);
}

#[test]
fn import_rejects_bad_inputs() {
    let scheme = rsmt2d::new(merkle_tree::new());
    assert_eq!(
        scheme.import_extended_data_square(vec![]).unwrap_err(),
        Error::EmptyInput
    );
    // nine slots: a square of odd width cannot be an extended square
    let nine: Vec<Option<Vec<u8>>> = (0..9).map(|_| Some(vec![1, 2])).collect();
    assert_eq!(
        scheme.import_extended_data_square(nine).unwrap_err(),
        Error::NotSquareCount
    );
    // all slots missing: nothing fixes the chunk size
    let empty: Vec<Option<Vec<u8>>> = (0..4).map(|_| None).collect();
    assert_eq!(
        scheme.import_extended_data_square(empty).unwrap_err(),
        Error::EmptyInput
    );
    // present chunks of two different sizes
    let mixed: Vec<Option<Vec<u8>>> = vec![Some(vec![1]), Some(vec![2, 3]), None, None];
    assert_eq!(
        scheme.import_extended_data_square(mixed).unwrap_err(),
        Error::UnequalChunkSize
    );
}

#[test]
fn imported_square_repairs() {
    let eds = sample_eds();
    let scheme = rsmt2d::new(merkle_tree::new());
    let mut flat: Vec<Option<Vec<u8>>> = Vec::new();
    for i in 0..4 {
        for j in 0..4 {
            if j != 3 {
                flat.push(Some(eds.data_square.square_row[i][j].clone()));
            } else {
                flat.push(None);
            }
        }
    }
    let sparse = scheme.import_extended_data_square(flat).unwrap();
    let repaired = scheme
        .repair(
            sparse,
            eds.data_square.row_roots.clone(),
            eds.data_square.col_roots.clone(),
        )
        .unwrap();
    assert_eq!(repaired.data_square.square_row, eds.data_square.square_row);
}
