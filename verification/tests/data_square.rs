use rsmt2d_rs::data_square::DataSquare;
use rsmt2d_rs::Error;
use rsmt2d_rs::Matrix2D;

#[test]
fn data_square_it_works() {
    let data: Matrix2D = vec![
        vec![0, 1, 2, 3],
        vec![4, 5, 6, 7],
        vec![8, 9, 10, 11],
        vec![12, 13, 14, 15],
    ];
    let data_square = DataSquare::new(data).unwrap();
    assert!(data_square.chunk_size == 4);
    assert!(data_square.width == 2);
    assert!(
        data_square.square_row
            == vec![
                vec![vec![0, 1, 2, 3], vec![4, 5, 6, 7]],
                vec![vec![8, 9, 10, 11], vec![12, 13, 14, 15]],
            ]
    );
    assert!(
        data_square.square_col
            == vec![
                vec![vec![0, 1, 2, 3], vec![8, 9, 10, 11]],
                vec![vec![4, 5, 6, 7], vec![12, 13, 14, 15],]
            ]
    );
}

#[test]
fn when_data_is_empty_then_it_fails() {
    let data: Matrix2D = vec![];
    let result = DataSquare::new(data);

    match result {
        Ok(_) => panic!("Expected error"),
        Err(err) => assert_eq!(err.message(), "Data must not be empty."),
    }
}

#[test]
fn when_data_is_not_square_then_it_fails() {
    let data: Matrix2D = vec![vec![0, 1, 2, 3], vec![4, 5, 6, 7], vec![8, 9, 10, 11]];
    let result = DataSquare::new(data);

    match result {
        Ok(_) => panic!("Expected error"),
        Err(err) => assert!(err
            .message()
            .contains("Number of chunks must be a square number.")),
    };
}

#[test]
fn erasure_extend_square_works() {
    let data: Matrix2D = vec![
        vec![0, 1, 2, 3],
        vec![4, 5, 6, 7],
        vec![8, 9, 10, 11],
        vec![12, 13, 14, 15],
    ];
    let mut data_square = DataSquare::new(data).unwrap();
    data_square.erasure_extend_square().unwrap();
}

#[test]
fn when_chunks_differ_in_size_then_it_fails() {
    let data: Matrix2D = vec![vec![0, 1, 2, 3], vec![4, 5], vec![8, 9, 10, 11], vec![12]];
    match DataSquare::new(data) {
        Ok(_) => panic!("Expected error"),
        Err(err) => assert_eq!(err, Error::UnequalChunkSize),
    }
}

#[test]
fn construction_accepts_every_positive_square_count() {
    for width in 1usize..=4 {
        let count = width * width;
        let data: Matrix2D = (0..count).map(|k| vec![k as u8; 3]).collect();
        let sq = DataSquare::new(data).unwrap();
        assert_eq!(sq.width, width);
        assert_eq!(sq.original_width, width);
        assert_eq!(sq.chunk_size, 3);
    }
    for count in [2usize, 3, 5, 6, 7, 8, 10, 15] {
        let data: Matrix2D = (0..count).map(|k| vec![k as u8; 3]).collect();
        assert_eq!(DataSquare::new(data).unwrap_err(), Error::NotSquareCount);
    }
}

#[test]
fn duality_holds_after_construction_and_extension() {
    let data: Matrix2D = (0..16).map(|k| vec![k as u8; 2]).collect();
    let mut sq = DataSquare::new(data).unwrap();
    for i in 0..sq.width {
        for j in 0..sq.width {
            assert_eq!(sq.square_row[i][j], sq.square_col[j][i]);
        }
    }
    sq.erasure_extend_square().unwrap();
    assert_eq!(sq.width, 8);
    assert_eq!(sq.original_width, 4);
    for i in 0..sq.width {
        for j in 0..sq.width {
            assert_eq!(sq.square_row[i][j], sq.square_col[j][i]);
        }
    }
}

#[test]
fn extension_runs_exactly_once() {
    let data: Matrix2D = vec![vec![1, 2], vec![3, 4], vec![5, 6], vec![7, 8]];
    let mut sq = DataSquare::new(data).unwrap();
    assert_eq!(sq.width, 2);
    sq.erasure_extend_square().unwrap();
    assert_eq!(sq.width, 4);
    assert_eq!(sq.original_width, 2);
    let second = sq.erasure_extend_square();
    assert_eq!(second.unwrap_err(), Error::AlreadyExtended);
    assert_eq!(sq.width, 4);
    assert_eq!(sq.original_width, 2);
}

#[test]
fn extension_preserves_original_quadrant_and_computes_roots() {
    let data: Matrix2D = vec![
        vec![0, 1, 2, 3],
        vec![4, 5, 6, 7],
        vec![8, 9, 10, 11],
        vec![12, 13, 14, 15],
    ];
    let original = data.clone();
    let mut sq = DataSquare::new(data).unwrap();
    sq.erasure_extend_square().unwrap();
    for i in 0..2 {
        for j in 0..2 {
            assert_eq!(sq.square_row[i][j], original[i * 2 + j]);
        }
    }
    assert_eq!(sq.row_roots.len(), 4);
    assert_eq!(sq.col_roots.len(), 4);
    for i in 0..4 {
        let recomputed = rsmt2d_rs::data_square::chunks_root(&sq.square_row[i]).unwrap();
        assert_eq!(recomputed, sq.row_roots[i]);
        let recomputed_col = rsmt2d_rs::data_square::chunks_root(&sq.square_col[i]).unwrap();
        assert_eq!(recomputed_col, sq.col_roots[i]);
    }
}
