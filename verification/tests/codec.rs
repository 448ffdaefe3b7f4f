use rsmt2d_rs::codec::{self, Codec};
use rsmt2d_rs::Error;
use rsmt2d_rs::Matrix2D;

#[test]
fn codec_it_works() {
    let data: Matrix2D = vec![
        vec![0, 1, 2, 3],
        vec![4, 5, 6, 7],
        vec![8, 9, 10, 11],
        vec![12, 13, 14, 15],
    ];
    let codec = codec::new(data.len()).unwrap();
    let input = data;
    let encoded_data = codec.encode(input).unwrap();
    assert!(
        encoded_data
            == vec![
                vec![16, 17, 18, 19],
                vec![20, 21, 22, 23],
                vec![24, 25, 26, 27],
                vec![28, 29, 30, 31],
            ]
    );
}

#[test]
fn encode_then_decode_round_trips() {
    let data: Matrix2D = vec![
        vec![0, 1, 2, 3],
        vec![4, 5, 6, 7],
        vec![8, 9, 10, 11],
        vec![12, 13, 14, 15],
    ];
    let codec = codec::new(4).unwrap();
    let parity = codec.encode(data.clone()).unwrap();
    let mut shares: Vec<Option<Vec<u8>>> = Vec::new();
    for chunk in data.iter().chain(parity.iter()) {
        shares.push(Some(chunk.clone()));
    }
    let decoded = codec.decode(shares).unwrap();
    assert_eq!(decoded, data);
}

#[test]
fn decode_recovers_from_any_half() {
    let data: Matrix2D = vec![vec![9, 8], vec![7, 6], vec![5, 4], vec![3, 2]];
    let codec = codec::new(4).unwrap();
    let parity = codec.encode(data.clone()).unwrap();
    // keep only the parity half: exactly data_len shares present
    let mut shares: Vec<Option<Vec<u8>>> = vec![None, None, None, None];
    for chunk in parity.iter() {
        shares.push(Some(chunk.clone()));
    }
    let decoded = codec.decode(shares).unwrap();
    assert_eq!(decoded, data);
}

#[test]
fn decode_with_too_few_shares_fails() {
    let data: Matrix2D = vec![vec![9, 8], vec![7, 6], vec![5, 4], vec![3, 2]];
    let codec = codec::new(4).unwrap();
    let parity = codec.encode(data.clone()).unwrap();
    let mut shares: Vec<Option<Vec<u8>>> = vec![None; 5];
    shares.push(Some(data[0].clone()));
    shares.push(Some(parity[1].clone()));
    shares.push(Some(parity[3].clone()));
    assert_eq!(codec.decode(shares).unwrap_err(), Error::InsufficientShares);
}

#[test]
fn encode_rejects_bad_inputs() {
    let codec = codec::new(2).unwrap();
    assert_eq!(
        codec.encode(vec![vec![1, 2]]).unwrap_err(),
        Error::CodecShareCountMismatch
    );
    assert_eq!(
        codec.encode(vec![vec![1, 2], vec![3]]).unwrap_err(),
        Error::UnequalChunkSize
    );
    assert_eq!(
        codec.encode(vec![vec![], vec![]]).unwrap_err(),
        Error::CodecConstructionFailure
    );
}

#[test]
fn decode_rejects_wrong_share_count() {
    let codec = codec::new(2).unwrap();
    let shares: Vec<Option<Vec<u8>>> = vec![Some(vec![1]), Some(vec![2]), Some(vec![3])];
    assert_eq!(
        codec.decode(shares).unwrap_err(),
        Error::CodecShareCountMismatch
    );
}

#[test]
fn codec_construction_bounds() {
    assert_eq!(codec::new(0).unwrap_err(), Error::CodecConstructionFailure);
    assert_eq!(
        codec::new(129).unwrap_err(),
        Error::CodecConstructionFailure
    );
    assert!(codec::new(1).is_ok());
    assert!(codec::new(128).is_ok());
}

#[test]
fn max_chunks_reports_the_field_ceiling() {
    let codec = codec::new(2).unwrap();
    assert_eq!(codec.max_chunks(), 32768 * 32768);
}
