use besu_native::bytes::{
    try_commitment_from, try_commitment_vec_from, try_scalar_from, try_scalar_vec_from,
    CommitmentBytes, Error,
};

#[test]
fn test_commitment_vec_from() {
    let input: [u8; 128] = [
        0, 1, 2, 3, 4, 5, 6, 7, 8, 9, 10, 11, 12, 13, 14, 15,
        16, 17, 18, 19, 20, 21, 22, 23, 24, 25, 26, 27, 28, 29, 30, 31,
        32, 33, 34, 35, 36, 37, 38, 39, 40, 41, 42, 43, 44, 45, 46, 47,
        48, 49, 50, 51, 52, 53, 54, 55, 56, 57, 58, 59, 60, 61, 62, 63,
        0, 1, 2, 3, 4, 5, 6, 7, 8, 9, 10, 11, 12, 13, 14, 15,
        16, 17, 18, 19, 20, 21, 22, 23, 24, 25, 26, 27, 28, 29, 30, 31,
        32, 33, 34, 35, 36, 37, 38, 39, 40, 41, 42, 43, 44, 45, 46, 47,
        48, 49, 50, 51, 52, 53, 54, 55, 56, 57, 58, 59, 60, 61, 62, 63,
    ];
    let first: CommitmentBytes = input[..64].try_into().unwrap();
    let second: CommitmentBytes = input[64..].try_into().unwrap();
    let expected: Vec<CommitmentBytes> = vec![first, second];
    let observed = try_commitment_vec_from(&input).unwrap();
    assert_eq!(expected, observed);
}

#[test]
fn test_idempotency_commitment_from() {
    let input: CommitmentBytes = [
        0, 1, 2, 3, 4, 5, 6, 7, 8, 9, 10, 11, 12, 13, 14, 15,
        16, 17, 18, 19, 20, 21, 22, 23, 24, 25, 26, 27, 28, 29, 30, 31,
        32, 33, 34, 35, 36, 37, 38, 39, 40, 41, 42, 43, 44, 45, 46, 47,
        48, 49, 50, 51, 52, 53, 54, 55, 56, 57, 58, 59, 60, 61, 62, 63,
    ];
    let observed: CommitmentBytes = try_commitment_from(&input).unwrap();
    assert_eq!(input, observed);
}

#[test]
fn test_empty_commit() {
    assert_eq!(1, 1);
}

#[test]
fn test_commitment_from_wrong_length() {
    let input = [7u8; 63];
    let observed = try_commitment_from(&input);
    assert!(matches!(
        observed,
        Err(Error::CommitmentLengthError { len: 63 })
    ));
}

#[test]
fn test_commitment_vec_from_unaligned() {
    let input = [7u8; 100];
    let observed = try_commitment_vec_from(&input);
    assert!(matches!(
        observed,
        Err(Error::CommitmentsLengthNotAligned { len: 100 })
    ));
}

#[test]
fn test_scalar_from_pads_to_32_bytes() {
    let data = [1u8, 2, 3];
    let observed = try_scalar_from(3, &data).unwrap();
    let mut expected = [0u8; 32];
    expected[0] = 1;
    expected[1] = 2;
    expected[2] = 3;
    assert_eq!(observed, expected);
}

#[test]
fn test_scalar_from_size_too_big() {
    let data = [1u8; 33];
    let observed = try_scalar_from(33, &data);
    assert!(matches!(observed, Err(Error::ScalarSizeTooBig { size: 33 })));
}

#[test]
fn test_scalar_from_wrong_length() {
    let data = [1u8; 4];
    let observed = try_scalar_from(3, &data);
    assert!(matches!(
        observed,
        Err(Error::ScalarLengthError { size: 3, len: 4 })
    ));
}

#[test]
fn test_scalar_vec_from_chunks_and_pads() {
    let data = [1u8, 2, 3, 4];
    let observed = try_scalar_vec_from(2, &data).unwrap();
    assert_eq!(observed.len(), 2);
    let mut first = [0u8; 32];
    first[0] = 1;
    first[1] = 2;
    let mut second = [0u8; 32];
    second[0] = 3;
    second[1] = 4;
    assert_eq!(observed[0], first);
    assert_eq!(observed[1], second);
}

#[test]
fn test_scalar_vec_from_unaligned() {
    let data = [1u8, 2, 3, 4, 5];
    let observed = try_scalar_vec_from(2, &data);
    assert!(matches!(
        observed,
        Err(Error::ScalarsLengthNotAligned { size: 2, len: 5 })
    ));
}

#[test]
fn test_scalar_vec_from_size_too_big() {
    let data = [1u8; 33];
    let observed = try_scalar_vec_from(33, &data);
    assert!(matches!(observed, Err(Error::ScalarSizeTooBig { size: 33 })));
}
