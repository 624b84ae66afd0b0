use zeropack::rle::{decode, encode};

#[test]
fn test_encode() {
    let actual = encode(&[0, 0, 0, 0, 1, 2, 3, 4]);
    let expected = &[0, 4, 1, 2, 3, 4];
    assert_eq!(actual, expected);

    let mut v = Vec::new();
    for _ in 0..260 {
        v.push(0);
    }
    v.extend(&[1, 0, 2, 3, 4]);
    for _ in 0..300 {
        v.push(0);
    }
    let actual = encode(&v);
    let expected = [0, 255, 0, 5, 1, 0, 1, 2, 3, 4, 0, 255, 0, 45];
    assert_eq!(actual, expected);
}

#[test]
fn test_decode() {
    let actual = decode(&[0, 4, 1, 2, 3, 4]);
    let expected = &[0, 0, 0, 0, 1, 2, 3, 4];
    assert_eq!(actual, expected);

    let mut expected = Vec::new();
    for _ in 0..260 {
        expected.push(0);
    }
    expected.extend(&[1, 0, 2, 3, 4]);
    for _ in 0..300 {
        expected.push(0);
    }
    let actual = decode(&[0, 255, 0, 5, 1, 0, 1, 2, 3, 4, 0, 255, 0, 45]);
    assert_eq!(actual, expected);
}

#[test]
fn round_trip_empty() {
    let b: Vec<u8> = Vec::new();
    assert_eq!(decode(&encode(&b)), b);
}

#[test]
fn round_trip_all_zero() {
    let b = vec![0u8; 1000];
    assert_eq!(decode(&encode(&b)), b);
}

#[test]
fn round_trip_mixed() {
    let mut b = Vec::new();
    for i in 0..2000u32 {
        b.push(if i % 7 == 0 || i % 11 == 3 { 0 } else { (i % 251) as u8 + 1 });
    }
    assert_eq!(decode(&encode(&b)), b);
}

#[test]
fn run_boundary_255() {
    let b = vec![0u8; 255];
    assert_eq!(encode(&b), vec![0, 255]);
}

#[test]
fn run_boundary_256() {
    let b = vec![0u8; 256];
    assert_eq!(encode(&b), vec![0, 255, 0, 1]);
}

#[test]
fn decode_is_total() {
    // A trailing lone zero opens a run with no count byte and emits nothing.
    assert_eq!(decode(&[7, 0]), vec![7]);
    // A zero count emits no bytes but consumes the pair.
    assert_eq!(decode(&[0, 0, 5]), vec![5]);
}
