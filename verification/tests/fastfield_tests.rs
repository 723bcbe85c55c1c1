use segcore::fastfield::{
    encode_gcd_column, owned_bytes_from_vec, ByteWidthCodec, DecodeError, GCDFastFieldCodec,
};

fn open_column(bytes: Vec<u8>) -> GCDFastFieldCodec<ByteWidthCodec> {
    GCDFastFieldCodec::<ByteWidthCodec>::open_from_bytes(owned_bytes_from_vec(bytes)).unwrap()
}

/// The mapping used for storing signed values in an unsigned column:
/// flips the sign bit so that the order is preserved.
fn i64_to_u64(val: i64) -> u64 {
    (val as u64) ^ (1u64 << 63)
}

fn u64_to_i64(val: u64) -> i64 {
    (val ^ (1u64 << 63)) as i64
}

#[test]
fn test_fastfield_gcd_u64() {
    let num_vals: usize = 5005;
    let mut vals: Vec<u64> = vec![];
    for i in 1..=num_vals {
        vals.push(i as u64 * 1000u64);
    }
    let file = encode_gcd_column(&vals);
    let fast_field_reader = open_column(file.clone());
    assert_eq!(fast_field_reader.get_u64(0), 1000u64);
    assert_eq!(fast_field_reader.get_u64(1), 2000u64);
    assert_eq!(fast_field_reader.get_u64(2), 3000u64);
    assert_eq!(fast_field_reader.max_value(), num_vals as u64 * 1000);
    assert_eq!(fast_field_reader.min_value(), 1000u64);

    // Can't apply gcd: the column with an off-grid value packs wider
    vals.pop();
    vals.push(2001u64);
    let file2 = encode_gcd_column(&vals);
    assert!(file2.len() > file.len());
}

#[test]
fn test_fastfield_gcd_i64() {
    let num_vals: usize = 5005;
    let mut vals: Vec<u64> = vec![];
    for i in 1..=num_vals {
        let val = i as i64 * 1000i64;
        vals.push(i64_to_u64(val));
    }
    let file = encode_gcd_column(&vals);
    let fast_field_reader = open_column(file.clone());
    assert_eq!(u64_to_i64(fast_field_reader.get_u64(0)), 1000i64);
    assert_eq!(u64_to_i64(fast_field_reader.get_u64(1)), 2000i64);
    assert_eq!(u64_to_i64(fast_field_reader.get_u64(2)), 3000i64);
    assert_eq!(u64_to_i64(fast_field_reader.max_value()), num_vals as i64 * 1000);
    assert_eq!(u64_to_i64(fast_field_reader.min_value()), 1000i64);

    // Can't apply gcd
    vals.pop();
    vals.push(i64_to_u64(2001i64));
    let file2 = encode_gcd_column(&vals);
    assert!(file2.len() > file.len());
}

#[test]
pub fn test_fastfield2() {
    let bytes = encode_gcd_column(&vec![100, 200, 300]);
    let test_fastfield = open_column(bytes);
    assert_eq!(test_fastfield.get_u64(0), 100);
    assert_eq!(test_fastfield.get_u64(1), 200);
    assert_eq!(test_fastfield.get_u64(2), 300);
}

#[test]
fn test_footer_wire_format() {
    // gcd 100, min 100, quotients 0, 1, 2 stored in one byte each
    let bytes = encode_gcd_column(&vec![100, 200, 300]);
    let mut expected: Vec<u8> = vec![1, 0, 1, 2];
    expected.extend_from_slice(&100u64.to_le_bytes());
    expected.extend_from_slice(&100u64.to_le_bytes());
    assert_eq!(bytes, expected);
}

#[test]
fn test_round_trip_mixed_values() {
    let vals: Vec<u64> = vec![7, 7, 21, 35, 70, 7 + 7 * 1000];
    let bytes = encode_gcd_column(&vals);
    let reader = open_column(bytes);
    for (i, v) in vals.iter().enumerate() {
        assert_eq!(reader.get_u64(i as u64), *v);
    }
    assert_eq!(reader.min_value(), 7);
    assert_eq!(reader.max_value(), 7007);
}

#[test]
fn test_round_trip_all_zero() {
    let vals: Vec<u64> = vec![0, 0, 0];
    let bytes = encode_gcd_column(&vals);
    let reader = open_column(bytes);
    assert_eq!(reader.get_u64(0), 0);
    assert_eq!(reader.min_value(), 0);
    assert_eq!(reader.max_value(), 0);
}

#[test]
fn test_open_too_short() {
    let r = GCDFastFieldCodec::<ByteWidthCodec>::open_from_bytes(owned_bytes_from_vec(vec![
        0u8; 10
    ]));
    match r {
        Err(e) => assert_eq!(e, DecodeError::TooShort),
        Ok(_) => panic!("a short buffer must not open"),
    }
}

#[test]
fn test_open_corrupt_body() {
    // a width byte of 3 is not a supported width
    let mut bytes: Vec<u8> = vec![3u8];
    bytes.extend_from_slice(&1u64.to_le_bytes());
    bytes.extend_from_slice(&0u64.to_le_bytes());
    let r = GCDFastFieldCodec::<ByteWidthCodec>::open_from_bytes(owned_bytes_from_vec(bytes));
    match r {
        Err(e) => assert_eq!(e, DecodeError::Corrupt),
        Ok(_) => panic!("a corrupt body must not open"),
    }
}
