use rmerger::parser::{
    encoded_length, encoded_string, rdb, record, EncodedLength, EncodedString, ExpiryTime, RDBDec,
    RDBSer, VT_LIST, VT_SET, VT_SORTEDSET, VT_STRING,
};
use rmerger::RdbError;

#[test]
fn encoded_length_test() {
    let case_00_1_in = vec![0b00000000u8];
    assert_eq!(
        encoded_length(&case_00_1_in, 0).unwrap(),
        (EncodedLength::I(0, vec![0b00000000]), 1)
    );

    let case_00_2_in = vec![0b00111111u8];
    assert_eq!(
        encoded_length(&case_00_2_in, 0).unwrap(),
        (EncodedLength::I(63, vec![0b00111111]), 1)
    );

    let case_01_1_in = vec![0b01000000u8, 0x40];
    assert_eq!(
        encoded_length(&case_01_1_in, 0).unwrap(),
        (EncodedLength::I(64, vec![0b01000000, 0x40]), 2)
    );

    let case_01_2_in = vec![0b01111111u8, 0xff];
    assert_eq!(
        encoded_length(&case_01_2_in, 0).unwrap(),
        (EncodedLength::I(16383, vec![0b01111111, 0xff]), 2)
    );

    let case_10_1_in = vec![0b10000000u8, 0x00, 0x00, 0x40, 0x00];
    assert_eq!(
        encoded_length(&case_10_1_in, 0).unwrap(),
        (
            EncodedLength::I(16384, vec![0b10000000, 0x00, 0x00, 0x40, 0x00]),
            5
        )
    );

    let case_10_2_in = vec![0b10000000u8, 0xff, 0xff, 0xff, 0xff];
    assert_eq!(
        encoded_length(&case_10_2_in, 0).unwrap(),
        (
            EncodedLength::I(4294967295, vec![0b10000000, 0xff, 0xff, 0xff, 0xff]),
            5
        )
    );

    let case_11_1_in = vec![0b11000000u8];
    assert_eq!(
        encoded_length(&case_11_1_in, 0).unwrap(),
        (EncodedLength::S(0, vec![0b11000000]), 1)
    );

    let case_11_2_in = vec![0b11000011u8];
    assert_eq!(
        encoded_length(&case_11_2_in, 0).unwrap(),
        (EncodedLength::S(3, vec![0b11000011]), 1)
    );
}

#[test]
fn encoded_string_test() {
    let case_raw_1_in = vec![0b00000001u8, 0x30];
    let case_raw_1_result = EncodedString::Raw(EncodedLength::I(1, vec![0x01]), vec![0x30]);
    assert_eq!(
        encoded_string(&case_raw_1_in, 0).unwrap(),
        (case_raw_1_result, 2)
    );

    let case_int_1_in = vec![0b11000000u8, 0x30, 0x00, 0x00, 0x00];
    let case_int_1_result = EncodedString::Int(EncodedLength::S(0, vec![0xc0]), vec![0x30]);
    assert_eq!(
        encoded_string(&case_int_1_in, 0).unwrap(),
        (case_int_1_result, 2)
    );

    let case_int_2_in = vec![0b11000001u8, 0x30, 0x00, 0x00, 0x00];
    let case_int_2_result = EncodedString::Int(EncodedLength::S(1, vec![0xc1]), vec![0x30, 0x00]);
    assert_eq!(
        encoded_string(&case_int_2_in, 0).unwrap(),
        (case_int_2_result, 3)
    );

    let case_int_3_in = vec![0b11000010u8, 0x30, 0x00, 0x00, 0x00];
    let case_int_3_result = EncodedString::Int(
        EncodedLength::S(2, vec![0xc2]),
        vec![0x30, 0x00, 0x00, 0x00],
    );
    assert_eq!(
        encoded_string(&case_int_3_in, 0).unwrap(),
        (case_int_3_result, 5)
    );

    let case_lzf_1_in = vec![0b11000011u8, 0b00000001, 0b00000001, 0x30];
    let case_lzf_1_result = EncodedString::Lzf(
        EncodedLength::S(3, vec![0xc3]),
        EncodedLength::I(1, vec![0x01]),
        EncodedLength::I(1, vec![0x01]),
        vec![0x30],
    );
    assert_eq!(
        encoded_string(&case_lzf_1_in, 0).unwrap(),
        (case_lzf_1_result, 4)
    );
}

#[test]
fn decode_encoded_string_test() {
    let case_1 = vec![
        0xc3, // length prefix: special 3, LZF
        0x0e, // compressed length 14
        0x21, // uncompressed length 33
        0x01, 0x61, 0x61, // literal aa
        0xe0, 0x05, 0x00, // back-reference
        0x00, 0x31, // literal 1
        0xe0, 0x05, 0x0e, // back-reference
        0x01, 0x61, 0x61, // literal aa
    ];
    match encoded_string(&case_1, 0) {
        Ok((e, _)) => match String::decode(&e) {
            Ok(s) => assert_eq!(s, "aaaaaaaaaaaaaaaa1aaaaaaaaaaaaaaaa".to_string()),
            _ => assert!(false),
        },
        _ => assert!(false),
    }
}

#[test]
fn rdb_serde_test() {
    let case_1 = vec![
        0x52, 0x45, 0x44, 0x49, 0x53, 0x30, 0x30, 0x30, 0x36, // REDIS0006
        0xfe, 0x00, // database number 0
        VT_LIST, 0x01, 0x30, 0x02, 0x01, 0x31, 0x01, 0x32, 0xfc, 0x00, 0x00, 0x00, 0x00, 0x00,
        0x00, 0x00, 0xff, VT_SET, 0x01, 0x31, 0x02, 0x01, 0x31, 0x01, 0x32, 0xfd, 0x00, 0x00,
        0x00, 0xff, VT_SORTEDSET, 0x01, 0x31, 0x02, 0x01, 0x31, 0x04, 0x00, 0x00, 0x00, 0x00,
        0x01, 0x32, 0x04, 0x00, 0x00, 0x00, 0x00, 0xff, // end of rdb
        0x00, 0x00, 0x00, 0x00, 0x00, 0x00, 0x00, 0x00, // checksum
    ];
    let mut case_1_ser = Vec::new();
    match rdb(&case_1) {
        Ok(tree) => {
            tree.ser(&mut case_1_ser);
            assert_eq!(&case_1[..], &case_1_ser[..]);
        }
        _ => assert!(false),
    }
}

#[test]
fn encoded_string_rejects_unknown_special() {
    let input = vec![0xc4u8, 0x00];
    assert_eq!(encoded_string(&input, 0), Err(RdbError::ParseError));
}

#[test]
fn decode_integer_keys() {
    // one byte, 0x30 = 48
    let (e, _) = encoded_string(&vec![0xc0u8, 0x30], 0).unwrap();
    assert_eq!(String::decode(&e).unwrap(), "48");
    // two bytes fold big-endian: 0x01 0x00 = 256
    let (e, _) = encoded_string(&vec![0xc1u8, 0x01, 0x00], 0).unwrap();
    assert_eq!(String::decode(&e).unwrap(), "256");
    // four bytes of 0xff fold to -1 in a 32-bit accumulator
    let (e, _) = encoded_string(&vec![0xc2u8, 0xff, 0xff, 0xff, 0xff], 0).unwrap();
    assert_eq!(String::decode(&e).unwrap(), "-1");
}

#[test]
fn decode_invalid_utf8_is_lossy() {
    // raw 2-byte payload: an invalid byte, then 'a'
    let (e, _) = encoded_string(&vec![0x02u8, 0xff, 0x61], 0).unwrap();
    assert_eq!(String::decode(&e).unwrap(), "\u{fffd}a");
}

#[test]
fn decode_bad_lzf_is_decode_error() {
    // compressed payload 0x20 0x00: a back-reference into an empty output
    let (e, _) = encoded_string(&vec![0xc3u8, 0x02, 0x02, 0x20, 0x00], 0).unwrap();
    assert_eq!(String::decode(&e), Err(RdbError::DecodeError));
}

#[test]
fn lzf_decode_test_vector() {
    let payload = vec![
        0x01u8, 0x61, 0x61, 0xe0, 0x05, 0x00, 0x00, 0x31, 0xe0, 0x05, 0x0e, 0x01, 0x61, 0x61,
    ];
    let out = rmerger::lzf::lzf_decode(&payload).unwrap();
    assert_eq!(out, b"aaaaaaaaaaaaaaaa1aaaaaaaaaaaaaaaa".to_vec());
}

#[test]
fn length_node_to_u32() {
    assert_eq!(u32::from(EncodedLength::I(5, vec![0x05])), 5);
    assert_eq!(u32::from(EncodedLength::S(3, vec![0xc3])), 0);
}

#[test]
fn version_to_string() {
    let (tree, _) = rmerger::parser::database_number(&vec![0xfeu8, 0x07], 0).unwrap();
    assert_eq!(tree.1, 7);
    let v = rmerger::parser::RDBVersion(vec![0x30, 0x30, 0x30, 0x36]);
    assert_eq!(v.to_string(), "REDIS0006");
}

#[test]
fn record_with_expiry_round_trip() {
    let input = vec![
        0xfcu8, 1, 2, 3, 4, 5, 6, 7, 8, // expiry in milliseconds
        VT_STRING, 0x01, 0x4b, 0x01, 0x76, // key "K", value "v"
    ];
    let (rec, end) = record(&input, 0).unwrap();
    assert_eq!(end, input.len());
    assert_eq!(rec.2, Some(ExpiryTime::MilliSec(vec![1, 2, 3, 4, 5, 6, 7, 8])));
    let mut out = Vec::new();
    let n = rec.ser(&mut out);
    assert_eq!(n, input.len());
    assert_eq!(out, input);
}

#[test]
fn hashmap_and_packed_values_round_trip() {
    let input = vec![
        0x52u8, 0x45, 0x44, 0x49, 0x53, 0x30, 0x30, 0x30, 0x36, // REDIS0006
        0xfe, 0x05, // database number 5
        0x04, 0x01, 0x68, 0x02, 0x01, 0x61, 0x01, 0x62, 0x01, 0x63, 0x01,
        0x64, // hashmap "h": {a: b, c: d}
        0x0a, 0x01, 0x7a, 0x03, 0x01, 0x02, 0x03, // ziplist "z" with opaque payload
        0x0b, 0x01, 0x69, 0x02, 0x04, 0x05, // intset "i" with opaque payload
        0x0c, 0x01, 0x73, 0x01, 0x06, // sorted-set ziplist "s"
        0x0d, 0x01, 0x6d, 0x01, 0x07, // hashmap ziplist "m"
        0xff,
    ];
    let tree = rdb(&input).unwrap();
    assert_eq!(tree.1.len(), 1);
    assert_eq!(tree.1[0].0 .1, 5);
    assert_eq!(tree.1[0].1.len(), 5);
    let mut out = Vec::new();
    tree.ser(&mut out);
    assert_eq!(out, input);
}

#[test]
fn length_prefix_forms_decode_alike() {
    // 63 in its 1-, 2- and 5-byte forms all decode to the same integer
    let one = encoded_length(&vec![0x3fu8], 0).unwrap().0;
    let two = encoded_length(&vec![0x40u8, 0x3f], 0).unwrap().0;
    let five = encoded_length(&vec![0x80u8, 0x00, 0x00, 0x00, 0x3f], 0).unwrap().0;
    assert_eq!(u32::from(one), 63);
    assert_eq!(u32::from(two), 63);
    assert_eq!(u32::from(five), 63);
}

#[test]
fn rdb_rejects_bad_framing() {
    // wrong magic
    assert_eq!(
        rdb(&b"RADIS0006\xff".to_vec()),
        Err(RdbError::ParseError)
    );
    // too short
    assert_eq!(rdb(&vec![0x52u8, 0x45]), Err(RdbError::ParseError));
    // missing terminator
    assert_eq!(rdb(&b"REDIS0006".to_vec()), Err(RdbError::ParseError));
    // trailing garbage that is neither empty nor an 8-byte checksum
    assert_eq!(
        rdb(&b"REDIS0006\xff\x00".to_vec()),
        Err(RdbError::ParseError)
    );
    // the empty snapshot with terminator alone is fine
    assert!(rdb(&b"REDIS0006\xff".to_vec()).is_ok());
}
