use simd_base64::base64;
use simd_base64::base64_simd::{
    decode, decode_hot, decoded_len, encode, encode_hot, encoded_len, masked_splat, repeated,
    resize, shuffle, validate,
};

fn encode_decode_with_expected<const N: usize>(message: &[u8], encoded_expected: Option<&[u8]>) {
    let mut buffer = Vec::new();

    buffer.clear();
    encode::<N>(message, &mut buffer);
    let encoded = buffer.clone();
    if let Some(encoded_expected) = encoded_expected {
        assert_eq!(encoded_expected, encoded);
    }

    buffer.clear();
    decode::<N>(&encoded, &mut buffer).unwrap();

    assert_eq!(message, buffer);
}

fn encode_decode<const N: usize>(message: &[u8]) {
    encode_decode_with_expected::<N>(message, None);
}

fn encode_decode_iters<const N: usize>(message: &[u8]) {
    for i in 0..message.len() {
        encode_decode::<N>(&message[..i]);
    }
}

#[test]
fn base64_simd_test_hello_world() {
    let hello = b"Hello, world!";
    let hello_base64 = b"SGVsbG8sIHdvcmxkIQ==";

    encode_decode_with_expected::<8>(hello, Some(hello_base64));
    encode_decode_with_expected::<16>(hello, Some(hello_base64));
    encode_decode_with_expected::<32>(hello, Some(hello_base64));
}

#[test]
fn test_invalid() {
    let mut result = Vec::new();
    let res = decode::<8>(b"invalid_base64_$", &mut result);
    assert!(res.is_err());
}

#[test]
fn base64_simd_test_encode_decode() {
    let message = b"123456790";
    encode_decode_iters::<8>(message);
    encode_decode_iters::<16>(message);
    encode_decode_iters::<32>(message);
}

fn sample(len: usize) -> Vec<u8> {
    (0..len).map(|i| (i * 37 + 11) as u8).collect()
}

fn agrees_with_scalar<const N: usize>(upto: usize) {
    for len in 0..upto {
        let data = sample(len);
        let mut scalar = Vec::new();
        base64::encode(&data, &mut scalar);
        let mut lanes = Vec::new();
        encode::<N>(&data, &mut lanes);
        assert_eq!(lanes, scalar);
        if N > 4 && N <= 192 {
            let mut scalar_back = Vec::new();
            base64::decode(&scalar, &mut scalar_back).unwrap();
            let mut lanes_back = Vec::new();
            decode::<N>(&scalar, &mut lanes_back).unwrap();
            assert_eq!(lanes_back, scalar_back);
            assert_eq!(lanes_back, data);
        }
    }
}

#[test]
fn lanes_agree_with_scalar_at_every_remainder() {
    agrees_with_scalar::<4>(3 * 4 + 4);
    agrees_with_scalar::<8>(3 * 8 + 8);
    agrees_with_scalar::<16>(3 * 16 + 16);
    agrees_with_scalar::<32>(3 * 32 + 32);
    agrees_with_scalar::<64>(3 * 64 + 64);
}

#[test]
fn lanes_agree_with_scalar_at_odd_and_widest_widths() {
    agrees_with_scalar::<12>(3 * 12 + 12);
    agrees_with_scalar::<20>(3 * 20 + 20);
    agrees_with_scalar::<128>(2 * 128 + 7);
    agrees_with_scalar::<192>(2 * 192 + 7);
    agrees_with_scalar::<252>(2 * 252 + 7);
}

#[test]
fn lanes_encode_every_sextet() {
    let data: Vec<u8> = (0..=255u8).flat_map(|b| [b, b.wrapping_mul(7), !b]).collect();
    let mut scalar = Vec::new();
    base64::encode(&data, &mut scalar);
    for s in b"ABCDEFGHIJKLMNOPQRSTUVWXYZabcdefghijklmnopqrstuvwxyz0123456789+/" {
        assert!(scalar.contains(s));
    }
    let mut out = Vec::new();
    encode::<4>(&data, &mut out);
    assert_eq!(out, scalar);
    out.clear();
    encode::<8>(&data, &mut out);
    assert_eq!(out, scalar);
    out.clear();
    encode::<16>(&data, &mut out);
    assert_eq!(out, scalar);
    out.clear();
    encode::<32>(&data, &mut out);
    assert_eq!(out, scalar);
    let mut back = Vec::new();
    decode::<8>(&scalar, &mut back).unwrap();
    assert_eq!(back, data);
    back.clear();
    decode::<16>(&scalar, &mut back).unwrap();
    assert_eq!(back, data);
    back.clear();
    decode::<32>(&scalar, &mut back).unwrap();
    assert_eq!(back, data);
}

#[test]
fn lanes_known_vectors() {
    let mut out = Vec::new();
    encode::<4>(b"Hello, world!", &mut out);
    assert_eq!(out, b"SGVsbG8sIHdvcmxkIQ==");
    out.clear();
    encode::<16>(b"", &mut out);
    assert_eq!(out, b"");
    decode::<16>(b"", &mut out).unwrap();
    assert_eq!(out, b"");
    encode::<8>(&[0xfb, 0xff, 0xbf], &mut out);
    assert_eq!(out, b"+/+/");
    out.clear();
    decode::<8>(b"+/+/", &mut out).unwrap();
    assert_eq!(out, [0xfb, 0xff, 0xbf]);
}

#[test]
fn lanes_append_to_what_is_there() {
    let mut out = b"x:".to_vec();
    encode::<8>(b"abcdefgh", &mut out);
    assert_eq!(out, b"x:YWJjZGVmZ2g=");
    let mut bytes = vec![7u8, 8];
    decode::<8>(b"YWJjZGVmZ2g=", &mut bytes).unwrap();
    assert_eq!(bytes, b"\x07\x08abcdefgh");
}

#[test]
fn lanes_padding_by_remainder() {
    let mut out = Vec::new();
    encode::<8>(b"abcdef", &mut out);
    assert_eq!(out, b"YWJjZGVm");
    out.clear();
    encode::<8>(b"abcdefg", &mut out);
    assert_eq!(out, b"YWJjZGVmZw==");
    out.clear();
    encode::<8>(b"abcdefgh", &mut out);
    assert_eq!(out, b"YWJjZGVmZ2g=");
}

#[test]
fn lanes_rejection_leaves_the_buffer() {
    let mut out = vec![1u8, 2, 3];
    assert_eq!(decode::<8>(b"QUJDRE$G", &mut out), Err("wrong base64"));
    assert_eq!(out, [1, 2, 3]);
    assert_eq!(decode::<16>(b"QUJDQUJDQUJDQUJDQUJDQUJDQUJ$", &mut out), Err("wrong base64"));
    assert_eq!(out, [1, 2, 3]);
    assert_eq!(decode::<32>(b"invalid_base64_$", &mut out), Err("wrong base64"));
    assert_eq!(decode::<16>(b"invalid_base64_$", &mut out), Err("wrong base64"));
    assert_eq!(decode::<8>(b"QQ==QUJD", &mut out), Err("wrong base64"));
    assert_eq!(decode::<8>(b"Q===", &mut out), Err("wrong base64"));
    assert_eq!(out, [1, 2, 3]);
}

#[test]
fn lanes_reject_every_foreign_byte() {
    for b in 0..=255u8 {
        let symbol = b.is_ascii_alphanumeric() || b == b'+' || b == b'/';
        let mut text = b"QUJDQUJDQUJD".to_vec();
        text[5] = b;
        let mut out = Vec::new();
        assert_eq!(decode::<8>(&text, &mut out).is_ok(), symbol);
        assert_eq!(decode::<16>(&text, &mut out).is_ok(), symbol);
        assert_eq!(decode::<32>(&text, &mut out).is_ok(), symbol);
        assert_eq!(base64::decode(&text, &mut out).is_ok(), symbol);
        assert_eq!(validate::<8>([b'A', b'z', b'0', b'9', b'+', b'/', b, b'Q']), symbol);
    }
}

#[test]
fn lanes_flag_stays_up_after_a_good_chunk() {
    let mut out = Vec::new();
    assert!(decode::<8>(b"QUJ$QUJDQUJDQUJDQUJD", &mut out).is_err());
    assert!(out.is_empty());
}

#[test]
fn lanes_lone_last_symbol_gives_one_byte() {
    let mut out = Vec::new();
    decode::<8>(b"QUJDR", &mut out).unwrap();
    assert_eq!(out, [b'A', b'B', b'C', 0x44]);
}

#[test]
fn lanes_length_formulas() {
    for n in 0..200usize {
        assert_eq!(decoded_len(n), base64::decoded_len(n));
        assert_eq!(encoded_len(n), base64::encoded_len(n));
        assert_eq!(decoded_len(encoded_len(n)), n);
    }
    assert_eq!(encoded_len(1), 2);
    assert_eq!(encoded_len(2), 3);
    assert_eq!(encoded_len(3), 4);
    assert_eq!(decoded_len(2), 1);
    assert_eq!(decoded_len(3), 2);
    assert_eq!(decoded_len(4), 3);
    assert_eq!(decoded_len(8), 6);
}

#[test]
fn hot_decode_of_one_vector() {
    let (bytes, ok) = decode_hot::<8>(*b"SGVsbG8s");
    assert!(ok);
    assert_eq!(bytes, *b"Hello,\0\0");
    let (bytes, ok) = decode_hot::<8>(*b"SGVs$G8s");
    assert!(!ok);
    assert_eq!(&bytes[..3], b"Hel");
    assert_eq!(&bytes[6..], [0, 0]);
}

#[test]
fn hot_encode_of_one_vector() {
    assert_eq!(encode_hot::<8>(*b"Hello,zz"), *b"SGVsbG8s");
    assert_eq!(encode_hot::<4>([0xfb, 0xff, 0xbf, 9]), *b"+/+/");
}

#[test]
fn helpers_lane_by_lane() {
    assert_eq!(repeated::<u8, 8>(&[1, 2, 3]), [1, 2, 3, 1, 2, 3, 1, 2]);
    assert_eq!(resize::<4, 8>([1, 2, 3, 4]), [1, 2, 3, 4, 0, 0, 0, 0]);
    assert_eq!(resize::<8, 4>([1, 2, 3, 4, 5, 6, 7, 8]), [1, 2, 3, 4]);
    assert_eq!(shuffle::<4, 8>([10, 11, 12, 13], [3, 0, 4, 255, 1, 2, 8, 7]), [13, 10, 0, 0, 11, 12, 0, 0]);
    assert_eq!(shuffle::<8, 4>([10, 11, 12, 13, 14, 15, 16, 17], [7, 8, 0, 5]), [17, 0, 10, 15]);
    assert_eq!(masked_splat::<4>([true, false, false, true], 9), [9, 0, 0, 9]);
}
