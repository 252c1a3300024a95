use simd_base64::base64::{decode, decoded_len, encode, encoded_len, sextet_to_ascii};

#[test]
fn base64_test_hello_world() {
    let hello = b"Hello, world!";
    let hello_base64 = b"SGVsbG8sIHdvcmxkIQ==";

    let mut result = Vec::new();

    encode(hello, &mut result);
    assert_eq!(result, hello_base64);

    result.clear();

    decode(hello_base64, &mut result).unwrap();
    assert_eq!(result, hello);
}

#[test]
fn base64_test_encode_decode() {
    let message = b"0123456789";
    let mut buffer = Vec::new();

    for i in 0..message.len() {
        let message = &message[..i];

        buffer.clear();
        encode(message, &mut buffer);
        let encoded = buffer.clone();
        buffer.clear();
        decode(&encoded, &mut buffer).unwrap();

        assert_eq!(message, buffer);
    }
}

#[test]
fn scalar_empty_input() {
    let mut out = Vec::new();
    encode(b"", &mut out);
    assert_eq!(out, b"");
    decode(b"", &mut out).unwrap();
    assert_eq!(out, b"");
}

#[test]
fn scalar_appends_to_what_is_there() {
    let mut out = b"x:".to_vec();
    encode(b"ab", &mut out);
    assert_eq!(out, b"x:YWI=");
    let mut bytes = vec![7u8];
    decode(b"YWI=", &mut bytes).unwrap();
    assert_eq!(bytes, [7, b'a', b'b']);
}

#[test]
fn scalar_padding_by_remainder() {
    let mut out = Vec::new();
    encode(b"abc", &mut out);
    assert_eq!(out, b"YWJj");
    out.clear();
    encode(b"a", &mut out);
    assert_eq!(out, b"YQ==");
    out.clear();
    encode(b"ab", &mut out);
    assert_eq!(out, b"YWI=");
}

#[test]
fn scalar_uses_every_class_of_symbol() {
    let mut out = Vec::new();
    encode(&[0xfb, 0xff, 0xbf, 0x00, 0x10, 0x83, 0xd3, 0x5d, 0xb7], &mut out);
    assert_eq!(out, b"+/+/ABCD0123");
    let mut back = Vec::new();
    decode(&out, &mut back).unwrap();
    assert_eq!(back, [0xfb, 0xff, 0xbf, 0x00, 0x10, 0x83, 0xd3, 0x5d, 0xb7]);
}

#[test]
fn scalar_decodes_without_padding() {
    let mut out = Vec::new();
    decode(b"SGVsbG8sIHdvcmxkIQ", &mut out).unwrap();
    assert_eq!(out, b"Hello, world!");
}

#[test]
fn scalar_lone_last_symbol_gives_one_byte() {
    let mut out = Vec::new();
    decode(b"QUJDR", &mut out).unwrap();
    assert_eq!(out, [b'A', b'B', b'C', 0x44]);
}

#[test]
fn scalar_rejects_and_names_the_byte() {
    let mut out = vec![1u8];
    let res = decode(b"QUJDRE$G", &mut out);
    assert_eq!(
        res,
        Err(String::from("[81, 85, 74, 68, 82, 69, 36, 71] is not base64 because of char 36"))
    );
    assert_eq!(out, [1, b'A', b'B', b'C']);
}

#[test]
fn scalar_rejects_padding_inside() {
    let mut out = Vec::new();
    let res = decode(b"QQ==QUJD", &mut out);
    assert_eq!(
        res,
        Err(String::from("[81, 81, 61, 61, 81, 85, 74, 68] is not base64 because of char 61"))
    );
    assert!(out.is_empty());
    assert!(decode(b"Q===", &mut out).is_err());
}

#[test]
fn scalar_rejects_high_bytes() {
    let mut out = Vec::new();
    assert_eq!(
        decode(&[200, 7], &mut out),
        Err(String::from("[200, 7] is not base64 because of char 200"))
    );
}

#[test]
fn scalar_rejects_text_with_foreign_byte() {
    let mut out = Vec::new();
    assert!(decode(b"invalid_base64_$", &mut out).is_err());
}

#[test]
fn scalar_length_formulas() {
    let symbols = [0usize, 2, 3, 4, 6, 7, 8, 10, 11, 12, 14];
    for n in 0..=10usize {
        assert_eq!(encoded_len(n), symbols[n]);
        assert_eq!(decoded_len(encoded_len(n)), n);
        let data = vec![0xa5u8; n];
        let mut out = Vec::new();
        encode(&data, &mut out);
        let pads = [0usize, 2, 1][n % 3];
        assert_eq!(out.len(), encoded_len(n) + pads);
        assert_eq!(out.iter().rev().take_while(|b| **b == b'=').count(), pads);
    }
    assert_eq!(decoded_len(5), 4);
    assert_eq!(decoded_len(1), 1);
}

#[test]
fn scalar_symbol_table() {
    let alphabet = b"ABCDEFGHIJKLMNOPQRSTUVWXYZabcdefghijklmnopqrstuvwxyz0123456789+/";
    for s in 0..64u8 {
        assert_eq!(sextet_to_ascii(s), alphabet[s as usize]);
    }
}
