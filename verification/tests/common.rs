use simd_base64::common::{
    bits, bits_simd, bits_slice, pad_with_trailing_eq, remove_trailing_eq, SEXTET_DIGITS_OFFSET,
    SEXTET_LOWERS_OFFSET, SEXTET_PLUS_OFFSET, SEXTET_SLASH_OFFSET, SEXTET_UPPERS_OFFSET,
};

#[test]
fn trailing_padding_comes_off() {
    assert_eq!(remove_trailing_eq(b"QUJD"), b"QUJD");
    assert_eq!(remove_trailing_eq(b"QUI="), b"QUI");
    assert_eq!(remove_trailing_eq(b"QQ=="), b"QQ");
    assert_eq!(remove_trailing_eq(b"Q==="), b"Q=");
    assert_eq!(remove_trailing_eq(b"="), b"");
    assert_eq!(remove_trailing_eq(b"=="), b"");
    assert_eq!(remove_trailing_eq(b""), b"");
    assert_eq!(remove_trailing_eq(b"=A"), b"=A");
}

#[test]
fn padding_goes_on_by_length() {
    for (len, pads) in [(0usize, 0usize), (1, 2), (2, 1), (3, 0), (4, 2), (5, 1), (6, 0)] {
        let mut out = vec![b'x'];
        pad_with_trailing_eq(len, &mut out);
        assert_eq!(out.len(), 1 + pads);
        assert_eq!(out[0], b'x');
        assert!(out[1..].iter().all(|b| *b == b'='));
    }
}

#[test]
fn bits_of_a_word() {
    assert_eq!(bits(0x0102_0304), "00000001 00000010 00000011 00000100");
    assert_eq!(bits(0), "00000000 00000000 00000000 00000000");
    assert_eq!(bits(u32::MAX), "11111111 11111111 11111111 11111111");
    assert_eq!(bits(0x8000_0001), "10000000 00000000 00000000 00000001");
}

#[test]
fn bits_of_bytes() {
    assert_eq!(bits_slice(&[]), "");
    assert_eq!(bits_slice(&[0xa5]), "10100101");
    assert_eq!(bits_slice(&[255, 0, 5]), "11111111 00000000 00000101");
    assert_eq!(bits_simd([1u8, 2, 3, 4]), "00000001 00000010 00000011 00000100");
}

#[test]
fn classes_begin_where_they_should() {
    let alphabet = b"ABCDEFGHIJKLMNOPQRSTUVWXYZabcdefghijklmnopqrstuvwxyz0123456789+/";
    assert_eq!(alphabet[SEXTET_UPPERS_OFFSET as usize], b'A');
    assert_eq!(alphabet[SEXTET_LOWERS_OFFSET as usize], b'a');
    assert_eq!(alphabet[SEXTET_DIGITS_OFFSET as usize], b'0');
    assert_eq!(alphabet[SEXTET_PLUS_OFFSET as usize], b'+');
    assert_eq!(alphabet[SEXTET_SLASH_OFFSET as usize], b'/');
}
