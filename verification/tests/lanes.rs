use simd_base64::lanes::{
    bitand, bitor, bitor16, load, mask_and, mask_not, mask_to_int, narrow, not, reduce_or,
    rotate_elements_left, rotate_elements_right, select, shl16, shr, shr16, simd_eq, simd_lt,
    splat, swizzle_dyn, widen, wrapping_add, wrapping_sub,
};

#[test]
fn splat_and_load_fill_the_lanes() {
    assert_eq!(splat::<u8, 4>(7), [7, 7, 7, 7]);
    assert_eq!(splat::<u16, 2>(300), [300, 300]);
    assert_eq!(load::<8>(b"abc", b'A'), *b"abcAAAAA");
    assert_eq!(load::<4>(b"abcd", 0), *b"abcd");
    assert_eq!(load::<4>(b"", 9), [9, 9, 9, 9]);
}

#[test]
fn arithmetic_wraps_in_each_lane() {
    assert_eq!(wrapping_add([250u8, 1, 128, 0], [10, 2, 128, 255]), [4, 3, 0, 255]);
    assert_eq!(wrapping_sub([5u8, 47, 0, 200], [10, 240, 1, 200]), [251, 63, 255, 0]);
}

#[test]
fn bits_lane_by_lane() {
    assert_eq!(shr([0xf0u8, 0x2f, 1, 255], [4, 4, 0, 7]), [0x0f, 0x02, 1, 1]);
    assert_eq!(bitand([0xf0u8, 0x0f, 0xaa, 0xff], [0x3c, 0x3c, 0x55, 0x81]), [0x30, 0x0c, 0, 0x81]);
    assert_eq!(bitor([0xf0u8, 0x0f, 0xaa, 0], [0x3c, 0x3c, 0x55, 0]), [0xfc, 0x3f, 0xff, 0]);
    assert_eq!(not([0u8, 0xff, 0xfc, 0x0f]), [0xff, 0, 0x03, 0xf0]);
    assert_eq!(reduce_or([1u8, 2, 4, 0]), 7);
    assert_eq!(reduce_or([0u8, 0, 0, 0]), 0);
}

#[test]
fn sixteen_bit_lanes() {
    assert_eq!(widen([1u8, 255]), [1u16, 255]);
    assert_eq!(narrow([0x1234u16, 0x00ff, 0xff00]), [0x34u8, 0xff, 0]);
    assert_eq!(shl16([0x3fu16, 0xff, 1], [2, 8, 15]), [0xfc, 0xff00, 0x8000]);
    assert_eq!(shr16([0xff00u16, 0x0ff0], [8, 4]), [0xff, 0xff]);
    assert_eq!(bitor16([0x0f00u16, 1], [0x00f0, 2]), [0x0ff0, 3]);
}

#[test]
fn masks_and_selection() {
    let eq = simd_eq([1u8, 2, 3, 4], [1, 0, 3, 0]);
    assert_eq!(eq, [true, false, true, false]);
    let lt = simd_lt([1u8, 2, 3, 4], [2, 2, 2, 5]);
    assert_eq!(lt, [true, false, false, true]);
    assert_eq!(mask_and(eq, lt), [true, false, false, false]);
    assert_eq!(mask_not(eq), [false, true, false, true]);
    assert_eq!(mask_to_int(eq), [255, 0, 255, 0]);
    assert_eq!(select(eq, [10u8, 11, 12, 13], [20, 21, 22, 23]), [10, 21, 12, 23]);
}

#[test]
fn lanes_move() {
    assert_eq!(swizzle_dyn([10u8, 11, 12, 13], [3, 3, 0, 4]), [13, 13, 10, 0]);
    assert_eq!(swizzle_dyn([10u8, 11, 12, 13], [255, 1, 2, 0]), [0, 11, 12, 10]);
    assert_eq!(rotate_elements_left::<u8, 4, 1>([1, 2, 3, 4]), [2, 3, 4, 1]);
    assert_eq!(rotate_elements_right::<u8, 4, 1>([1, 2, 3, 4]), [4, 1, 2, 3]);
    assert_eq!(rotate_elements_left::<u8, 4, 6>([1, 2, 3, 4]), [3, 4, 1, 2]);
    assert_eq!(rotate_elements_right::<u8, 4, 7>([1, 2, 3, 4]), [2, 3, 4, 1]);
    assert_eq!(rotate_elements_left::<u8, 4, 0>([1, 2, 3, 4]), [1, 2, 3, 4]);
}
