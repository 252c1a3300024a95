//! The codec that works a vector of `N` byte lanes at a time.

use vstd::prelude::*;
use vstd::arithmetic::div_mod::{
    lemma_add_mod_noop, lemma_div_pos_is_pos, lemma_fundamental_div_mod, lemma_mod_bound,
    lemma_small_mod,
};
use vstd::arithmetic::mul::lemma_mul_is_commutative;
use crate::alphabet::{is_symbol, sextet_of, symbol_of, DIGIT_0, LOWER_A, PLUS, SLASH, UPPER_A};
use crate::common::{
    pad_with_trailing_eq, remove_trailing_eq, SEXTET_DIGITS_OFFSET, SEXTET_LOWERS_OFFSET,
    SEXTET_PLUS_OFFSET, SEXTET_SLASH_OFFSET, SEXTET_UPPERS_OFFSET,
};
use crate::lanes::{
    bitand, bitor, bitor16, lemma_or_of_zero, load, mask_and, mask_not, mask_to_int, narrow, not,
    reduce_or, rotate_elements_left, rotate_elements_right, select, shl16, shr, shr16,
    simd_eq, simd_lt, splat, swizzle_dyn, widen, wrapping_add, wrapping_sub,
};
use crate::model::{
    all_symbols, byte_or_zero, decoded, decoded_byte, decoded_bytes, decoded_length, encoded,
    encoded_length, lemma_decoded_bytes_grow, padding, quad, sextet_at, sextet_or_zero, stripped,
    symbols, triple,
};

verus! {

/// The number of bytes that `encoded_len` symbols stand for, by arithmetic
/// alone.
pub fn decoded_len(encoded_len: usize) -> (len: usize)
    ensures
        len == decoded_length(encoded_len as nat),
{
    let mod4 = encoded_len % 4;
    let padding = mod4 - mod4 / 2;
    encoded_len / 4 * 3 + padding
}

/// The number of symbols, padding not counted, that stand for `decoded_len`
/// bytes, by arithmetic alone.
pub fn encoded_len(decoded_len: usize) -> (len: usize)
    requires
        encoded_length(decoded_len as nat) <= usize::MAX,
    ensures
        len == encoded_length(decoded_len as nat),
{
    let mod3 = decoded_len % 3;
    let padding = mod3 + (mod3 != 0) as usize;
    decoded_len / 3 * 4 + padding
}

/// The vector whose lanes go through `input` again and again.
pub fn repeated<T: Copy, const N: usize>(input: &[T]) -> (out: [T; N])
    requires
        input@.len() > 0,
    ensures
        forall|i: int| 0 <= i < N ==> #[trigger] out[i] == input@[i % (input@.len() as int)],
{
    let mut output = [input[0];N];
    for i in 0..N
        invariant
            input@.len() > 0,
            forall|j: int| 0 <= j < i ==> output[j] == input@[j % (input@.len() as int)],
    {
        output[i] = input[i % input.len()];
    }
    output
}

/// The first `M` lanes of `v`, with zeros after them where `v` has fewer.
pub fn resize<const N: usize, const M: usize>(v: [u8; N]) -> (out: [u8; M])
    ensures
        forall|i: int|
            0 <= i < M ==> #[trigger] out[i] == if i < N {
                v[i]
            } else {
                0u8
            },
{
    let len = if N < M {
        N
    } else {
        M
    };
    let mut out = [0u8;M];
    for i in 0..len
        invariant
            len <= N,
            len <= M,
            forall|j: int|
                0 <= j < M ==> out[j] == if j < i {
                    v[j]
                } else {
                    0u8
                },
    {
        out[i] = v[i];
    }
    out
}

/// The entry of `table` that each lane of `indices` names, the table taken as
/// followed by zeros without end.
pub fn shuffle<const N: usize, const M: usize>(table: [u8; N], indices: [u8; M]) -> (out: [u8; M])
    ensures
        forall|i: int|
            0 <= i < M ==> #[trigger] out[i] == if indices[i] < N {
                table[indices[i] as int]
            } else {
                0u8
            },
{
    if N < M {
        swizzle_dyn(resize::<N, M>(table), indices)
    } else {
        resize::<N, M>(swizzle_dyn(table, resize::<M, N>(indices)))
    }
}

/// `value` in the lanes that the mask holds, 0 in the others.
pub fn masked_splat<const N: usize>(mask: [bool; N], value: u8) -> (out: [u8; N])
    ensures
        forall|i: int|
            0 <= i < N ==> #[trigger] out[i] == if mask[i] {
                value
            } else {
                0u8
            },
{
    select(mask, splat(value), splat(0))
}

/// What the low nibble of a byte says of it: one bit for each high nibble
/// under which a byte with this low nibble is no symbol.
pub open spec fn lo_lut() -> Seq<u8> {
    seq![
        0b10101u8, 0b10001, 0b10001, 0b10001, 0b10001, 0b10001, 0b10001, 0b10001,
        0b10001, 0b10001, 0b10011, 0b11010, 0b11011, 0b11011, 0b11011, 0b11010,
    ]
}

/// The bit of each high nibble: one for each of the nibbles 2 to 7, under
/// which there are symbols, and one for all the others.
pub open spec fn hi_lut() -> Seq<u8> {
    seq![
        0b10000u8, 0b10000, 0b00001, 0b00010, 0b00100, 0b01000, 0b00100, 0b01000,
        0b10000, 0b10000, 0b10000, 0b10000, 0b10000, 0b10000, 0b10000, 0b10000,
    ]
}

/// Which entries of the two tables have a bit in common.
proof fn lemma_lut_bits(l: u8, h: u8)
    by (bit_vector)
    requires
        l == 21 || l == 17 || l == 19 || l == 26 || l == 27,
        h == 16 || h == 1 || h == 2 || h == 4 || h == 8,
    ensures
        (l & h == 0) <==> ((h == 1 && l == 26) || (h == 2 && (l == 21 || l == 17)) || (h == 4 && l
            != 21) || (h == 8 && (l == 21 || l == 17 || l == 19))),
{
}

/// The two nibbles of a byte.
proof fn lemma_nibbles(b: u8)
    by (bit_vector)
    ensures
        b & 15 == b % 16,
        b >> 4 == b / 16,
{
}

/// The two tables have no bit in common at the nibbles of `b` just when `b`
/// is a symbol.
pub proof fn lemma_lut_tells_symbols(b: u8)
    ensures
        (lo_lut()[(b & 15) as int] & hi_lut()[(b >> 4) as int]) == 0 <==> is_symbol(b),
{
    lemma_nibbles(b);
    let l = lo_lut()[(b & 15) as int];
    let h = hi_lut()[(b >> 4) as int];
    lemma_lut_bits(l, h);
}

/// Whether every lane of `ascii` holds a symbol.
pub fn validate<const N: usize>(ascii: [u8; N]) -> (valid: bool)
    ensures
        valid <==> all_symbols(ascii@),
{
    let lo_lut: [u8; 16] = [
        0b10101, 0b10001, 0b10001, 0b10001, 0b10001, 0b10001, 0b10001, 0b10001,
        0b10001, 0b10001, 0b10011, 0b11010, 0b11011, 0b11011, 0b11011, 0b11010,
    ];
    let hi_lut: [u8; 16] = [
        0b10000, 0b10000, 0b00001, 0b00010, 0b00100, 0b01000, 0b00100, 0b01000,
        0b10000, 0b10000, 0b10000, 0b10000, 0b10000, 0b10000, 0b10000, 0b10000,
    ];
    assert(lo_lut@ =~= self::lo_lut());
    assert(hi_lut@ =~= self::hi_lut());
    let lo = shuffle::<16, N>(lo_lut, bitand(ascii, splat(0x0f)));
    let hi = shuffle::<16, N>(hi_lut, shr(ascii, splat(4)));
    let clash = bitand(lo, hi);
    let valid = reduce_or(clash) == 0;
    proof {
        lemma_or_of_zero(clash@);
        assert forall|i: int| 0 <= i < N implies (clash[i] == 0 <==> is_symbol(ascii[i])) by {
            lemma_lut_tells_symbols(ascii[i]);
            lemma_nibbles(ascii[i]);
        }
        if valid {
            assert forall|i: int| 0 <= i < ascii@.len() implies is_symbol(#[trigger] ascii@[i]) by {
                assert(clash@[i] == 0);
            }
        } else {
            let i = choose|i: int| 0 <= i < clash@.len() && clash@[i] != 0;
            assert(!is_symbol(ascii@[i]));
        }
    }
    valid
}

/// The most lanes that `encode` works at. A shuffle names a lane by one
/// byte, and 255 has to name none.
pub const MAX_ENCODE_WIDTH: usize = 252;

/// The most lanes that `decode` works at. A shuffle names a lane by one
/// byte, and lane `i` of the bytes comes from lane `i + i / 3` of the
/// symbols.
pub const MAX_DECODE_WIDTH: usize = 192;

/// A number of lanes that `encode` works at: a multiple of four, so that
/// whole groups of three bytes fill the lanes.
pub open spec fn encode_width(n: usize) -> bool {
    n % 4 == 0 && 4 <= n <= MAX_ENCODE_WIDTH
}

/// A number of lanes that `decode` works at: a multiple of four, and eight at
/// least, for the eight offsets that a lane picks from.
pub open spec fn decode_width(n: usize) -> bool {
    n % 4 == 0 && 8 <= n <= MAX_DECODE_WIDTH
}

/// Symbols `4 * g .. 4 * g + 4` of `text`, as far as it has them, are symbols.
pub open spec fn group_is_symbols(text: Seq<u8>, g: int) -> bool {
    forall|t: int| 4 * g <= t < 4 * g + 4 && t < text.len() ==> is_symbol(#[trigger] text[t])
}

/// The bucket that a byte falls in: its high nibble, and one less for `/`.
/// The symbols fall in buckets 1 to 7: `/`, `+`, the digits, and two each for
/// the uppercase and the lowercase letters.
pub open spec fn bucket(b: u8) -> u8 {
    (b >> 4).wrapping_add(
        if b == SLASH {
            255u8
        } else {
            0u8
        },
    )
}

/// For each bucket, what a symbol in it is more than its sextet, modulo 256.
pub open spec fn offsets_for_hash() -> Seq<u8> {
    seq![0u8, 240, 237, 252, 65, 65, 71, 71]
}

/// A symbol less the offset of its bucket is its sextet.
proof fn lemma_offset_of_symbol(b: u8)
    requires
        is_symbol(b),
    ensures
        1 <= bucket(b) < 8,
        b.wrapping_sub(offsets_for_hash()[bucket(b) as int]) == sextet_of(b),
{
    lemma_nibbles(b);
}

/// Four sextets, each moved up in sixteen bits by two more than the one
/// before, give the three bytes of their 24 bits: the low half of one with
/// the high half of the next.
proof fn lemma_pack(s0: u8, s1: u8, s2: u8, s3: u8)
    by (bit_vector)
    requires
        s0 < 64,
        s1 < 64,
        s2 < 64,
        s3 < 64,
    ensures
        ({
            let field = s0 as u32 * 262144 + s1 as u32 * 4096 + s2 as u32 * 64 + s3 as u32;
            &&& ((((s0 as u16) << 2) as u8) | ((((s1 as u16) << 4) >> 8) as u8)) as u32 == field
                / 65536 % 256
            &&& ((((s1 as u16) << 4) as u8) | ((((s2 as u16) << 6) >> 8) as u8)) as u32 == field
                / 256 % 256
            &&& ((((s2 as u16) << 6) as u8) | ((((s3 as u16) << 8) >> 8) as u8)) as u32 == field
                % 256
        }),
{
}

/// For each lane of the output, the lane of the packed vector that it takes:
/// every fourth one is passed over.
fn compaction_indices<const N: usize>() -> (out: [u8; N])
    requires
        N <= MAX_DECODE_WIDTH,
    ensures
        forall|i: int| 0 <= i < N ==> #[trigger] out[i] == i + i / 3,
{
    let mut out = [0u8;N];
    for i in 0..N
        invariant
            N <= MAX_DECODE_WIDTH,
            forall|j: int| 0 <= j < i ==> out[j] == j + j / 3,
    {
        out[i] = (i + i / 3) as u8;
    }
    out
}

/// What is left of the byte `b` in a lane of a vector of `width` lanes once
/// the offset of its bucket is taken off: the sextet, where `b` is a symbol.
/// A bucket past the lanes of the vector has offset 0.
pub open spec fn lane_sextet(width: int, b: u8) -> u8 {
    b.wrapping_sub(
        if bucket(b) < width {
            offsets_for_hash()[bucket(b) as int % 8]
        } else {
            0u8
        },
    )
}

/// The content `s` of lane `i` in sixteen bits, moved up by 2, 4, 6 or 8 bits
/// as the lane is the first, second, third or fourth of its group.
pub open spec fn lane_shifted(s: u8, i: int) -> u16 {
    (s as u16) << ((2 * (i % 4) + 2) as u16)
}

/// Lane `k` of what `decode_hot` makes of the lanes `ascii`: the low half of
/// one shifted lane with the high half of the next, every fourth lane passed
/// over, and 0 once the lanes are used up.
pub open spec fn hot_byte(ascii: Seq<u8>, k: int) -> u8 {
    let width = ascii.len() as int;
    let i = k + k / 3;
    if i < width {
        (lane_shifted(lane_sextet(width, ascii[i]), i) as u8) | ((lane_shifted(
            lane_sextet(width, ascii[i + 1]),
            i + 1,
        ) >> 8) as u8)
    } else {
        0u8
    }
}

/// In a group of four symbols, what `decode_hot` makes of the lanes are the
/// bytes that the symbols stand for.
pub proof fn lemma_hot_byte_of_symbols(ascii: Seq<u8>, k: int)
    requires
        ascii.len() % 4 == 0,
        8 <= ascii.len(),
        0 <= k < ascii.len() / 4 * 3,
        group_is_symbols(ascii, k / 3),
    ensures
        hot_byte(ascii, k) == decoded_byte(ascii, k),
{
    let width = ascii.len() as int;
    let g = k / 3;
    assert(is_symbol(ascii[4 * g]));
    assert(is_symbol(ascii[4 * g + 1]));
    assert(is_symbol(ascii[4 * g + 2]));
    assert(is_symbol(ascii[4 * g + 3]));
    lemma_offset_of_symbol(ascii[4 * g]);
    lemma_offset_of_symbol(ascii[4 * g + 1]);
    lemma_offset_of_symbol(ascii[4 * g + 2]);
    lemma_offset_of_symbol(ascii[4 * g + 3]);
    let s0 = lane_sextet(width, ascii[4 * g]);
    let s1 = lane_sextet(width, ascii[4 * g + 1]);
    let s2 = lane_sextet(width, ascii[4 * g + 2]);
    let s3 = lane_sextet(width, ascii[4 * g + 3]);
    assert(s0 == sextet_or_zero(ascii, 4 * g));
    assert(s1 == sextet_or_zero(ascii, 4 * g + 1));
    assert(s2 == sextet_or_zero(ascii, 4 * g + 2));
    assert(s3 == sextet_or_zero(ascii, 4 * g + 3));
    lemma_pack(s0, s1, s2, s3);
    assert(lane_shifted(s0, 4 * g) == (s0 as u16) << 2);
    assert(lane_shifted(s1, 4 * g + 1) == (s1 as u16) << 4);
    assert(lane_shifted(s2, 4 * g + 2) == (s2 as u16) << 6);
    assert(lane_shifted(s3, 4 * g + 3) == (s3 as u16) << 8);
}

/// Decodes one vector of symbols. The flag says whether all lanes held
/// symbols. Each lane of the vector that comes back is told by `hot_byte`:
/// the first `N / 4 * 3` lanes hold, for each group of four lanes in which
/// all are symbols, the three bytes that the group stands for, and the other
/// lanes hold 0.
pub fn decode_hot<const N: usize>(ascii: [u8; N]) -> (out: ([u8; N], bool))
    requires
        decode_width(N),
    ensures
        out.1 <==> all_symbols(ascii@),
        forall|k: int| 0 <= k < N ==> #[trigger] out.0[k] == hot_byte(ascii@, k),
        forall|k: int|
            0 <= k < N / 4 * 3 && group_is_symbols(ascii@, k / 3) ==> #[trigger] out.0[k]
                == decoded_byte(ascii@, k),
        forall|k: int| N / 4 * 3 <= k < N ==> out.0[k] == 0,
{
    let hashes = wrapping_add(shr(ascii, splat(4)), mask_to_int(simd_eq(ascii, splat(SLASH))));

    let offsets_for_hash: [u8; 8] = [
        0,
        SLASH.wrapping_sub(SEXTET_SLASH_OFFSET),
        PLUS.wrapping_sub(SEXTET_PLUS_OFFSET),
        DIGIT_0.wrapping_sub(SEXTET_DIGITS_OFFSET),
        UPPER_A.wrapping_sub(SEXTET_UPPERS_OFFSET),
        UPPER_A.wrapping_sub(SEXTET_UPPERS_OFFSET),
        LOWER_A.wrapping_sub(SEXTET_LOWERS_OFFSET),
        LOWER_A.wrapping_sub(SEXTET_LOWERS_OFFSET),
    ];
    assert(offsets_for_hash@ =~= self::offsets_for_hash());
    let offsets_for_hash: [u8; N] = repeated(&offsets_for_hash);

    let offsets = swizzle_dyn(offsets_for_hash, hashes);
    let sextets = wrapping_sub(ascii, offsets);

    let ok = validate(ascii);

    let shifts: [u16; 4] = [2, 4, 6, 8];
    let shifted = shl16(widen(sextets), repeated(&shifts));
    let lo = narrow(shifted);
    let hi = narrow(shr16(shifted, splat(8)));

    let packed_chunks = bitor(lo, rotate_elements_left::<u8, N, 1>(hi));

    let indices: [u8; N] = compaction_indices();
    let output = swizzle_dyn(packed_chunks, indices);

    proof {
        assert forall|i: int| 0 <= i < N implies #[trigger] shifted[i] == lane_shifted(
            lane_sextet(N as int, ascii[i]),
            i,
        ) by {
            assert(hashes[i] == bucket(ascii[i]));
            assert(sextets[i] == lane_sextet(N as int, ascii[i]));
        }
        assert forall|k: int| 0 <= k < N implies #[trigger] output[k] == hot_byte(ascii@, k) by {
            let i = k + k / 3;
            assert(indices[k] == i);
            if i < N {
                assert(i % 4 != 3);
                assert(i + 1 < N);
                assert((i + 1) % (N as int) == i + 1) by {
                    lemma_small_mod((i + 1) as nat, N as nat);
                }
                assert(packed_chunks[i] == lo[i] | hi[i + 1]);
            }
        }
        assert forall|k: int|
            0 <= k < N / 4 * 3 && group_is_symbols(ascii@, k / 3) implies #[trigger] output[k]
            == decoded_byte(ascii@, k) by {
            lemma_hot_byte_of_symbols(ascii@, k);
        }
    }
    (output, ok)
}

/// Three bytes spread over four lanes, and the part of each lane that goes
/// to each sextet: the high bits stay, the low bits go to the next lane,
/// above what stays there.
proof fn lemma_unpack(b0: u8, b1: u8, b2: u8)
    by (bit_vector)
    ensures
        ({
            let field = b0 as u32 * 65536 + b1 as u32 * 256 + b2 as u32;
            &&& (((((0u8 & !0u8) as u16) << 8) | ((b0 & 0b11111100u8) as u16)) >> 2) as u8 as u32
                == field / 262144 % 64
            &&& (((((b0 & !0b11111100u8) as u16) << 8) | ((b1 & 0b11110000u8) as u16)) >> 4) as u8 as u32
                == field / 4096 % 64
            &&& (((((b1 & !0b11110000u8) as u16) << 8) | ((b2 & 0b11000000u8) as u16)) >> 6) as u8 as u32
                == field / 64 % 64
            &&& (((((b2 & !0b11000000u8) as u16) << 8) | ((0u8 & 0u8) as u16)) >> 8) as u8 as u32
                == field % 64
        }),
{
}

/// For each lane, the byte of the input that it takes: three bytes go to
/// three lanes, and the fourth lane names no byte and so gets 0.
fn spread_indices<const N: usize>() -> (out: [u8; N])
    requires
        N <= MAX_ENCODE_WIDTH,
    ensures
        forall|i: int|
            0 <= i < N ==> #[trigger] out[i] == if i % 4 == 3 {
                255
            } else {
                i - i / 4
            },
{
    let mut out = [0u8;N];
    for i in 0..N
        invariant
            N <= MAX_ENCODE_WIDTH,
            forall|j: int|
                0 <= j < i ==> out[j] == if j % 4 == 3 {
                    255
                } else {
                    j - j / 4
                },
    {
        out[i] = [(i - i / 4) as u8, !0u8][((i + 1) % 4 == 0) as usize];
        assert(!0u8 == 255) by (bit_vector);
    }
    out
}

/// Encodes one vector of bytes: lane `i` of what it returns holds the symbol
/// of sextet `i` of the input. The input's first `N / 4 * 3` lanes make the
/// `N` sextets; its other lanes are not looked at.
pub fn encode_hot<const N: usize>(bytes: [u8; N]) -> (out: [u8; N])
    requires
        encode_width(N),
    ensures
        forall|i: int| 0 <= i < N ==> #[trigger] out[i] == symbol_of(sextet_at(bytes@, i)),
{
    let indices: [u8; N] = spread_indices();
    let spread = swizzle_dyn(bytes, indices);

    let masks: [u8; 4] = [0b11111100, 0b11110000, 0b11000000, 0];
    let mask: [u8; N] = repeated(&masks);
    let lo = bitand(spread, mask);
    let carried = bitand(spread, not(mask));
    let hi = rotate_elements_right::<u8, N, 1>(carried);
    let shifted = bitor16(shl16(widen(hi), splat(8)), widen(lo));
    let shifts: [u16; 4] = [2, 4, 6, 8];
    let sextets = narrow(shr16(shifted, repeated(&shifts)));

    let uppers = simd_lt(sextets, splat(SEXTET_LOWERS_OFFSET));
    let lowers = mask_and(mask_not(uppers), simd_lt(sextets, splat(SEXTET_DIGITS_OFFSET)));
    let digits = mask_and(
        mask_and(mask_not(uppers), mask_not(lowers)),
        simd_lt(sextets, splat(SEXTET_PLUS_OFFSET)),
    );
    let pluses = simd_eq(sextets, splat(SEXTET_PLUS_OFFSET));
    let slashes = simd_eq(sextets, splat(SEXTET_SLASH_OFFSET));

    let from_uppers = masked_splat(uppers, UPPER_A.wrapping_sub(SEXTET_UPPERS_OFFSET));
    let from_lowers = masked_splat(lowers, LOWER_A.wrapping_sub(SEXTET_LOWERS_OFFSET));
    let from_digits = masked_splat(digits, DIGIT_0.wrapping_sub(SEXTET_DIGITS_OFFSET));
    let from_pluses = masked_splat(pluses, PLUS.wrapping_sub(SEXTET_PLUS_OFFSET));
    let from_slashes = masked_splat(slashes, SLASH.wrapping_sub(SEXTET_SLASH_OFFSET));
    let asciis = wrapping_add(
        wrapping_add(
            wrapping_add(wrapping_add(wrapping_add(sextets, from_uppers), from_lowers), from_digits),
            from_pluses,
        ),
        from_slashes,
    );

    proof {
        assert forall|i: int| 0 <= i < N implies sextets[i] == sextet_at(bytes@, i) by {
            let g = i / 4;
            let p = i % 4;
            assert(g < N / 4);
            let b0 = bytes[3 * g];
            let b1 = bytes[3 * g + 1];
            let b2 = bytes[3 * g + 2];
            lemma_unpack(b0, b1, b2);
            assert(triple(bytes@, g) == b0 * 65536 + b1 * 256 + b2);
            assert(spread[4 * g] == b0);
            assert(spread[4 * g + 1] == b1);
            assert(spread[4 * g + 2] == b2);
            assert(spread[4 * g + 3] == 0);
            assert(mask[4 * g] == 0b11111100u8);
            assert(mask[4 * g + 1] == 0b11110000u8);
            assert(mask[4 * g + 2] == 0b11000000u8);
            assert(mask[4 * g + 3] == 0u8);
            let before = (i + N - 1) % (N as int);
            if i == 0 {
                lemma_small_mod((N - 1) as nat, N as nat);
                assert(before == 4 * (N / 4 - 1) + 3);
            } else {
                lemma_small_mod((i - 1) as nat, N as nat);
                lemma_add_mod_noop(i - 1, N as int, N as int);
                assert(before == i - 1);
            }
            assert(1usize % N == 1) by {
                lemma_small_mod(1, N as nat);
            }
            assert(hi[i] == carried[before]);
            assert(carried[before] == spread[before] & !mask[before]);
            assert(lo[i] == spread[i] & mask[i]);
            assert(shifted[i] == ((hi[i] as u16) << 8) | (lo[i] as u16));
            if p == 0 {
                assert(before % 4 == 3);
                assert(spread[before] == 0);
                assert(mask[before] == 0u8);
                assert(sextets[i] == (shifted[i] >> 2) as u8);
            } else if p == 1 {
                assert(sextets[i] == (shifted[i] >> 4) as u8);
            } else if p == 2 {
                assert(sextets[i] == (shifted[i] >> 6) as u8);
            } else {
                assert(sextets[i] == (shifted[i] >> 8) as u8);
            }
        }
        assert forall|i: int| 0 <= i < N implies #[trigger] asciis[i] == symbol_of(
            sextet_at(bytes@, i),
        ) by {
            assert(sextets[i] == sextet_at(bytes@, i));
            assert(0 <= sextet_at(bytes@, i) < 64);
        }
    }
    asciis
}

/// The sextets of a chunk of `data` that begins a group of three are those
/// of `data` at that place: in every group that lies within the chunk, and
/// in every group at all where the chunk ends `data`.
proof fn lemma_chunk_sextet(data: Seq<u8>, at: int, len: int, lanes: Seq<u8>, i: int)
    requires
        0 <= at,
        at % 3 == 0,
        0 <= len <= lanes.len(),
        at + len <= data.len(),
        forall|m: int|
            0 <= m < lanes.len() ==> #[trigger] lanes[m] == if m < len {
                data[at + m]
            } else {
                0u8
            },
        0 <= i,
        at + len == data.len() || i / 4 * 3 + 2 < len,
    ensures
        sextet_at(lanes, i) == sextet_at(data, at / 3 * 4 + i),
{
    let g = i / 4;
    assert((at / 3 * 4 + i) / 4 == at / 3 + g);
    assert((at / 3 * 4 + i) % 4 == i % 4);
    assert(byte_or_zero(lanes, 3 * g) == byte_or_zero(data, at + 3 * g));
    assert(byte_or_zero(lanes, 3 * g + 1) == byte_or_zero(data, at + 3 * g + 1));
    assert(byte_or_zero(lanes, 3 * g + 2) == byte_or_zero(data, at + 3 * g + 2));
    assert(triple(lanes, g) == triple(data, at / 3 + g));
}

/// The symbols that a chunk of `data` is encoded to follow those of the
/// bytes before it: all lanes of a whole chunk, and of the chunk that ends
/// `data` the lanes that hold its symbols.
proof fn lemma_chunk_symbols(
    data: Seq<u8>,
    at: int,
    len: int,
    bytes: Seq<u8>,
    asciis: Seq<u8>,
    count: int,
)
    requires
        0 <= at,
        at % 3 == 0,
        0 <= len <= bytes.len(),
        bytes.len() == asciis.len(),
        bytes.len() % 4 == 0,
        at + len <= data.len(),
        forall|m: int|
            0 <= m < bytes.len() ==> #[trigger] bytes[m] == if m < len {
                data[at + m]
            } else {
                0u8
            },
        forall|i: int|
            0 <= i < asciis.len() ==> #[trigger] asciis[i] == symbol_of(sextet_at(bytes, i)),
        (len == bytes.len() / 4 * 3 && count == bytes.len()) || (at + len == data.len() && len
            < bytes.len() / 4 * 3 && count == encoded_length(len as nat)),
    ensures
        at / 3 * 4 + count <= symbols(data).len(),
        symbols(data).take(at / 3 * 4 + count) == symbols(data).take(at / 3 * 4) + asciis.take(
            count,
        ),
        len % 3 == 0 ==> (at + len) / 3 * 4 == at / 3 * 4 + count,
        at + len == data.len() && len < bytes.len() / 4 * 3 ==> at / 3 * 4 + count == symbols(
            data,
        ).len(),
{
    let all = symbols(data);
    let done = at / 3 * 4;
    assert(0 <= count <= asciis.len());
    assert forall|i: int| 0 <= i < count implies asciis[i] == all[done + i] by {
        lemma_chunk_sextet(data, at, len, bytes, i);
    }
    assert(all.take(done + count) =~= all.take(done) + asciis.take(count));
}

/// The vector that chunk `c` of `data` is encoded from at `width` lanes: the
/// `width / 4 * 3` bytes of the chunk, as far as `data` has them, and zeros
/// in the lanes after them.
pub open spec fn byte_chunk(width: int, data: Seq<u8>, c: int) -> Seq<u8> {
    let size = width / 4 * 3;
    Seq::new(
        width as nat,
        |m: int|
            if m < size && c * size + m < data.len() {
                data[c * size + m]
            } else {
                0u8
            },
    )
}

/// Symbol `j` of what comes of `data` at `width` lanes: lane `j % width` of
/// what chunk `j / width` is encoded to.
pub open spec fn lane_symbol(width: int, data: Seq<u8>, j: int) -> u8 {
    symbol_of(sextet_at(byte_chunk(width, data, j / width), j % width))
}

/// The text that comes of `data` chunk by chunk at `width` lanes: the lanes
/// of each chunk, those of the last cut after its symbols, then the padding.
#[verifier::opaque]
pub open spec fn lane_encoded(width: int, data: Seq<u8>) -> Seq<u8> {
    Seq::new(encoded_length(data.len()), |j: int| lane_symbol(width, data, j)) + padding(
        data.len(),
    )
}

/// Where place `k` lies when places are counted off in chunks of `size`,
/// `q` to the quarter of a vector.
proof fn lemma_chunk_place(k: int, size: int, q: int)
    requires
        0 <= k,
        0 < q,
        size == 3 * q || size == 4 * q,
    ensures
        0 <= k / size,
        0 <= k % size < size,
        0 <= (k / size) * q,
        size == 3 * q ==> k == 3 * ((k / size) * q) + k % size,
        size == 4 * q ==> k == 4 * ((k / size) * q) + k % size,
        (k / size) * (3 * q) == 3 * ((k / size) * q),
        (k / size) * (4 * q) == 4 * ((k / size) * q),
{
    let c = k / size;
    lemma_fundamental_div_mod(k, size);
    lemma_mod_bound(k, size);
    lemma_div_pos_is_pos(k, size);
    lemma_mul_is_commutative(c, size);
    assert(0 <= c * q) by (nonlinear_arith)
        requires
            0 <= c,
            0 <= q,
    ;
    assert(c * (3 * q) == 3 * (c * q)) by (nonlinear_arith);
    assert(c * (4 * q) == 4 * (c * q)) by (nonlinear_arith);
}

/// Symbol `j` of what comes of the bytes chunk by chunk is symbol `j` of the
/// bytes.
proof fn lemma_lane_symbol(w: int, data: Seq<u8>, j: int)
    requires
        w % 4 == 0,
        4 <= w,
        0 <= j < encoded_length(data.len()),
    ensures
        lane_symbol(w, data, j) == symbol_of(sextet_at(data, j)),
{
    let q = w / 4;
    let size = w / 4 * 3;
    let n = data.len() as int;
    let c = j / w;
    let i = j % w;
    lemma_chunk_place(j, w, q);
    let at = 3 * (c * q);
    assert(c * size == at);
    assert(at <= n);
    let len = if n - at < size {
        n - at
    } else {
        size
    };
    lemma_chunk_sextet(data, at, len, byte_chunk(w, data, c), i);
}

/// At every width, and whatever is left for the last chunk, the text that
/// comes of the bytes chunk by chunk is the text of the bytes.
pub proof fn lemma_lane_encoded(width: usize, data: Seq<u8>)
    requires
        encode_width(width),
    ensures
        lane_encoded(width as int, data) == encoded(data),
{
    let w = width as int;
    assert forall|j: int| 0 <= j < encoded_length(data.len()) implies lane_symbol(w, data, j)
        == symbol_of(sextet_at(data, j)) by {
        lemma_lane_symbol(w, data, j);
    }
    reveal(lane_encoded);
    assert(lane_encoded(w, data) =~= encoded(data));
}

/// Appends the text of `data` to `out`, working `N` lanes at a time: chunks
/// of `N / 4 * 3` bytes go to `N` symbols each, and what is left after the
/// last whole chunk goes through the same lanes, followed by zeros.
#[verifier::rlimit(30)]
pub fn encode<const N: usize>(data: &[u8], out: &mut Vec<u8>)
    requires
        encode_width(N),
    ensures
        final(out)@ == old(out)@ + encoded(data@),
        final(out)@ == old(out)@ + lane_encoded(N as int, data@),
{
    let n = data.len();
    // Room for the symbols and the padding, where their number fits a usize.
    if n / 3 <= (usize::MAX - 5) / 4 {
        let final_size = encoded_len(n);
        out.reserve(final_size + 2);
    }
    let chunk_size = N - N / 4;
    let mut at: usize = 0;

    while n - at >= chunk_size
        invariant
            encode_width(N),
            chunk_size == N / 4 * 3,
            n == data@.len(),
            at <= n,
            at % 3 == 0,
            out@ == old(out)@ + symbols(data@).take(at / 3 * 4),
        decreases n - at,
    {
        let bytes: [u8; N] = load(&data[at..at + chunk_size], 0);
        let asciis = encode_hot(bytes);
        let ghost before = out@;
        out.extend_from_slice(&asciis);
        proof {
            assert(out@ =~= before + asciis@.take(N as int));
            lemma_chunk_symbols(data@, at as int, chunk_size as int, bytes@, asciis@, N as int);
        }
        at += chunk_size;
    }

    let rem = n - at;
    if rem != 0 {
        let bytes: [u8; N] = load(&data[at..n], 0);
        let asciis = encode_hot(bytes);
        let len = encoded_len(rem);
        let ghost before = out@;
        out.extend_from_slice(&asciis[0..len]);
        proof {
            assert(out@ =~= before + asciis@.take(len as int));
            lemma_chunk_symbols(data@, at as int, rem as int, bytes@, asciis@, len as int);
        }
    }
    assert(symbols(data@).take(symbols(data@).len() as int) == symbols(data@));

    pad_with_trailing_eq(n, out);
    proof {
        lemma_lane_encoded(N, data@);
    }
}

/// The byte that fills the lanes after the last symbols of a text: `A`, the
/// symbol of sextet 0.
pub const FILLER: u8 = 65;

/// The bytes of a chunk of `text` that begins a group of four, the lanes
/// after it filled with `A`, are those of `text` at that place.
proof fn lemma_chunk_byte(text: Seq<u8>, at: int, len: int, lanes: Seq<u8>, k: int)
    requires
        0 <= at,
        at % 4 == 0,
        0 <= len <= lanes.len(),
        lanes.len() % 4 == 0,
        at + len <= text.len(),
        forall|m: int|
            0 <= m < lanes.len() ==> #[trigger] lanes[m] == if m < len {
                text[at + m]
            } else {
                FILLER
            },
        0 <= k < decoded_length(len as nat),
    ensures
        decoded_byte(lanes, k) == decoded_byte(text.take(at + len), at / 4 * 3 + k),
{
    let g = k / 3;
    let long = text.take(at + len);
    assert((at / 4 * 3 + k) / 3 == at / 4 + g);
    assert((at / 4 * 3 + k) % 3 == k % 3);
    assert(4 * g + 3 < lanes.len());
    assert(sextet_or_zero(lanes, 4 * g) == sextet_or_zero(long, at + 4 * g));
    assert(sextet_or_zero(lanes, 4 * g + 1) == sextet_or_zero(long, at + 4 * g + 1));
    assert(sextet_or_zero(lanes, 4 * g + 2) == sextet_or_zero(long, at + 4 * g + 2));
    assert(sextet_or_zero(lanes, 4 * g + 3) == sextet_or_zero(long, at + 4 * g + 3));
    assert(quad(lanes, g) == quad(long, at / 4 + g));
}

/// The vector that chunk `c` of `text` is decoded from at `width` lanes: the
/// symbols of the chunk, as far as `text` has them, and `A` in the lanes
/// after them.
pub open spec fn symbol_chunk(width: int, text: Seq<u8>, c: int) -> Seq<u8> {
    Seq::new(
        width as nat,
        |m: int|
            if c * width + m < text.len() {
                text[c * width + m]
            } else {
                FILLER
            },
    )
}

/// Byte `k` of what comes of `text` at `width` lanes: each chunk gives
/// `width / 4 * 3` bytes.
pub open spec fn lane_byte(width: int, text: Seq<u8>, k: int) -> u8 {
    let kept = width / 4 * 3;
    decoded_byte(symbol_chunk(width, text, k / kept), k % kept)
}

/// The bytes that come of `text` chunk by chunk at `width` lanes, those of
/// the last chunk cut after what its symbols stand for.
#[verifier::opaque]
pub open spec fn lane_decoded(width: int, text: Seq<u8>) -> Seq<u8> {
    Seq::new(decoded_length(text.len()), |k: int| lane_byte(width, text, k))
}

/// Byte `k` of what comes of the symbols chunk by chunk is byte `k` of what
/// the symbols stand for.
proof fn lemma_lane_byte(w: int, text: Seq<u8>, k: int)
    requires
        w % 4 == 0,
        4 <= w,
        0 <= k < decoded_length(text.len()),
    ensures
        lane_byte(w, text, k) == decoded_byte(text, k),
{
    let q = w / 4;
    let kept = w / 4 * 3;
    let n = text.len() as int;
    let c = k / kept;
    let i = k % kept;
    lemma_chunk_place(k, kept, q);
    let at = 4 * (c * q);
    assert(c * w == at);
    assert(at < n);
    let len = if n - at < w {
        n - at
    } else {
        w
    };
    assert(i < decoded_length(len as nat));
    lemma_chunk_byte(text, at, len, symbol_chunk(w, text, c), i);
    let long = text.take(at + len);
    let g = k / 3;
    assert(k == at / 4 * 3 + i);
    assert(4 * g + 3 < at + w);
    assert(sextet_or_zero(long, 4 * g) == sextet_or_zero(text, 4 * g));
    assert(sextet_or_zero(long, 4 * g + 1) == sextet_or_zero(text, 4 * g + 1));
    assert(sextet_or_zero(long, 4 * g + 2) == sextet_or_zero(text, 4 * g + 2));
    assert(sextet_or_zero(long, 4 * g + 3) == sextet_or_zero(text, 4 * g + 3));
    assert(quad(long, g) == quad(text, g));
}

/// At every width, and whatever is left for the last chunk, the bytes that
/// come of the symbols chunk by chunk are the bytes that the symbols stand
/// for.
pub proof fn lemma_lane_decoded(width: usize, text: Seq<u8>)
    requires
        decode_width(width),
    ensures
        lane_decoded(width as int, text) == decoded_bytes(text),
{
    let w = width as int;
    assert forall|k: int| 0 <= k < decoded_length(text.len()) implies lane_byte(w, text, k)
        == decoded_byte(text, k) by {
        lemma_lane_byte(w, text, k);
    }
    reveal(lane_decoded);
    assert(lane_decoded(w, text) =~= decoded_bytes(text));
}

/// Writes all lanes at place `at` of `out`, over what was there and past the
/// end: `out` then ends with the last lane.
fn store<const N: usize>(out: &mut Vec<u8>, at: usize, lanes: &[u8; N])
    requires
        at <= old(out)@.len(),
    ensures
        final(out)@ == old(out)@.take(at as int) + lanes@,
{
    out.truncate(at);
    let ghost kept = out@;
    out.extend_from_slice(lanes);
    assert(out@ =~= kept + lanes@);
}

/// Appends to `out` the bytes that `data` stands for, once one or two `=` at
/// its end are off, working `N` lanes at a time. Every chunk is decoded and
/// written past the end of `out` before the text is judged: the length of
/// `out` is moved past the new bytes only if every byte of the text was a
/// symbol, and `out` is as it was if not.
#[verifier::rlimit(30)]
pub fn decode<const N: usize>(data: &[u8], out: &mut Vec<u8>) -> (res: Result<(), &'static str>)
    requires
        decode_width(N),
    ensures
        res is Ok <==> decoded(data@) is Some,
        res is Ok ==> final(out)@ == old(out)@ + decoded(data@).unwrap(),
        res is Ok ==> final(out)@ == old(out)@ + lane_decoded(N as int, stripped(data@)),
        res matches Err(message) ==> final(out)@ == old(out)@ && message@ == "wrong base64"@,
{
    let text = remove_trailing_eq(data);
    let n = text.len();

    // Every chunk is written whole, so the last one runs past the bytes
    // that are kept: by less than one vector.
    let final_size = decoded_len(n);
    let extra_size = N - 1;
    if let Some(capacity) = final_size.checked_add(extra_size) {
        out.reserve(capacity);
    }
    let start = out.len();
    let mut cursor = start;

    let mut error = false;
    let mut at: usize = 0;

    while n - at >= N
        invariant
            decode_width(N),
            n == text@.len(),
            at <= n,
            at % 4 == 0,
            start == old(out)@.len(),
            cursor == start + at / 4 * 3,
            cursor <= out@.len(),
            out@.len() <= start + final_size + extra_size,
            final_size == decoded_length(n as nat),
            extra_size == N - 1,
            out@.take(start as int) == old(out)@,
            error <==> !all_symbols(text@.take(at as int)),
            !error ==> out@.take(cursor as int) == old(out)@ + decoded_bytes(text@.take(at as int)),
        decreases n - at,
    {
        let ascii: [u8; N] = load(&text[at..at + N], FILLER);
        let (sextets, ok) = decode_hot::<N>(ascii);
        let ghost was = error;
        error = error || !ok;

        let decoded = decoded_len(N);
        let ghost before = out@;
        store(out, cursor, &sextets);
        proof {
            lemma_chunk_step(
                text@,
                at as int,
                N as int,
                ascii@,
                sextets@,
                was,
                ok,
                old(out)@,
                before,
                out@,
            );
            lemma_decoded_bytes_grow(text@, (at + N) as int, (n - at - N) as int);
            assert(out.len() == cursor + N);
        }
        cursor += decoded;
        at += N;
    }

    let rest = n - at;
    if rest != 0 {
        let ascii: [u8; N] = load(&text[at..n], FILLER);
        let (sextets, ok) = decode_hot::<N>(ascii);
        let ghost was = error;
        error = error || !ok;

        let decoded = decoded_len(rest);
        let ghost before = out@;
        store(out, cursor, &sextets);
        proof {
            lemma_chunk_step(
                text@,
                at as int,
                rest as int,
                ascii@,
                sextets@,
                was,
                ok,
                old(out)@,
                before,
                out@,
            );
            assert(out.len() == cursor + N);
        }
        cursor += decoded;
    }
    assert(out@.len() <= start + final_size + extra_size);
    proof {
        assert(text@.take(n as int) == text@);
    }

    if error {
        out.truncate(start);
        return Err("wrong base64");
    }
    out.truncate(cursor);
    proof {
        lemma_lane_decoded(N, text@);
    }
    Ok(())
}

/// What one chunk adds. The flag goes up where a lane of the chunk holds no
/// symbol. The lanes are written after the bytes of the chunks before, and
/// where the flag stays down the first of them are the bytes that the chunk
/// stands for. What was in the buffer before the call stays.
proof fn lemma_chunk_step(
    text: Seq<u8>,
    at: int,
    len: int,
    ascii: Seq<u8>,
    sextets: Seq<u8>,
    was: bool,
    ok: bool,
    first: Seq<u8>,
    before: Seq<u8>,
    after: Seq<u8>,
)
    requires
        0 <= at,
        at % 4 == 0,
        0 < len <= ascii.len(),
        ascii.len() % 4 == 0,
        ascii.len() == sextets.len(),
        at + len <= text.len(),
        forall|m: int|
            0 <= m < ascii.len() ==> #[trigger] ascii[m] == if m < len {
                text[at + m]
            } else {
                FILLER
            },
        was <==> !all_symbols(text.take(at)),
        ok <==> all_symbols(ascii),
        forall|k: int|
            0 <= k < ascii.len() / 4 * 3 && group_is_symbols(ascii, k / 3) ==> #[trigger] sextets[k]
                == decoded_byte(ascii, k),
        first.len() + at / 4 * 3 <= before.len(),
        before.take(first.len() as int) == first,
        !was ==> before.take(first.len() + at / 4 * 3) == first + decoded_bytes(text.take(at)),
        after == before.take(first.len() + at / 4 * 3) + sextets,
    ensures
        (was || !ok) <==> !all_symbols(text.take(at + len)),
        decoded_length((at + len) as nat) == at / 4 * 3 + decoded_length(len as nat),
        decoded_length(len as nat) <= sextets.len(),
        after.take(first.len() as int) == first,
        !(was || !ok) ==> after.take(first.len() + at / 4 * 3 + decoded_length(len as nat))
            == first + decoded_bytes(text.take(at + len)),
{
    let short = text.take(at);
    let long = text.take(at + len);
    let count = decoded_length(len as nat) as int;
    let cursor = first.len() + at / 4 * 3;
    lemma_decoded_bytes_grow(text, at, len);
    assert(count <= ascii.len() / 4 * 3);
    assert(after.take(first.len() as int) =~= before.take(first.len() as int));
    if was || !ok {
        if was {
            let i = choose|i: int| 0 <= i < short.len() && !is_symbol(#[trigger] short[i]);
            assert(long[i] == short[i]);
        } else {
            let m = choose|m: int| 0 <= m < ascii.len() && !is_symbol(#[trigger] ascii[m]);
            assert(m < len);
            assert(long[at + m] == ascii[m]);
        }
    } else {
        assert forall|i: int| 0 <= i < long.len() implies is_symbol(#[trigger] long[i]) by {
            if i < at {
                assert(short[i] == long[i]);
            } else {
                assert(ascii[i - at] == long[i]);
            }
        }
        let tail = Seq::new(
            decoded_length(len as nat),
            |p: int| decoded_byte(text.take(at + len), at / 4 * 3 + p),
        );
        assert forall|k: int| 0 <= k < count implies sextets[k] == decoded_byte(
            long,
            at / 4 * 3 + k,
        ) by {
            assert(group_is_symbols(ascii, k / 3));
            lemma_chunk_byte(text, at, len, ascii, k);
        }
        assert(sextets.take(count) =~= tail);
        assert(after.take(cursor + count) =~= before.take(cursor) + sextets.take(count));
    }
}

} // verus!
