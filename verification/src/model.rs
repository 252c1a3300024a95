//! What the text of a byte sequence is, and what bytes a text stands for.
//!
//! Three bytes are one number of 24 bits, most significant byte first, and
//! four symbols are the four base-64 digits of that number. A last group that
//! is short counts as if zeros followed; the symbols that would stand for
//! nothing but such zeros are left out and `=` is written in their place.

use vstd::prelude::*;
use crate::alphabet::{is_symbol, lemma_symbol_of_sextet, sextet_of, symbol_of, PAD};

verus! {

/// The number of symbols, padding not counted, that stand for `n` bytes.
pub open spec fn encoded_length(n: nat) -> nat {
    n / 3 * 4 + if n % 3 == 0 {
        0nat
    } else {
        n % 3 + 1
    }
}

/// The number of bytes that `n` symbols stand for. A lone last symbol, which
/// no text ends in, counts as one byte.
pub open spec fn decoded_length(n: nat) -> nat {
    n / 4 * 3 + if n % 4 == 0 {
        0nat
    } else if n % 4 == 3 {
        2nat
    } else {
        1nat
    }
}

/// The number of `=` that follow the symbols of `n` bytes.
pub open spec fn padding_length(n: nat) -> nat {
    if n % 3 == 0 {
        0nat
    } else {
        (3 - n % 3) as nat
    }
}

/// Byte `i` of `data`, and 0 past its end.
pub open spec fn byte_or_zero(data: Seq<u8>, i: int) -> int {
    if 0 <= i < data.len() {
        data[i] as int
    } else {
        0
    }
}

/// The 24-bit number that bytes `3 * g .. 3 * g + 3` of `data` make.
pub open spec fn triple(data: Seq<u8>, g: int) -> int {
    byte_or_zero(data, 3 * g) * 65536 + byte_or_zero(data, 3 * g + 1) * 256 + byte_or_zero(
        data,
        3 * g + 2,
    )
}

/// Digit `p` of `value` in base 64, counted from the most significant of four.
pub open spec fn sextet_digit(value: int, p: int) -> int {
    if p == 0 {
        value / 262144 % 64
    } else if p == 1 {
        value / 4096 % 64
    } else if p == 2 {
        value / 64 % 64
    } else {
        value % 64
    }
}

/// Sextet `j` of `data`: bits `6 * j .. 6 * j + 6` of its bytes laid end to end.
pub open spec fn sextet_at(data: Seq<u8>, j: int) -> int {
    sextet_digit(triple(data, j / 4), j % 4)
}

/// The symbols of `data`, without padding.
pub open spec fn symbols(data: Seq<u8>) -> Seq<u8> {
    Seq::new(encoded_length(data.len()), |j: int| symbol_of(sextet_at(data, j)))
}

/// The padding that follows the symbols of `n` bytes.
pub open spec fn padding(n: nat) -> Seq<u8> {
    Seq::new(padding_length(n), |j: int| PAD)
}

/// The text of `data`: its symbols, then the padding.
pub open spec fn encoded(data: Seq<u8>) -> Seq<u8> {
    symbols(data) + padding(data.len())
}

/// Every byte of `text` is a symbol.
pub open spec fn all_symbols(text: Seq<u8>) -> bool {
    forall|i: int| 0 <= i < text.len() ==> is_symbol(#[trigger] text[i])
}

/// `text` without one or two `=` at its end.
pub open spec fn stripped(text: Seq<u8>) -> Seq<u8> {
    let n = text.len() as int;
    if n >= 2 && text[n - 1] == PAD && text[n - 2] == PAD {
        text.take(n - 2)
    } else if n >= 1 && text[n - 1] == PAD {
        text.take(n - 1)
    } else {
        text
    }
}

/// The sextet of symbol `i` of `text`, and 0 past its end.
pub open spec fn sextet_or_zero(text: Seq<u8>, i: int) -> int {
    if 0 <= i < text.len() {
        sextet_of(text[i])
    } else {
        0
    }
}

/// The 24-bit number that symbols `4 * g .. 4 * g + 4` of `text` make.
pub open spec fn quad(text: Seq<u8>, g: int) -> int {
    sextet_or_zero(text, 4 * g) * 262144 + sextet_or_zero(text, 4 * g + 1) * 4096
        + sextet_or_zero(text, 4 * g + 2) * 64 + sextet_or_zero(text, 4 * g + 3)
}

/// Digit `p` of `value` in base 256, counted from the most significant of three.
pub open spec fn octet_digit(value: int, p: int) -> int {
    if p == 0 {
        value / 65536 % 256
    } else if p == 1 {
        value / 256 % 256
    } else {
        value % 256
    }
}

/// Byte `k` of what the symbols `text` stand for.
pub open spec fn decoded_byte(text: Seq<u8>, k: int) -> u8 {
    octet_digit(quad(text, k / 3), k % 3) as u8
}

/// The bytes that the symbols `text` stand for.
pub open spec fn decoded_bytes(text: Seq<u8>) -> Seq<u8> {
    Seq::new(decoded_length(text.len()), |k: int| decoded_byte(text, k))
}

/// What `text` decodes to: the bytes of its symbols once the padding is off,
/// and nothing where a byte that is no symbol is left among them.
pub open spec fn decoded(text: Seq<u8>) -> Option<Seq<u8>> {
    if all_symbols(stripped(text)) {
        Some(decoded_bytes(stripped(text)))
    } else {
        None
    }
}

/// The bytes of a text that ends a group of four at `at` stay as they are
/// when `len` more symbols follow, and those of the new symbols come after
/// them.
pub proof fn lemma_decoded_bytes_grow(text: Seq<u8>, at: int, len: int)
    requires
        0 <= at,
        at % 4 == 0,
        0 <= len,
        at + len <= text.len(),
    ensures
        decoded_length((at + len) as nat) == at / 4 * 3 + decoded_length(len as nat),
        decoded_bytes(text.take(at + len)) == decoded_bytes(text.take(at)) + Seq::new(
            decoded_length(len as nat),
            |p: int| decoded_byte(text.take(at + len), at / 4 * 3 + p),
        ),
{
    let short = text.take(at);
    let long = text.take(at + len);
    let tail = Seq::new(
        decoded_length(len as nat),
        |p: int| decoded_byte(text.take(at + len), at / 4 * 3 + p),
    );
    assert(decoded_length(short.len()) == at / 4 * 3);
    assert(decoded_length(long.len()) == at / 4 * 3 + decoded_length(len as nat));
    assert forall|k: int| 0 <= k < at / 4 * 3 implies decoded_byte(long, k) == decoded_byte(
        short,
        k,
    ) by {
        let g = k / 3;
        assert(4 * g + 3 < at);
        assert(quad(long, g) == quad(short, g));
    }
    assert(decoded_bytes(long) =~= decoded_bytes(short) + tail);
}

/// The four digits in base 64 and the three in base 256 of one number of 24
/// bits.
proof fn lemma_digits(b0: u8, b1: u8, b2: u8)
    by (bit_vector)
    ensures
        ({
            let v = b0 as u32 * 65536 + b1 as u32 * 256 + b2 as u32;
            &&& (v / 262144 % 64) * 262144 + (v / 4096 % 64) * 4096 + (v / 64 % 64) * 64 + v % 64
                == v
            &&& v / 65536 % 256 == b0
            &&& v / 256 % 256 == b1
            &&& v % 256 == b2
            &&& b2 == 0 ==> v % 64 == 0
            &&& b1 == 0 && b2 == 0 ==> v / 64 % 64 == 0
        }),
{
}

/// A sextet is less than 64, and it is 0 where all its bits lie past the end
/// of the bytes.
pub proof fn lemma_sextet_at(data: Seq<u8>, j: int)
    requires
        0 <= j,
    ensures
        0 <= sextet_at(data, j) < 64,
        j >= encoded_length(data.len()) ==> sextet_at(data, j) == 0,
{
    let g = j / 4;
    let b0 = byte_or_zero(data, 3 * g) as u8;
    let b1 = byte_or_zero(data, 3 * g + 1) as u8;
    let b2 = byte_or_zero(data, 3 * g + 2) as u8;
    lemma_digits(b0, b1, b2);
}

/// The symbols of any bytes are symbols, and none is the padding byte.
pub proof fn lemma_symbols_are_symbols(data: Seq<u8>)
    ensures
        all_symbols(symbols(data)),
        forall|j: int| 0 <= j < symbols(data).len() ==> #[trigger] symbols(data)[j] != PAD,
{
    assert forall|j: int| 0 <= j < symbols(data).len() implies is_symbol(
        #[trigger] symbols(data)[j],
    ) && symbols(data)[j] != PAD by {
        lemma_sextet_at(data, j);
        lemma_symbol_of_sextet(sextet_at(data, j));
    }
}

/// A text ends in no `=`, in two or in one, as the number of its bytes
/// leaves 0, 1 or 2 when divided by three, and no `=` stands before these.
pub proof fn lemma_padding(data: Seq<u8>)
    ensures
        ({
            let text = encoded(data);
            let pads = padding_length(data.len());
            &&& data.len() % 3 == 0 ==> pads == 0
            &&& data.len() % 3 == 1 ==> pads == 2
            &&& data.len() % 3 == 2 ==> pads == 1
            &&& pads <= text.len()
            &&& forall|i: int| text.len() - pads <= i < text.len() ==> #[trigger] text[i] == PAD
            &&& forall|i: int| 0 <= i < text.len() - pads ==> #[trigger] text[i] != PAD
        }),
{
    lemma_symbols_are_symbols(data);
    let text = encoded(data);
    assert forall|i: int| 0 <= i < text.len() - padding_length(data.len()) implies #[trigger] text[i]
        != PAD by {
        assert(text[i] == symbols(data)[i]);
    }
}

/// With the padding off, a text is the symbols of its bytes.
pub proof fn lemma_stripped_encoded(data: Seq<u8>)
    ensures
        stripped(encoded(data)) == symbols(data),
{
    lemma_padding(data);
    let text = encoded(data);
    let n = text.len() as int;
    let pads = padding_length(data.len()) as int;
    if pads < n {
        assert(text[n - pads - 1] != PAD);
    }
    assert(text.take(n - pads) =~= symbols(data));
}

/// A text has `encoded_length` symbols before its padding.
pub proof fn lemma_encoded_len(data: Seq<u8>)
    ensures
        encoded(data).len() == encoded_length(data.len()) + padding_length(data.len()),
        encoded(data).len() == (data.len() + 2) / 3 * 4,
        stripped(encoded(data)).len() == encoded_length(data.len()),
{
    lemma_stripped_encoded(data);
}

/// Where the bytes come in whole groups of three, the text has no padding
/// and is `encoded_length` long.
pub proof fn lemma_encoded_len_of_whole_groups(data: Seq<u8>)
    requires
        data.len() % 3 == 0,
    ensures
        encoded(data).len() == encoded_length(data.len()),
{
}

/// Both lengths come of arithmetic alone, with no case told from another.
pub proof fn lemma_lengths_by_arithmetic(n: nat)
    ensures
        decoded_length(n) == n / 4 * 3 + (n % 4 - n % 4 / 2),
        encoded_length(n) == n / 3 * 4 + (n % 3 + (n % 3 + 1) / 2),
{
}

/// The symbols of `n` bytes stand for `n` bytes.
pub proof fn lemma_decoded_len_of_encoded_len(n: nat)
    ensures
        decoded_length(encoded_length(n)) == n,
{
}

/// Symbol `j` of any bytes stands for their sextet `j`, and past the last
/// symbol that sextet is 0.
pub proof fn lemma_sextet_of_symbols(data: Seq<u8>, j: int)
    requires
        0 <= j,
    ensures
        sextet_or_zero(symbols(data), j) == sextet_at(data, j),
{
    lemma_sextet_at(data, j);
    lemma_symbol_of_sextet(sextet_at(data, j));
}

/// The symbols of any bytes stand for those bytes.
pub proof fn lemma_symbols_decode(data: Seq<u8>)
    ensures
        decoded_bytes(symbols(data)) == data,
{
    let text = symbols(data);
    assert(decoded_length(text.len()) == data.len());
    assert forall|k: int| 0 <= k < data.len() implies decoded_byte(text, k) == data[k] by {
        let g = k / 3;
        let b0 = byte_or_zero(data, 3 * g) as u8;
        let b1 = byte_or_zero(data, 3 * g + 1) as u8;
        let b2 = byte_or_zero(data, 3 * g + 2) as u8;
        lemma_digits(b0, b1, b2);
        lemma_sextet_of_symbols(data, 4 * g);
        lemma_sextet_of_symbols(data, 4 * g + 1);
        lemma_sextet_of_symbols(data, 4 * g + 2);
        lemma_sextet_of_symbols(data, 4 * g + 3);
        assert(sextet_at(data, 4 * g) == sextet_digit(triple(data, g), 0));
        assert(sextet_at(data, 4 * g + 1) == sextet_digit(triple(data, g), 1));
        assert(sextet_at(data, 4 * g + 2) == sextet_digit(triple(data, g), 2));
        assert(sextet_at(data, 4 * g + 3) == sextet_digit(triple(data, g), 3));
        assert(quad(text, g) == triple(data, g));
    }
    assert(decoded_bytes(text) =~= data);
}

/// Decoding the text of any bytes gives the bytes back.
pub proof fn lemma_round_trip(data: Seq<u8>)
    ensures
        decoded(encoded(data)) == Some(data),
{
    lemma_stripped_encoded(data);
    lemma_symbols_are_symbols(data);
    lemma_symbols_decode(data);
}

/// A text that holds a byte which is neither a symbol nor `=` does not
/// decode.
pub proof fn lemma_foreign_byte_rejected(text: Seq<u8>, i: int)
    requires
        0 <= i < text.len(),
        !is_symbol(text[i]),
        text[i] != PAD,
    ensures
        decoded(text) is None,
{
    let rest = stripped(text);
    assert(i < rest.len());
    assert(rest[i] == text[i]);
}

/// A text that holds `=` before its last two bytes does not decode.
pub proof fn lemma_inner_padding_rejected(text: Seq<u8>, i: int)
    requires
        0 <= i < text.len() - 2,
        text[i] == PAD,
    ensures
        decoded(text) is None,
{
    let rest = stripped(text);
    assert(rest[i] == text[i]);
}

} // verus!
