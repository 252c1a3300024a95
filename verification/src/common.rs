//! What the two codecs share: the sextets at which the classes of symbols
//! begin, the padding at the end of a text, and bytes written out bit by
//! bit for the eye.

use vstd::prelude::*;
use crate::alphabet::PAD;
use crate::model::{padding, stripped};

verus! {

/// Sextet of `A`, the first uppercase letter.
pub const SEXTET_UPPERS_OFFSET: u8 = 0;

/// Sextet of `a`, the first lowercase letter.
pub const SEXTET_LOWERS_OFFSET: u8 = 26;

/// Sextet of `0`, the first digit.
pub const SEXTET_DIGITS_OFFSET: u8 = 52;

/// Sextet of `+`.
pub const SEXTET_PLUS_OFFSET: u8 = 62;

/// Sextet of `/`.
pub const SEXTET_SLASH_OFFSET: u8 = 63;

/// Takes one or two `=` off the end of a text.
pub fn remove_trailing_eq(input: &[u8]) -> (out: &[u8])
    ensures
        out@ == stripped(input@),
{
    let n = input.len();
    if n >= 2 && input[n - 1] == PAD && input[n - 2] == PAD {
        &input[0..n - 2]
    } else if n >= 1 && input[n - 1] == PAD {
        &input[0..n - 1]
    } else {
        input
    }
}

/// Appends the `=` that follow the symbols of `data_len` bytes: two after a
/// last group of one byte, one after a last group of two.
pub fn pad_with_trailing_eq(data_len: usize, out: &mut Vec<u8>)
    ensures
        final(out)@ == old(out)@ + padding(data_len as nat),
{
    match data_len % 3 {
        1 => {
            out.push(PAD);
            out.push(PAD);
        },
        2 => {
            out.push(PAD);
        },
        _ => {},
    }
    assert(out@ == old(out)@ + padding(data_len as nat));
}

/// The eight binary digits of `b`, the most significant first.
pub open spec fn bits_of(b: u8) -> Seq<char> {
    Seq::new(
        8,
        |k: int|
            if (b >> ((7 - k) as u8)) & 1 == 1 {
                '1'
            } else {
                '0'
            },
    )
}

/// The binary digits of each byte of `data`, with a space between two bytes.
pub open spec fn bits_joined(data: Seq<u8>) -> Seq<char>
    decreases data.len(),
{
    if data.len() == 0 {
        Seq::empty()
    } else if data.len() == 1 {
        bits_of(data[0])
    } else {
        bits_joined(data.drop_last()) + seq![' '] + bits_of(data.last())
    }
}

/// The four bytes of `data`, the most significant first.
pub open spec fn be_bytes(data: u32) -> Seq<u8> {
    seq![(data >> 24) as u8, (data >> 16) as u8, (data >> 8) as u8, data as u8]
}

fn append_bits(text: &mut String, b: u8)
    ensures
        final(text)@ == old(text)@ + bits_of(b),
{
    let mut k: u8 = 0;
    while k < 8
        invariant
            k <= 8,
            text@ == old(text)@ + bits_of(b).take(k as int),
        decreases 8 - k,
    {
        proof {
            reveal_strlit("1");
            reveal_strlit("0");
        }
        let ghost before = text@;
        if (b >> (7 - k)) & 1 == 1 {
            text.append("1");
        } else {
            text.append("0");
        }
        assert(text@ =~= old(text)@ + bits_of(b).take(k + 1));
        k += 1;
    }
    assert(bits_of(b).take(8) == bits_of(b));
}

/// The 32 bits of `data` in four groups of eight, the most significant byte
/// first, with a space between two groups.
pub fn bits(data: u32) -> (text: String)
    ensures
        text@ == bits_joined(be_bytes(data)),
{
    let bytes: [u8; 4] = [
        #[verifier::truncate] ((data >> 24) as u8),
        #[verifier::truncate] ((data >> 16) as u8),
        #[verifier::truncate] ((data >> 8) as u8),
        #[verifier::truncate] (data as u8),
    ];
    assert(bytes@ =~= be_bytes(data));
    bits_slice(&bytes)
}

/// The bits of each byte of `data` in a group of eight, with a space between
/// two groups.
pub fn bits_slice(data: &[u8]) -> (text: String)
    ensures
        text@ == bits_joined(data@),
{
    let mut text = String::new();
    let mut i: usize = 0;
    while i < data.len()
        invariant
            i <= data@.len(),
            text@ == bits_joined(data@.take(i as int)),
        decreases data@.len() - i,
    {
        let ghost before = data@.take(i as int);
        let ghost now = data@.take(i + 1);
        if i > 0 {
            text.append(" ");
        }
        append_bits(&mut text, data[i]);
        proof {
            reveal_strlit(" ");
            assert(now.drop_last() == before);
            assert(now.last() == data@[i as int]);
            assert(text@ =~= bits_joined(now));
        }
        i += 1;
    }
    assert(data@.take(data@.len() as int) == data@);
    text
}

/// The bits of each lane of `data` in a group of eight, with a space between
/// two groups.
pub fn bits_simd<const N: usize>(data: [u8; N]) -> (text: String)
    ensures
        text@ == bits_joined(data@),
{
    bits_slice(&data)
}

} // verus!
