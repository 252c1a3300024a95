//! The codec that works a byte at a time.

use vstd::prelude::*;
use crate::alphabet::{
    is_symbol, sextet_of, symbol_of, DIGIT_0, DIGIT_9, LOWER_A, LOWER_Z, PAD, PLUS, SLASH, UPPER_A,
    UPPER_Z,
};
use crate::common::{
    remove_trailing_eq, SEXTET_DIGITS_OFFSET, SEXTET_LOWERS_OFFSET, SEXTET_PLUS_OFFSET,
    SEXTET_SLASH_OFFSET, SEXTET_UPPERS_OFFSET,
};
use crate::model::{
    decoded, decoded_byte, decoded_bytes, decoded_length, encoded, encoded_length,
    lemma_decoded_bytes_grow, quad, sextet_or_zero, stripped, symbols, triple,
};

verus! {

/// The number of bytes that `encoded_len` symbols stand for.
pub fn decoded_len(encoded_len: usize) -> (len: usize)
    ensures
        len == decoded_length(encoded_len as nat),
{
    let padding: usize = match encoded_len % 4 {
        1 | 2 => 1,
        3 => 2,
        _ => 0,
    };
    encoded_len / 4 * 3 + padding
}

/// The number of symbols, padding not counted, that stand for `decoded_len`
/// bytes.
pub fn encoded_len(decoded_len: usize) -> (len: usize)
    requires
        encoded_length(decoded_len as nat) <= usize::MAX,
    ensures
        len == encoded_length(decoded_len as nat),
{
    let padding: usize = match decoded_len % 3 {
        1 => 2,
        2 => 3,
        _ => 0,
    };
    decoded_len / 3 * 4 + padding
}

/// The symbol of `sextet`, looked up in the table of the sixty-four.
pub fn sextet_to_ascii(sextet: u8) -> (symbol: u8)
    requires
        sextet < 64,
    ensures
        symbol == symbol_of(sextet as int),
{
    let alphabet: [u8; 64] = [
        65, 66, 67, 68, 69, 70, 71, 72, 73, 74, 75, 76, 77, 78, 79, 80,
        81, 82, 83, 84, 85, 86, 87, 88, 89, 90, 97, 98, 99, 100, 101, 102,
        103, 104, 105, 106, 107, 108, 109, 110, 111, 112, 113, 114, 115, 116, 117, 118,
        119, 120, 121, 122, 48, 49, 50, 51, 52, 53, 54, 55, 56, 57, 43, 47,
    ];
    alphabet[sextet as usize]
}

/// Three bytes laid into 24 bits, and the four sextets cut from them.
proof fn lemma_field_sextets(b0: u8, b1: u8, b2: u8)
    by (bit_vector)
    ensures
        ({
            let field = ((b0 as u32) << 16) | ((b1 as u32) << 8) | (b2 as u32);
            &&& field == b0 as u32 * 65536 + b1 as u32 * 256 + b2 as u32
            &&& ((field >> 18) as u8) & 63 == field / 262144 % 64
            &&& ((field >> 12) as u8) & 63 == field / 4096 % 64
            &&& ((field >> 6) as u8) & 63 == field / 64 % 64
            &&& ((field >> 0) as u8) & 63 == field % 64
            &&& ((field >> 18) as u8) & 63 < 64
            &&& ((field >> 12) as u8) & 63 < 64
            &&& ((field >> 6) as u8) & 63 < 64
            &&& ((field >> 0) as u8) & 63 < 64
        }),
{
}

/// Appends the text of `data` to `out`.
pub fn encode(data: &[u8], out: &mut Vec<u8>)
    ensures
        final(out)@ == old(out)@ + encoded(data@),
{
    let n = data.len();
    let groups = n / 3;
    // Room for the symbols and the padding, where their number fits a usize.
    if groups <= (usize::MAX - 5) / 4 {
        let final_size = encoded_len(n);
        out.reserve(final_size + 2);
    }
    let mut g: usize = 0;
    while g < groups
        invariant
            n == data@.len(),
            groups == n / 3,
            g <= groups,
            out@ == old(out)@ + symbols(data@).take(4 * g),
        decreases groups - g,
    {
        let b0 = data[3 * g];
        let b1 = data[3 * g + 1];
        let b2 = data[3 * g + 2];
        let bytes: u32 = ((b0 as u32) << 16) | ((b1 as u32) << 8) | (b2 as u32);
        proof {
            lemma_field_sextets(b0, b1, b2);
            assert(bytes == triple(data@, g as int));
        }
        let ghost before = out@;
        out.push(sextet_to_ascii(#[verifier::truncate] ((bytes >> 18) as u8) & 0b111111));
        out.push(sextet_to_ascii(#[verifier::truncate] ((bytes >> 12) as u8) & 0b111111));
        out.push(sextet_to_ascii(#[verifier::truncate] ((bytes >> 6) as u8) & 0b111111));
        out.push(sextet_to_ascii(#[verifier::truncate] ((bytes >> 0) as u8) & 0b111111));
        proof {
            let s = symbols(data@);
            assert(s.take(4 * (g + 1)) == s.take(4 * g) + seq![
                s[4 * g],
                s[4 * g + 1],
                s[4 * g + 2],
                s[4 * g + 3],
            ]);
            assert(out@ == before + seq![s[4 * g], s[4 * g + 1], s[4 * g + 2], s[4 * g + 3]]);
        }
        g += 1;
    }
    let rem = n - 3 * groups;
    let ghost s = symbols(data@);
    match rem {
        1 => {
            let b0 = data[3 * groups];
            let bytes: u32 = (b0 as u32) << 16;
            proof {
                lemma_field_sextets(b0, 0, 0);
                assert(bytes == triple(data@, groups as int)) by {
                    assert(bytes == ((b0 as u32) << 16) | ((0u8 as u32) << 8) | (0u8 as u32))
                        by (bit_vector)
                        requires
                            bytes == (b0 as u32) << 16,
                    ;
                }
            }
            out.push(sextet_to_ascii(#[verifier::truncate] ((bytes >> 18) as u8) & 0b111111));
            out.push(sextet_to_ascii(#[verifier::truncate] ((bytes >> 12) as u8) & 0b111111));
            out.push(PAD);
            out.push(PAD);
            assert(out@ == old(out)@ + encoded(data@));
        },
        2 => {
            let b0 = data[3 * groups];
            let b1 = data[3 * groups + 1];
            let bytes: u32 = ((b0 as u32) << 16) | ((b1 as u32) << 8);
            proof {
                lemma_field_sextets(b0, b1, 0);
                assert(bytes == triple(data@, groups as int)) by {
                    assert(bytes == ((b0 as u32) << 16) | ((b1 as u32) << 8) | (0u8 as u32))
                        by (bit_vector)
                        requires
                            bytes == ((b0 as u32) << 16) | ((b1 as u32) << 8),
                    ;
                }
            }
            out.push(sextet_to_ascii(#[verifier::truncate] ((bytes >> 18) as u8) & 0b111111));
            out.push(sextet_to_ascii(#[verifier::truncate] ((bytes >> 12) as u8) & 0b111111));
            out.push(sextet_to_ascii(#[verifier::truncate] ((bytes >> 6) as u8) & 0b111111));
            out.push(PAD);
            assert(out@ == old(out)@ + encoded(data@));
        },
        _ => {
            assert(s.take(4 * groups) == s);
            assert(out@ == old(out)@ + encoded(data@));
        },
    }
}

/// The place of the first byte of `text` that is no symbol, and the length of
/// `text` where every byte is one.
pub open spec fn first_foreign(text: Seq<u8>) -> int
    decreases text.len(),
{
    if text.len() == 0 || !is_symbol(text[0]) {
        0
    } else {
        1 + first_foreign(text.skip(1))
    }
}

/// `first_foreign` is the one place before which all are symbols and at which
/// none is.
pub proof fn lemma_first_foreign(text: Seq<u8>, at: int)
    requires
        0 <= at <= text.len(),
        forall|i: int| 0 <= i < at ==> is_symbol(#[trigger] text[i]),
        at < text.len() ==> !is_symbol(text[at]),
    ensures
        first_foreign(text) == at,
    decreases at,
{
    if at > 0 {
        let rest = text.skip(1);
        assert forall|i: int| 0 <= i < at - 1 implies is_symbol(#[trigger] rest[i]) by {
            assert(rest[i] == text[i + 1]);
        }
        lemma_first_foreign(rest, at - 1);
    }
}

/// The character of the decimal digit `d`.
pub open spec fn digit_char(d: int) -> char {
    if d == 0 {
        '0'
    } else if d == 1 {
        '1'
    } else if d == 2 {
        '2'
    } else if d == 3 {
        '3'
    } else if d == 4 {
        '4'
    } else if d == 5 {
        '5'
    } else if d == 6 {
        '6'
    } else if d == 7 {
        '7'
    } else if d == 8 {
        '8'
    } else {
        '9'
    }
}

/// `b` in decimal, without leading zeros.
pub open spec fn decimal(b: u8) -> Seq<char> {
    if b >= 100 {
        seq![digit_char(b as int / 100), digit_char(b as int / 10 % 10), digit_char(b as int % 10)]
    } else if b >= 10 {
        seq![digit_char(b as int / 10), digit_char(b as int % 10)]
    } else {
        seq![digit_char(b as int)]
    }
}

/// The bytes of `text` in decimal, with a comma and a space between two.
pub open spec fn listed(text: Seq<u8>) -> Seq<char>
    decreases text.len(),
{
    if text.len() == 0 {
        Seq::empty()
    } else if text.len() == 1 {
        decimal(text[0])
    } else {
        listed(text.drop_last()) + seq![',', ' '] + decimal(text.last())
    }
}

/// What `decode` says of `text`, in which it found `byte`: the bytes of the
/// text in square brackets, then the words, then the byte.
pub open spec fn rejection(text: Seq<u8>, byte: u8) -> Seq<char> {
    seq!['['] + listed(text) + "] is not base64 because of char "@ + decimal(byte)
}

fn digit_text(d: u8) -> (text: &'static str)
    requires
        d < 10,
    ensures
        text@ == seq![digit_char(d as int)],
{
    proof {
        reveal_strlit("0");
        reveal_strlit("1");
        reveal_strlit("2");
        reveal_strlit("3");
        reveal_strlit("4");
        reveal_strlit("5");
        reveal_strlit("6");
        reveal_strlit("7");
        reveal_strlit("8");
        reveal_strlit("9");
    }
    let text = if d == 0 {
        "0"
    } else if d == 1 {
        "1"
    } else if d == 2 {
        "2"
    } else if d == 3 {
        "3"
    } else if d == 4 {
        "4"
    } else if d == 5 {
        "5"
    } else if d == 6 {
        "6"
    } else if d == 7 {
        "7"
    } else if d == 8 {
        "8"
    } else {
        "9"
    };
    assert(text@ =~= seq![digit_char(d as int)]);
    text
}

fn append_decimal(message: &mut String, b: u8)
    ensures
        final(message)@ == old(message)@ + decimal(b),
{
    if b >= 100 {
        message.append(digit_text(b / 100));
    }
    if b >= 10 {
        message.append(digit_text(b / 10 % 10));
    }
    message.append(digit_text(b % 10));
    assert(message@ =~= old(message)@ + decimal(b));
}

fn rejection_message(text: &[u8], byte: u8) -> (message: String)
    ensures
        message@ == rejection(text@, byte),
{
    proof {
        reveal_strlit("[");
        reveal_strlit(", ");
    }
    let mut message = String::new();
    message.append("[");
    let mut i: usize = 0;
    while i < text.len()
        invariant
            i <= text@.len(),
            message@ == seq!['['] + listed(text@.take(i as int)),
        decreases text@.len() - i,
    {
        let ghost before = text@.take(i as int);
        let ghost now = text@.take(i + 1);
        if i > 0 {
            message.append(", ");
        }
        append_decimal(&mut message, text[i]);
        proof {
            reveal_strlit(", ");
            assert(now.drop_last() == before);
            assert(now.last() == text@[i as int]);
            assert(message@ =~= seq!['['] + listed(now));
        }
        i += 1;
    }
    assert(text@.take(text@.len() as int) == text@);
    message.append("] is not base64 because of char ");
    append_decimal(&mut message, byte);
    assert(message@ =~= rejection(text@, byte));
    message
}

/// What the first `i` symbols of the group that starts at `at` add up to,
/// each six bits below the one before.
spec fn gathered(text: Seq<u8>, at: int, i: int) -> int
    decreases i,
{
    if i <= 0 {
        0
    } else {
        gathered(text, at, i - 1) * 64 + sextet_of(text[at + i - 1])
    }
}

/// One more sextet under a field of at most eighteen bits.
proof fn lemma_gather(field: u32, sextet: u8)
    by (bit_vector)
    requires
        field < 262144,
        sextet < 64,
    ensures
        (field << 6) | (sextet as u32) == field * 64 + sextet as u32,
{
}

/// A field of `len` sextets moved up to the top three bytes of 32 bits, and
/// the three bytes read back.
proof fn lemma_align(field: u32, len: u32)
    by (bit_vector)
    requires
        1 <= len <= 4,
        len == 1 ==> field < 64,
        len == 2 ==> field < 4096,
        len == 3 ==> field < 262144,
        len == 4 ==> field < 16777216,
    ensures
        ({
            let value = if len == 1 {
                field * 262144
            } else if len == 2 {
                field * 4096
            } else if len == 3 {
                field * 64
            } else {
                field * 1
            };
            let aligned = field << (((4 - len) * 6 + 8) as u32);
            &&& value < 16777216
            &&& (aligned >> 24) as u8 == value / 65536 % 256
            &&& (aligned >> 16) as u8 == value / 256 % 256
            &&& (aligned >> 8) as u8 == value % 256
        }),
{
}

/// The three high bytes of the aligned field are the bytes that the group
/// stands for: with as many of them as the group has bytes pushed after the
/// bytes of the groups before, the bytes of the text up to the end of the
/// group are there.
proof fn lemma_group_bytes(
    text: Seq<u8>,
    at: int,
    len: int,
    field: u32,
    aligned: u32,
    first: Seq<u8>,
    before: Seq<u8>,
    after: Seq<u8>,
)
    requires
        0 <= at,
        at % 4 == 0,
        1 <= len <= 4,
        at + len <= text.len(),
        forall|k: int| at <= k < at + len ==> is_symbol(#[trigger] text[k]),
        field == gathered(text, at, len),
        aligned == field << (((4 - len) * 6 + 8) as u32),
        before == first + decoded_bytes(text.take(at)),
        after == before + seq![(aligned >> 24) as u8, (aligned >> 16) as u8, (aligned >> 8) as u8].take(
            decoded_length(len as nat) as int,
        ),
    ensures
        after == first + decoded_bytes(text.take(at + len)),
{
    let long = text.take(at + len);
    let g = at / 4;
    reveal_with_fuel(gathered, 5);
    assert(is_symbol(text[at]));
    if len >= 2 {
        assert(is_symbol(text[at + 1]));
    }
    if len >= 3 {
        assert(is_symbol(text[at + 2]));
    }
    if len >= 4 {
        assert(is_symbol(text[at + 3]));
    }
    assert(quad(long, g) == sextet_or_zero(long, at + 0) * 262144 + sextet_or_zero(long, at + 1)
        * 4096 + sextet_or_zero(long, at + 2) * 64 + sextet_or_zero(long, at + 3));
    lemma_align(field, len as u32);
    assert((at / 4 * 3) / 3 == g);
    assert((at / 4 * 3 + 1) / 3 == g);
    assert((at / 4 * 3 + 2) / 3 == g);
    lemma_decoded_bytes_grow(text, at, len);
    let tail = Seq::new(
        decoded_length(len as nat),
        |p: int| decoded_byte(text.take(at + len), at / 4 * 3 + p),
    );
    assert(seq![(aligned >> 24) as u8, (aligned >> 16) as u8, (aligned >> 8) as u8].take(
        decoded_length(len as nat) as int,
    ) =~= tail);
    assert(after =~= first + (decoded_bytes(text.take(at)) + tail));
}

/// Appends to `out` the bytes that `data` stands for, once one or two `=` at
/// its end are off. Stops at the first byte that is no symbol: the bytes of
/// the groups of four before that byte's group are then in `out`, and the
/// error names the byte.
pub fn decode(data: &[u8], out: &mut Vec<u8>) -> (res: Result<(), String>)
    ensures
        res is Ok <==> decoded(data@) is Some,
        res is Ok ==> final(out)@ == old(out)@ + decoded(data@).unwrap(),
        res matches Err(message) ==> ({
            let text = stripped(data@);
            let at = first_foreign(text);
            &&& 0 <= at < text.len()
            &&& final(out)@ == old(out)@ + decoded_bytes(text.take(at / 4 * 4))
            &&& message@ == rejection(text, text[at])
        }),
{
    let text = remove_trailing_eq(data);
    let n = text.len();
    let final_size = decoded_len(n);
    out.reserve(final_size);
    let mut at: usize = 0;
    while at < n
        invariant
            text@ == stripped(data@),
            n == text@.len(),
            at <= n,
            at % 4 == 0 || at == n,
            forall|k: int| 0 <= k < at ==> is_symbol(#[trigger] text@[k]),
            out@ == old(out)@ + decoded_bytes(text@.take(at as int)),
        decreases n - at,
    {
        let len: usize = if n - at < 4 {
            n - at
        } else {
            4
        };
        let mut bytes: u32 = 0;
        let mut i: usize = 0;
        while i < len
            invariant
                text@ == stripped(data@),
                n == text@.len(),
                at % 4 == 0,
                1 <= len <= 4,
                at + len <= n,
                i <= len,
                forall|k: int| 0 <= k < at + i ==> is_symbol(#[trigger] text@[k]),
                bytes == gathered(text@, at as int, i as int),
                i == 0 ==> bytes == 0,
                i == 1 ==> bytes < 64,
                i == 2 ==> bytes < 4096,
                i == 3 ==> bytes < 262144,
                i == 4 ==> bytes < 16777216,
                out@ == old(out)@ + decoded_bytes(text@.take(at as int)),
            decreases len - i,
        {
            let byte = text[at + i];
            let sextet: u8 = if UPPER_A <= byte && byte <= UPPER_Z {
                byte - UPPER_A + SEXTET_UPPERS_OFFSET
            } else if LOWER_A <= byte && byte <= LOWER_Z {
                byte - LOWER_A + SEXTET_LOWERS_OFFSET
            } else if DIGIT_0 <= byte && byte <= DIGIT_9 {
                byte - DIGIT_0 + SEXTET_DIGITS_OFFSET
            } else if byte == PLUS {
                SEXTET_PLUS_OFFSET
            } else if byte == SLASH {
                SEXTET_SLASH_OFFSET
            } else {
                proof {
                    lemma_first_foreign(text@, at + i);
                    assert((at + i) / 4 * 4 == at);
                }
                return Err(rejection_message(text, byte));
            };
            proof {
                lemma_gather(bytes, sextet);
            }
            bytes = (bytes << 6) | (sextet as u32);
            i += 1;
        }
        let ghost field = bytes;
        bytes = bytes << ((4 - len) * 6 + 8);
        let decoded = decoded_len(len);
        let ghost before = out@;
        let be_bytes: [u8; 3] = [
            #[verifier::truncate] ((bytes >> 24) as u8),
            #[verifier::truncate] ((bytes >> 16) as u8),
            #[verifier::truncate] ((bytes >> 8) as u8),
        ];
        out.extend_from_slice(&be_bytes[0..decoded]);
        assert(out@ =~= before + be_bytes@.take(decoded as int));
        assert(be_bytes@ =~= seq![(bytes >> 24) as u8, (bytes >> 16) as u8, (bytes >> 8) as u8]);
        proof {
            lemma_group_bytes(text@, at as int, len as int, field, bytes, old(out)@, before, out@);
        }
        at += len;
    }
    proof {
        assert(text@.take(n as int) == text@);
    }
    Ok(())
}

} // verus!
