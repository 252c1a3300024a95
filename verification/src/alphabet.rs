//! The sixty-four symbols and the sextets they stand for.

use vstd::prelude::*;
use crate::common::{
    SEXTET_DIGITS_OFFSET, SEXTET_LOWERS_OFFSET, SEXTET_PLUS_OFFSET, SEXTET_SLASH_OFFSET,
    SEXTET_UPPERS_OFFSET,
};

verus! {

/// ASCII `A`, the symbol of sextet 0.
pub const UPPER_A: u8 = 65;

/// ASCII `Z`.
pub const UPPER_Z: u8 = 90;

/// ASCII `a`.
pub const LOWER_A: u8 = 97;

/// ASCII `z`.
pub const LOWER_Z: u8 = 122;

/// ASCII `0`.
pub const DIGIT_0: u8 = 48;

/// ASCII `9`.
pub const DIGIT_9: u8 = 57;

/// ASCII `+`.
pub const PLUS: u8 = 43;

/// ASCII `/`.
pub const SLASH: u8 = 47;

/// ASCII `=`, which fills the last group of four symbols.
pub const PAD: u8 = 61;

/// `b` is an uppercase letter.
pub open spec fn is_upper(b: u8) -> bool {
    UPPER_A <= b <= UPPER_Z
}

/// `b` is a lowercase letter.
pub open spec fn is_lower(b: u8) -> bool {
    LOWER_A <= b <= LOWER_Z
}

/// `b` is a decimal digit.
pub open spec fn is_digit(b: u8) -> bool {
    DIGIT_0 <= b <= DIGIT_9
}

/// `b` is one of the sixty-four symbols. The padding byte is none of them.
pub open spec fn is_symbol(b: u8) -> bool {
    is_upper(b) || is_lower(b) || is_digit(b) || b == PLUS || b == SLASH
}

/// The sextet that the symbol `b` stands for; 0 for a byte that is no symbol.
pub open spec fn sextet_of(b: u8) -> int {
    if is_upper(b) {
        b - UPPER_A + SEXTET_UPPERS_OFFSET
    } else if is_lower(b) {
        b - LOWER_A + SEXTET_LOWERS_OFFSET
    } else if is_digit(b) {
        b - DIGIT_0 + SEXTET_DIGITS_OFFSET
    } else if b == PLUS {
        SEXTET_PLUS_OFFSET as int
    } else if b == SLASH {
        SEXTET_SLASH_OFFSET as int
    } else {
        0
    }
}

/// The symbol of a sextet in `0..64`.
pub open spec fn symbol_of(sextet: int) -> u8 {
    if sextet < SEXTET_LOWERS_OFFSET {
        (sextet - SEXTET_UPPERS_OFFSET + UPPER_A) as u8
    } else if sextet < SEXTET_DIGITS_OFFSET {
        (sextet - SEXTET_LOWERS_OFFSET + LOWER_A) as u8
    } else if sextet < SEXTET_PLUS_OFFSET {
        (sextet - SEXTET_DIGITS_OFFSET + DIGIT_0) as u8
    } else if sextet == SEXTET_PLUS_OFFSET {
        PLUS
    } else {
        SLASH
    }
}

/// Every sextet has a symbol, and the symbol stands for that sextet.
pub proof fn lemma_symbol_of_sextet(sextet: int)
    requires
        0 <= sextet < 64,
    ensures
        is_symbol(symbol_of(sextet)),
        symbol_of(sextet) != PAD,
        sextet_of(symbol_of(sextet)) == sextet,
{
}

} // verus!
