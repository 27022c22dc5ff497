use vstd::prelude::*;

verus! {

/// Code returned for a byte outside the canonical four-letter alphabet.
pub const INVALID_CODE: u64 = 255;

/// The two-bit code of one symbol: the four canonical letters map, in a
/// fixed order, to the codes 0 through 3; their lowercase forms map to the
/// same codes; every other character maps to `INVALID_CODE`.
pub open spec fn encoding_of(c: char) -> u64 {
    if c == 'A' || c == 'a' {
        0
    } else if c == 'C' || c == 'c' {
        1
    } else if c == 'G' || c == 'g' {
        2
    } else if c == 'T' || c == 't' {
        3
    } else {
        INVALID_CODE
    }
}

/// True of the characters that stand for a nucleotide symbol.
pub open spec fn is_symbol(c: char) -> bool {
    encoding_of(c) != INVALID_CODE
}

/// Encodes one canonical symbol as its two-bit code.  Callers must hand in
/// a valid symbol; the total encoder over arbitrary characters lives in
/// `crate::compress::encode_char`.
pub fn encode_char(c: char) -> (code: u64)
    requires
        is_symbol(c),
    ensures
        code == encoding_of(c),
{
    match c {
        'A' | 'a' => 0,
        'C' | 'c' => 1,
        'G' | 'g' => 2,
        'T' | 't' => 3,
        _ => unreached(),
    }
}

} // verus!
