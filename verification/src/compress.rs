use vstd::prelude::*;

use crate::alphabet::{encoding_of, is_symbol, INVALID_CODE};
use vstd::arithmetic::power2::pow2;

verus! {

/// A 32-symbol sequence packed two bits per symbol into one 64-bit key.
pub type CompressedSeq = u64;

/// 4 to the power `n`: the number of distinct packed values of `n` symbols.
pub open spec fn pow4(n: nat) -> int
    decreases n,
{
    if n == 0 {
        1
    } else {
        4 * pow4((n - 1) as nat)
    }
}

/// The value of the `len` symbols of `s` beginning at `start`, packed two
/// bits per symbol, first symbol in the highest bits.
pub open spec fn packed_value(s: Seq<char>, start: int, len: int) -> int
    decreases len,
{
    if len <= 0 {
        0
    } else {
        packed_value(s, start, len - 1) * 4 + encoding_of(s[start + len - 1])
    }
}

/// True when a full 32-symbol window begins at `start` in `s` and every one
/// of its characters lies in the canonical alphabet.
pub open spec fn window_valid(s: Seq<char>, start: int) -> bool {
    &&& 0 <= start
    &&& start + 32 <= s.len()
    &&& forall|j: int| start <= j < start + 32 ==> is_symbol(s[j])
}

/// The canonical letter of one two-bit code.
pub open spec fn symbol_of_code(code: int) -> char {
    if code == 0 {
        'A'
    } else if code == 1 {
        'C'
    } else if code == 2 {
        'G'
    } else {
        'T'
    }
}

/// The `len` canonical symbols packed into `key`, highest bits first.
pub open spec fn decoded_value(key: int, len: nat) -> Seq<char>
    decreases len,
{
    if len == 0 {
        Seq::empty()
    } else {
        decoded_value(key / 4, (len - 1) as nat).push(symbol_of_code(key % 4))
    }
}

/// The canonical (uppercase) form of a sequence of valid symbols.
pub open spec fn canonical_form(s: Seq<char>) -> Seq<char> {
    Seq::new(s.len(), |i: int| symbol_of_code(encoding_of(s[i]) as int))
}

pub proof fn lemma_pow4_positive(n: nat)
    ensures
        pow4(n) >= 1,
    decreases n,
{
    if n > 0 {
        lemma_pow4_positive((n - 1) as nat);
    }
}

pub proof fn lemma_pow4_increases(m: nat, n: nat)
    requires
        m <= n,
    ensures
        pow4(m) <= pow4(n),
    decreases n,
{
    if m < n {
        lemma_pow4_increases(m, (n - 1) as nat);
        lemma_pow4_positive((n - 1) as nat);
    }
}

/// A run of valid symbols packs to a value below 4 to the run's length.
pub proof fn lemma_packed_value_bound(s: Seq<char>, start: int, len: int)
    requires
        forall|j: int| start <= j < start + len ==> is_symbol(#[trigger] s[j]),
    ensures
        0 <= packed_value(s, start, len),
        len >= 0 ==> packed_value(s, start, len) < pow4(len as nat),
    decreases len,
{
    if len <= 0 {
    } else {
        lemma_packed_value_bound(s, start, len - 1);
        assert(is_symbol(s[start + len - 1]));
        assert(encoding_of(s[start + len - 1]) <= 3);
    }
}

/// Encodes one character: canonical symbols map to their two-bit code, every
/// other character to `INVALID_CODE`.  Unlike `crate::alphabet::encode_char`,
/// this encoder accepts every character and never fails.
pub fn encode_char(c: char) -> (code: u64)
    ensures
        code == encoding_of(c),
{
    match c {
        'A' | 'a' => 0,
        'C' | 'c' => 1,
        'G' | 'g' => 2,
        'T' | 't' => 3,
        _ => INVALID_CODE,
    }
}

/// Packs a sequence of exactly 32 symbols into one 64-bit key, first symbol
/// in the highest bits.  Fails when the length is not exactly 32 or when any
/// character lies outside the canonical alphabet, in either case.
pub fn compress_seq(seq: &str) -> (res: Option<CompressedSeq>)
    ensures
        res is Some <==> seq@.len() == 32 && window_valid(seq@, 0),
        res matches Some(key) ==> key == packed_value(seq@, 0, 32),
{
    let len = seq.unicode_len();
    if len != 32 {
        return None;
    }
    let mut key: u64 = 0;
    let mut i: usize = 0;
    while i < 32
        invariant
            seq@.len() == 32,
            i <= 32,
            forall|j: int| 0 <= j < i ==> is_symbol(#[trigger] seq@[j]),
            key == packed_value(seq@, 0, i as int),
        decreases 32 - i,
    {
        let code = encode_char(seq.get_char(i));
        if code == INVALID_CODE {
            return None;
        }
        proof {
            lemma_packed_value_bound(seq@, 0, i as int);
            lemma_pow4_increases(i as nat, 31);
            lemma_pow4_is_pow2(31);
            vstd::arithmetic::power2::lemma2_to64_rest();
        }
        assert(((key << 2u64) | code) == key * 4 + code) by (bit_vector)
            requires
                key < 0x4000000000000000u64 && code < 4u64,
        ;
        key = (key << 2) | code;
        i += 1;
    }
    Some(key)
}

/// Peeling the first symbol: a run's packed value is its first symbol's code
/// at the highest weight, followed by the packed value of the rest.
pub proof fn lemma_packed_value_split_first(s: Seq<char>, start: int, len: int)
    requires
        1 <= len,
    ensures
        packed_value(s, start, len) == encoding_of(s[start]) * pow4((len - 1) as nat)
            + packed_value(s, start + 1, len - 1),
    decreases len,
{
    let c0 = encoding_of(s[start]) as int;
    if len == 1 {
        assert(pow4(0) == 1);
        assert(packed_value(s, start, 1) == packed_value(s, start, 0) * 4 + c0);
    } else {
        lemma_packed_value_split_first(s, start, len - 1);
        let p = pow4((len - 2) as nat);
        let q = packed_value(s, start + 1, len - 2);
        assert((c0 * p + q) * 4 == c0 * (4 * p) + q * 4) by (nonlinear_arith);
        assert(pow4((len - 1) as nat) == 4 * p);
    }
}

pub proof fn lemma_decoded_value_len(key: int, len: nat)
    ensures
        decoded_value(key, len).len() == len,
    decreases len,
{
    if len > 0 {
        lemma_decoded_value_len(key / 4, (len - 1) as nat);
    }
}

/// Law: unpacking the packed value of a run of valid symbols yields the
/// run's canonical (uppercase) form.
pub proof fn lemma_decode_of_packed(s: Seq<char>, start: int, len: int)
    requires
        0 <= len,
        0 <= start,
        start + len <= s.len(),
        forall|j: int| start <= j < start + len ==> is_symbol(#[trigger] s[j]),
    ensures
        decoded_value(packed_value(s, start, len), len as nat) == canonical_form(
            s.subrange(start, start + len),
        ),
    decreases len,
{
    lemma_decoded_value_len(packed_value(s, start, len), len as nat);
    if len == 0 {
        assert(decoded_value(packed_value(s, start, 0), 0) =~= canonical_form(
            s.subrange(start, start),
        ));
    } else {
        let p = packed_value(s, start, len - 1);
        let c = encoding_of(s[start + len - 1]);
        lemma_packed_value_bound(s, start, len - 1);
        assert(is_symbol(s[start + len - 1]));
        assert(0 <= c < 4);
        vstd::arithmetic::div_mod::lemma_fundamental_div_mod_converse(
            p * 4 + c,
            4,
            p,
            c as int,
        );
        lemma_decode_of_packed(s, start, len - 1);
        assert(decoded_value(p * 4 + c, len as nat) =~= canonical_form(
            s.subrange(start, start + len),
        ));
    }
}

/// Law: packing is injective on the canonical form.  Two valid 32-symbol
/// sequences that pack to the same key have the same canonical form.
pub proof fn lemma_compress_injective(s1: Seq<char>, s2: Seq<char>)
    requires
        s1.len() == 32,
        s2.len() == 32,
        window_valid(s1, 0),
        window_valid(s2, 0),
        packed_value(s1, 0, 32) == packed_value(s2, 0, 32),
    ensures
        canonical_form(s1) == canonical_form(s2),
{
    lemma_decode_of_packed(s1, 0, 32);
    lemma_decode_of_packed(s2, 0, 32);
    assert(s1.subrange(0, 32) =~= s1);
    assert(s2.subrange(0, 32) =~= s2);
}

/// Law: compression does not see letter case.  A valid 32-symbol sequence
/// and its canonical (uppercase) form are both accepted and pack to the
/// same key, so `compress_seq` returns the same result for both.
pub proof fn lemma_compress_case_insensitive(s: Seq<char>)
    requires
        s.len() == 32,
        window_valid(s, 0),
    ensures
        canonical_form(s).len() == 32,
        window_valid(canonical_form(s), 0),
        packed_value(canonical_form(s), 0, 32) == packed_value(s, 0, 32),
{
    assert forall|j: int| 0 <= j < 32 implies is_symbol(#[trigger] canonical_form(s)[j]) by {
        assert(is_symbol(s[j]));
    }
    lemma_packed_value_case_insensitive(s, 0, 32);
}

/// Law: packing does not see letter case.  A run of symbols and its
/// canonical form pack to the same value.
pub proof fn lemma_packed_value_case_insensitive(s: Seq<char>, start: int, len: int)
    requires
        0 <= start,
        len >= 0 ==> start + len <= s.len(),
        forall|j: int| start <= j < start + len ==> is_symbol(#[trigger] s[j]),
    ensures
        packed_value(canonical_form(s), start, len) == packed_value(s, start, len),
    decreases len,
{
    if len > 0 {
        lemma_packed_value_case_insensitive(s, start, len - 1);
        assert(is_symbol(s[start + len - 1]));
        assert(encoding_of(canonical_form(s)[start + len - 1]) == encoding_of(
            s[start + len - 1],
        ));
    }
}

/// Unpacks a key into the 32 canonical symbols it encodes, first symbol in
/// the highest bits.
pub fn decode_seq(key: CompressedSeq) -> (symbols: Vec<char>)
    ensures
        symbols@ == decoded_value(key as int, 32),
{
    let mut symbols: Vec<char> = Vec::new();
    let mut i: usize = 0;
    while i < 32
        invariant
            i <= 32,
            symbols@.len() == i,
            forall|j: int| 0 <= j < i ==> symbols@[j] == decoded_value(key as int, 32)[j],
        decreases 32 - i,
    {
        let sh: u64 = 62 - 2 * (i as u64);
        let code: u64 = (key >> sh) & 3;
        proof {
            lemma_code_at_index(key, i as int);
        }
        let c: char = if code == 0 {
            'A'
        } else if code == 1 {
            'C'
        } else if code == 2 {
            'G'
        } else {
            'T'
        };
        symbols.push(c);
        i += 1;
    }
    proof {
        lemma_decoded_value_len(key as int, 32);
        assert(symbols@ =~= decoded_value(key as int, 32));
    }
    symbols
}

/// The symbol at position `i` of a decoded key is given by the two bits at
/// weight 4^(31 - i).
proof fn lemma_decoded_index(key: int, len: nat, i: int)
    requires
        0 <= key,
        0 <= i < len,
    ensures
        decoded_value(key, len)[i] == symbol_of_code((key / pow4((len - 1 - i) as nat)) % 4),
    decreases len,
{
    lemma_decoded_value_len(key, len);
    lemma_decoded_value_len(key / 4, (len - 1) as nat);
    if i == len - 1 {
        assert(pow4(0) == 1);
    } else {
        vstd::arithmetic::div_mod::lemma_div_pos_is_pos(key, 4);
        lemma_decoded_index(key / 4, (len - 1) as nat, i);
        let m = pow4((len - 2 - i) as nat);
        lemma_pow4_positive((len - 2 - i) as nat);
        vstd::arithmetic::div_mod::lemma_div_denominator(key, 4, m);
        assert(4 * m == pow4((len - 1 - i) as nat));
    }
}

/// Connects the executable shift-and-mask extraction with the two bits at
/// weight 4^(31 - i) of the key.
proof fn lemma_code_at_index(key: u64, i: int)
    requires
        0 <= i < 32,
    ensures
        (key >> (62 - 2 * i) as u64) & 3 == (key as int / pow4((31 - i) as nat)) % 4,
        decoded_value(key as int, 32)[i] == symbol_of_code(
            ((key >> (62 - 2 * i) as u64) & 3) as int,
        ),
{
    let sh = (62 - 2 * i) as u64;
    vstd::bits::lemma_u64_shr_is_div(key, sh);
    assert((key >> sh) & 3 == (key >> sh) % 4) by (bit_vector);
    lemma_pow4_is_pow2((31 - i) as nat);
    assert(pow2(sh as nat) == pow4((31 - i) as nat));
    vstd::arithmetic::power2::lemma_pow2_pos(sh as nat);
    assert(key >> sh == key as nat / pow2(sh as nat));
    assert((key >> sh) % 4 == (key as int / pow4((31 - i) as nat)) % 4);
    lemma_decoded_index(key as int, 32, i);
}

/// 4^n is 2^(2n).
pub proof fn lemma_pow4_is_pow2(n: nat)
    ensures
        pow4(n) == pow2(2 * n),
    decreases n,
{
    if n == 0 {
        vstd::arithmetic::power2::lemma2_to64();
    } else {
        lemma_pow4_is_pow2((n - 1) as nat);
        vstd::arithmetic::power2::lemma_pow2_adds(2, (2 * n - 2) as nat);
        vstd::arithmetic::power2::lemma2_to64();
    }
}

} // verus!
