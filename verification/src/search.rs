use vstd::prelude::*;

use crate::alphabet::{encoding_of, is_symbol, INVALID_CODE};
use crate::compress::{
    lemma_packed_value_bound, lemma_pow4_is_pow2, packed_value, pow4, window_valid,
};
use crate::constants::HASH_CAPACITY_MULTIPLE;
use crate::hash::{counter_bumped, IndexFull};
use vstd::arithmetic::div_mod::{
    lemma_fundamental_div_mod, lemma_mod_multiples_vanish, lemma_small_mod,
};
use vstd::arithmetic::power2::{lemma2_to64, pow2};

verus! {

/// The number of windows of `s` that start below `upto`, are valid, and
/// pack to `key`.
pub open spec fn matches_below(s: Seq<char>, key: u64, upto: int) -> int
    decreases upto,
{
    if upto <= 0 {
        0
    } else {
        matches_below(s, key, upto - 1) + if window_valid(s, upto - 1) && packed_value(
            s,
            upto - 1,
            32,
        ) == key {
            1int
        } else {
            0int
        }
    }
}

/// The number of valid windows of `s` that pack to `key`: how often the
/// 32-symbol needle with that key occurs in `s`, case-insensitively.
pub open spec fn match_count(s: Seq<char>, key: u64) -> int {
    matches_below(s, key, s.len() - 31)
}

/// A counter raised `n` times, pinned at the greatest representable value.
pub open spec fn counter_plus(c: int, n: int) -> int {
    if c + n <= i64::MAX {
        c + n
    } else {
        i64::MAX as int
    }
}

/// Where no window in `[from, to)` is valid, no matches are gained there.
pub proof fn lemma_matches_skip(s: Seq<char>, key: u64, from: int, to: int)
    requires
        from <= to,
        forall|st: int| from <= st < to ==> !window_valid(s, st),
    ensures
        matches_below(s, key, to) == matches_below(s, key, from),
    decreases to - from,
{
    if from < to {
        lemma_matches_skip(s, key, from, to - 1);
    }
}

/// Matching counts below any bound are nonnegative.
pub proof fn lemma_matches_below_nonneg(s: Seq<char>, key: u64, upto: int)
    ensures
        matches_below(s, key, upto) >= 0,
    decreases upto,
{
    if upto > 0 {
        lemma_matches_below_nonneg(s, key, upto - 1);
    }
}

/// Law: matching does not see letter case.  Two haystacks whose characters
/// encode alike — as a canonical symbol's code or as invalid — have the same
/// match count for every key.
pub proof fn lemma_match_count_case_insensitive(s1: Seq<char>, s2: Seq<char>, key: u64)
    requires
        s1.len() == s2.len(),
        forall|i: int| 0 <= i < s1.len() ==> encoding_of(s1[i]) == encoding_of(s2[i]),
    ensures
        match_count(s1, key) == match_count(s2, key),
{
    lemma_matches_below_encodings(s1, s2, key, s1.len() - 31);
}

proof fn lemma_matches_below_encodings(s1: Seq<char>, s2: Seq<char>, key: u64, upto: int)
    requires
        s1.len() == s2.len(),
        forall|i: int| 0 <= i < s1.len() ==> encoding_of(s1[i]) == encoding_of(s2[i]),
    ensures
        matches_below(s1, key, upto) == matches_below(s2, key, upto),
    decreases upto,
{
    if upto > 0 {
        lemma_matches_below_encodings(s1, s2, key, upto - 1);
        if 0 <= upto - 1 && upto - 1 + 32 <= s1.len() {
            lemma_packed_value_encodings(s1, s2, upto - 1, 32);
            assert(window_valid(s1, upto - 1) == window_valid(s2, upto - 1));
        }
    }
}

proof fn lemma_packed_value_encodings(s1: Seq<char>, s2: Seq<char>, start: int, len: int)
    requires
        s1.len() == s2.len(),
        0 <= start,
        len >= 0 ==> start + len <= s1.len(),
        forall|i: int| 0 <= i < s1.len() ==> encoding_of(s1[i]) == encoding_of(s2[i]),
    ensures
        packed_value(s1, start, len) == packed_value(s2, start, len),
    decreases len,
{
    if len > 0 {
        lemma_packed_value_encodings(s1, s2, start, len - 1);
    }
}

proof fn lemma_counter_plus_step(c: int, n: int)
    requires
        0 <= c,
        0 <= n,
    ensures
        counter_bumped(counter_plus(c, n)) == counter_plus(c, n + 1),
{
}

/// One scan of one haystack sequence: the rolling window, the cursor of the
/// next symbol to consume, and the anchor of the window being assembled,
/// beside the worker's private needle index.
pub struct Search {
    pub haystack_index: usize,
    pub haystack_size: usize,
    pub haystack_window: u64,
    pub needles: crate::hash::Hash,
    pub start_index: usize,
}

impl Search {
    /// The searcher is usable: its needle index is well-formed.
    pub open spec fn wf(self) -> bool {
        self.needles.wf()
    }

    /// Builds a searcher over a private needle index holding the given keys,
    /// sized by the oversampling factor so that insertion never fails: every
    /// key is stored, with its counter at zero.
    pub fn new(needles: &Vec<u64>) -> (res: Result<Search, IndexFull>)
        requires
            needles@.len() >= 1,
            needles@.len() * HASH_CAPACITY_MULTIPLE <= usize::MAX,
        ensures
            res is Ok,
            res matches Ok(se) ==> {
                &&& se.wf()
                &&& se.haystack_index == 0
                &&& se.haystack_size == 0
                &&& se.haystack_window == 0
                &&& se.start_index == 0
                &&& se.needles.capacity == needles@.len() * HASH_CAPACITY_MULTIPLE
                &&& forall|k: u64| #[trigger]
                    se.needles@.dom().contains(k) <==> needles@.contains(k)
                &&& forall|k: u64| se.needles@.dom().contains(k) ==> se.needles@[k] == 0
            },
    {
        let capacity = needles.len() * HASH_CAPACITY_MULTIPLE;
        let mut needles_hash = crate::hash::Hash::new(capacity);
        let mut i: usize = 0;
        while i < needles.len()
            invariant
                needles@.len() >= 1,
                capacity == needles@.len() * HASH_CAPACITY_MULTIPLE,
                i <= needles@.len(),
                needles_hash.wf(),
                needles_hash.capacity == capacity,
                needles_hash.num_occupied() <= i,
                forall|k: u64| #[trigger]
                    needles_hash@.dom().contains(k) <==> needles@.subrange(0, i as int).contains(
                        k,
                    ),
                forall|k: u64| needles_hash@.dom().contains(k) ==> needles_hash@[k] == 0,
            decreases needles@.len() - i,
        {
            let ghost before = needles_hash@;
            let ghost prefix = needles@.subrange(0, i as int);
            match needles_hash.add(needles[i]) {
                Ok(()) => {},
                Err(e) => {
                    return Err(e);
                },
            }
            proof {
                assert(needles@.subrange(0, i + 1) =~= prefix.push(needles@[i as int]));
                assert forall|k: u64| #[trigger] needles_hash@.dom().contains(k) implies needles@
                    .subrange(0, i + 1).contains(k) by {
                    if k == needles@[i as int] {
                        assert(needles@.subrange(0, i + 1)[i as int] == k);
                    } else {
                        assert(before.dom().contains(k));
                        let j = choose|j: int| 0 <= j < prefix.len() && #[trigger] prefix[j] == k;
                        assert(needles@.subrange(0, i + 1)[j] == k);
                    }
                }
                assert forall|k: u64| needles@.subrange(0, i + 1).contains(k)
                    implies #[trigger] needles_hash@.dom().contains(k) by {
                    let j = choose|j: int|
                        0 <= j < needles@.subrange(0, i + 1).len() && #[trigger] needles@.subrange(
                            0,
                            i + 1,
                        )[j] == k;
                    if j < i {
                        assert(prefix[j] == k);
                        assert(prefix.contains(k));
                    } else {
                        assert(k == needles@[i as int]);
                    }
                }
            }
            i += 1;
        }
        proof {
            assert(needles@.subrange(0, needles@.len() as int) =~= needles@);
        }
        Ok(
            Search {
                haystack_index: 0,
                haystack_size: 0,
                haystack_window: 0,
                needles: needles_hash,
                start_index: 0,
            },
        )
    }

    /// Scans one haystack left to right with a rolling two-bit window and
    /// counts, for every needle key, each valid 32-symbol window that packs
    /// to it: every stored counter is raised by the key's match count (pinned
    /// at the counter type's greatest value), and no key is added or removed.
    /// A haystack shorter than 32 symbols counts nothing.  On meeting a
    /// character outside the alphabet, the in-flight window is discarded and
    /// assembly restarts just past it, so no window spanning that character
    /// is ever counted.
    #[verifier::loop_isolation(false)]
    pub fn search(&mut self, sequence: &str)
        requires
            old(self).wf(),
        ensures
            final(self).wf(),
            final(self).needles.capacity == old(self).needles.capacity,
            final(self).needles.key@ == old(self).needles.key@,
            final(self).needles.num_occupied() == old(self).needles.num_occupied(),
            forall|k: u64| #[trigger]
                final(self).needles@.dom().contains(k) <==> old(self).needles@.dom().contains(k),
            forall|k: u64| #[trigger]
                old(self).needles@.dom().contains(k) ==> final(self).needles@[k] == counter_plus(
                    old(self).needles@[k],
                    match_count(sequence@, k),
                ),
    {
        let ghost s = sequence@;
        let ghost needles0 = old(self).needles;
        let seq_chars = to_char_vec(sequence);

        // Reset in preparation for the search.
        self.haystack_index = 0;
        self.haystack_size = seq_chars.len();
        self.haystack_window = 0;
        self.start_index = 0;

        proof {
            lemma2_to64();
        }
        if self.haystack_size < 32 {
            // Too short for even one window: nothing to count.
            proof {
                assert forall|k: u64| needles0@.dom().contains(k) implies self.needles@[k]
                    == counter_plus(needles0@[k], match_count(s, k)) by {
                    needles0.lemma_count_bounds(k);
                }
            }
            return ;
        }

        let ghost m: int = pow2(64) as int;
        let ghost mut junk: int = 0;
        proof {
            assert forall|k: u64| needles0@.dom().contains(k) implies self.needles@[k]
                == counter_plus(needles0@[k], matches_below(s, k, 0)) by {
                needles0.lemma_count_bounds(k);
            }
        }
        while self.start_index <= self.haystack_size - 32
            invariant
                self.wf(),
                self.needles.capacity == needles0.capacity,
                self.needles.key@ == needles0.key@,
                self.needles.num_occupied() == needles0.num_occupied(),
                self.haystack_size == s.len(),
                32 <= self.haystack_size,
                forall|k: u64| #[trigger]
                    self.needles@.dom().contains(k) <==> needles0@.dom().contains(k),
                forall|k: u64| #[trigger]
                    needles0@.dom().contains(k) ==> self.needles@[k] == counter_plus(
                        needles0@[k],
                        matches_below(s, k, self.start_index as int),
                    ),
                self.start_index <= self.haystack_index <= self.start_index + 32,
                self.haystack_index <= self.haystack_size,
                forall|j: int|
                    self.start_index <= j < self.haystack_index ==> is_symbol(#[trigger] s[j]),
                junk >= 0,
                self.haystack_window as int == (junk * pow4(
                    (self.haystack_index - self.start_index) as nat,
                ) + packed_value(
                    s,
                    self.start_index as int,
                    self.haystack_index - self.start_index,
                )) % m,
            decreases self.haystack_size - self.start_index,
        {
            let ghost entry_start = self.start_index;
            let ghost entry_needles = self.needles;
            let ghost entry_size = self.haystack_size;

            // Assemble (or top up) the 32-symbol window that begins at the
            // anchor.  After a completed window only the one newly exposed
            // symbol is consumed here.
            let mut resync = false;
            #[verifier::loop_isolation(true)]
            while self.haystack_index < self.start_index + 32
                invariant_except_break
                    m == pow2(64) as int,
                    m == 0x10000000000000000,
                    seq_chars@ == s,
                    resync == false,
                    self.needles == entry_needles,
                    self.haystack_size == entry_size,
                    self.haystack_size == s.len(),
                    self.start_index == entry_start,
                    self.start_index + 32 <= self.haystack_size,
                    self.start_index <= self.haystack_index <= self.start_index + 32,
                    forall|j: int|
                        self.start_index <= j < self.haystack_index ==> is_symbol(#[trigger] s[j]),
                    junk >= 0,
                    self.haystack_window as int == (junk * pow4(
                        (self.haystack_index - self.start_index) as nat,
                    ) + packed_value(
                        s,
                        self.start_index as int,
                        self.haystack_index - self.start_index,
                    )) % m,
                ensures
                    self.needles == entry_needles,
                    self.haystack_size == entry_size,
                    entry_start <= self.start_index,
                    self.start_index <= self.haystack_index <= self.start_index + 32,
                    self.haystack_index <= self.haystack_size,
                    forall|j: int|
                        self.start_index <= j < self.haystack_index ==> is_symbol(#[trigger] s[j]),
                    junk >= 0,
                    self.haystack_window as int == (junk * pow4(
                        (self.haystack_index - self.start_index) as nat,
                    ) + packed_value(
                        s,
                        self.start_index as int,
                        self.haystack_index - self.start_index,
                    )) % m,
                    !resync ==> self.haystack_index == self.start_index + 32,
                    !resync ==> self.start_index == entry_start,
                    resync ==> self.haystack_index == self.start_index,
                    resync ==> entry_start < self.start_index <= entry_start + 32,
                    resync ==> !is_symbol(s[self.start_index - 1]),
                decreases self.start_index + 32 - self.haystack_index,
            {
                let mask = crate::compress::encode_char(seq_chars[self.haystack_index]);

                // A character outside the alphabet discards the in-flight
                // window; the search restarts just past it.
                if mask == INVALID_CODE {
                    self.start_index = self.haystack_index + 1;
                    self.haystack_index = self.start_index;
                    proof {
                        junk = self.haystack_window as int;
                        lemma_small_mod(self.haystack_window as nat, pow2(64));
                    }
                    resync = true;
                    break ;
                }

                let ghost w = self.haystack_window;
                let ghost d = self.haystack_index - self.start_index;
                let ghost x = junk * pow4(d as nat) + packed_value(s, self.start_index as int, d);
                assert(((w << 2u64) | mask) == (w * 4 + mask) % 0x10000000000000000)
                    by (bit_vector)
                    requires
                        mask < 4u64,
                ;
                proof {
                    lemma_rolling_step(x, w as int, mask as int);
                    let p = pow4(d as nat);
                    let p1 = pow4((d + 1) as nat);
                    assert(p1 == 4 * p);
                    assert(junk * p1 == (junk * p) * 4) by (nonlinear_arith)
                        requires
                            p1 == 4 * p,
                    ;
                    assert(packed_value(s, self.start_index as int, d + 1) == packed_value(
                        s,
                        self.start_index as int,
                        d,
                    ) * 4 + mask);
                }
                self.haystack_window = (self.haystack_window << 2) | mask;
                self.haystack_index += 1;
            }

            if resync {
                // No window spanning the bad character is ever counted.
                proof {
                    let ns = self.start_index as int;
                    assert forall|st: int| entry_start <= st < ns implies !window_valid(s, st) by {
                        assert(!is_symbol(s[ns - 1]));
                        assert(st <= ns - 1 < st + 32);
                    }
                    assert forall|k: u64| needles0@.dom().contains(k) implies self.needles@[k]
                        == counter_plus(needles0@[k], matches_below(s, k, ns)) by {
                        lemma_matches_skip(s, k, entry_start as int, ns);
                    }
                }
                continue ;
            }

            // The window is complete: its packed key is exactly the value of
            // the 32 symbols at the anchor, and the needle counters see it.
            proof {
                let st = self.start_index as int;
                let p = packed_value(s, st, 32);
                assert(self.haystack_window as int == (junk * pow4(32) + p) % m);
                lemma_pow4_is_pow2(32);
                vstd::arithmetic::power2::lemma_pow2_pos(64);
                assert(pow4(32) == m);
                assert(junk * pow4(32) == m * junk) by (nonlinear_arith)
                    requires
                        pow4(32) == m,
                ;
                lemma_mod_multiples_vanish(junk, p, m);
                lemma_packed_value_bound(s, st, 32);
                assert(0 <= p < m);
                lemma_small_mod(p as nat, pow2(64));
                assert(self.haystack_window == p);
                assert(window_valid(s, st));
            }
            let ghost before = self.needles;
            let ghost st = self.start_index as int;

            // Bump the anchor to slide the window one symbol to the right:
            // the symbol leaving the window joins the shifted-out residue.
            self.start_index += 1;
            proof {
                junk = encoding_of(s[st]) as int;
                crate::compress::lemma_packed_value_split_first(s, st, 32);
                lemma_packed_value_bound(s, st, 32);
                lemma_small_mod(packed_value(s, st, 32) as nat, pow2(64));
                assert(self.haystack_window as int == (junk * pow4(31) + packed_value(
                    s,
                    st + 1,
                    31,
                )) % m);
            }
            self.needles.inc_hits(self.haystack_window);
            proof {
                assert(self.needles@.dom() =~= before@.dom());
                assert forall|k: u64| needles0@.dom().contains(k) implies self.needles@[k]
                    == counter_plus(needles0@[k], matches_below(s, k, st + 1)) by {
                    needles0.lemma_count_bounds(k);
                    lemma_matches_below_nonneg(s, k, st);
                    assert(before@.dom().contains(k));
                    assert(before.contains_key(k));
                    assert(before@[k] == counter_plus(needles0@[k], matches_below(s, k, st)));
                    let w = self.haystack_window;
                    if k == w {
                        assert(self.needles@ == before@.insert(k, counter_bumped(before@[k])));
                        assert(self.needles@[k] == counter_bumped(before@[k]));
                        lemma_counter_plus_step(needles0@[k], matches_below(s, k, st));
                        assert(window_valid(s, st) && packed_value(s, st, 32) == k);
                        assert(matches_below(s, k, st + 1) == matches_below(s, k, st) + 1);
                    } else {
                        assert(packed_value(s, st, 32) != k);
                        assert(matches_below(s, k, st + 1) == matches_below(s, k, st));
                        if before.contains_key(w) {
                            assert(self.needles@ == before@.insert(w, counter_bumped(before@[w])));
                            assert(self.needles@[k] == before@[k]);
                        } else {
                            assert(self.needles == before);
                        }
                    }
                }
            }
        }

        // Whatever lies past the last full window holds no valid window.
        proof {
            let fin = self.start_index as int;
            assert forall|st: int| s.len() - 31 <= st < fin implies !window_valid(s, st) by {}
            assert forall|k: u64| needles0@.dom().contains(k) implies self.needles@[k]
                == counter_plus(needles0@[k], match_count(s, k)) by {
                if s.len() - 31 <= fin {
                    lemma_matches_skip(s, k, s.len() - 31, fin);
                } else {
                    assert(false);
                }
            }
        }
    }
}

/// One rolling step in modular arithmetic: appending a two-bit code to a
/// window congruent to `x` yields a window congruent to `4 x + code`.
proof fn lemma_rolling_step(x: int, w: int, mask: int)
    requires
        w == x % (pow2(64) as int),
        0 <= mask < 4,
    ensures
        (w * 4 + mask) % (pow2(64) as int) == (x * 4 + mask) % (pow2(64) as int),
{
    let m = pow2(64) as int;
    lemma2_to64();
    lemma_fundamental_div_mod(x, m);
    assert(w == x - m * (x / m));
    assert(w * 4 + mask == m * (-4 * (x / m)) + (x * 4 + mask)) by (nonlinear_arith)
        requires
            w == x - m * (x / m),
    ;
    lemma_mod_multiples_vanish(-4 * (x / m), x * 4 + mask, m);
}

/// The characters of a sequence, in order.
fn to_char_vec(s: &str) -> (v: Vec<char>)
    ensures
        v@ == s@,
{
    let len = s.unicode_len();
    let mut v: Vec<char> = Vec::new();
    let mut i: usize = 0;
    while i < len
        invariant
            i <= len,
            len == s@.len(),
            v@.len() == i,
            forall|j: int| 0 <= j < i ==> v@[j] == s@[j],
        decreases len - i,
    {
        v.push(s.get_char(i));
        i += 1;
    }
    proof {
        assert(v@ =~= s@);
    }
    v
}

} // verus!
