use vstd::prelude::*;
use vstd::arithmetic::power2::{pow2, lemma_pow2_unfold, lemma_pow2_adds, lemma_pow2_pos, lemma2_to64};

use crate::bit_reader::{BitReader, BitSequence, bit_at, bits_value};
use crate::{Error, ErrorKind};

verus! {

/// Codes longer than this many bits are a hard error.
pub const MAX_BITS: usize = 15;

/// How many of the first `n` symbols have code length `l`.
pub open spec fn count_len(lengths: Seq<u8>, l: int, n: int) -> int
    decreases n,
{
    if n <= 0 {
        0
    } else {
        count_len(lengths, l, n - 1) + if lengths[n - 1] == l {
            1int
        } else {
            0int
        }
    }
}

/// How many of the first `n` symbols have a non-zero code length.
pub open spec fn count_nonzero(lengths: Seq<u8>, n: int) -> int
    decreases n,
{
    if n <= 0 {
        0
    } else {
        count_nonzero(lengths, n - 1) + if lengths[n - 1] != 0 {
            1int
        } else {
            0int
        }
    }
}

/// The Kraft weight of one code length: 2^(15 - l) for a usable length,
/// nothing for an absent symbol.
pub open spec fn kraft_term(l: int) -> int {
    if 1 <= l <= 15 {
        pow2((15 - l) as nat) as int
    } else {
        0
    }
}

/// The Kraft sum over the first `n` symbols; a full code space sums to 2^15.
pub open spec fn kraft_sum(lengths: Seq<u8>, n: int) -> int
    decreases n,
{
    if n <= 0 {
        0
    } else {
        kraft_sum(lengths, n - 1) + kraft_term(lengths[n - 1] as int)
    }
}

/// The Kraft sum regrouped by code length: the lengths up to `l` only.
pub open spec fn kraft_counts(lengths: Seq<u8>, n: int, l: int) -> int
    decreases l,
{
    if l <= 0 {
        0
    } else {
        kraft_counts(lengths, n, l - 1) + count_len(lengths, l, n) * kraft_term(l)
    }
}

/// The first canonical code of length `l` (RFC 1951 next_code recurrence).
pub open spec fn first_code(lengths: Seq<u8>, l: int) -> int
    decreases l,
{
    if l <= 1 {
        0
    } else {
        (first_code(lengths, l - 1) + count_len(lengths, l - 1, lengths.len() as int)) * 2
    }
}

/// The canonical code of symbol `s`: the first code of its length plus its
/// rank among earlier symbols of the same length.
pub open spec fn canonical_code(lengths: Seq<u8>, s: int) -> int {
    first_code(lengths, lengths[s] as int) + count_len(lengths, lengths[s] as int, s)
}

pub proof fn lemma_count_len_bound(lengths: Seq<u8>, l: int, n: int)
    ensures
        0 <= count_len(lengths, l, n) <= if n >= 0 {
            n
        } else {
            0
        },
    decreases n,
{
    if n > 0 {
        lemma_count_len_bound(lengths, l, n - 1);
    }
}

pub proof fn lemma_count_nonzero_bound(lengths: Seq<u8>, n: int)
    ensures
        0 <= count_nonzero(lengths, n) <= if n >= 0 {
            n
        } else {
            0
        },
    decreases n,
{
    if n > 0 {
        lemma_count_nonzero_bound(lengths, n - 1);
    }
}

pub proof fn lemma_count_len_mono(lengths: Seq<u8>, l: int, n1: int, n2: int)
    requires
        n1 <= n2,
    ensures
        count_len(lengths, l, n1) <= count_len(lengths, l, n2),
    decreases n2 - n1,
{
    if n1 < n2 {
        lemma_count_len_mono(lengths, l, n1, n2 - 1);
    }
}

proof fn lemma_kraft_counts_step(lengths: Seq<u8>, n: int, l: int)
    requires
        n >= 1,
    ensures
        kraft_counts(lengths, n, l) == kraft_counts(lengths, n - 1, l) + if 1 <= lengths[n - 1]
            <= l {
            kraft_term(lengths[n - 1] as int)
        } else {
            0
        },
    decreases l,
{
    if l > 0 {
        lemma_kraft_counts_step(lengths, n, l - 1);
        let c = count_len(lengths, l, n - 1);
        if lengths[n - 1] == l {
            assert(count_len(lengths, l, n) == c + 1);
            assert((c + 1) * kraft_term(l) == c * kraft_term(l) + kraft_term(l))
                by (nonlinear_arith);
        }
    }
}

/// The first canonical code of any length is non-negative.
pub proof fn lemma_first_code_nonneg(lengths: Seq<u8>, l: int)
    ensures
        first_code(lengths, l) >= 0,
    decreases l,
{
    if l > 1 {
        lemma_first_code_nonneg(lengths, l - 1);
        lemma_count_len_bound(lengths, l - 1, lengths.len() as int);
    }
}

/// The per-symbol Kraft sum equals the sum regrouped by code length, as long
/// as no length exceeds 15.
pub proof fn lemma_kraft_exchange(lengths: Seq<u8>, n: int)
    requires
        forall|i: int| 0 <= i < n ==> lengths[i] <= 15,
    ensures
        kraft_sum(lengths, n) == kraft_counts(lengths, n, 15),
    decreases n,
{
    if n <= 0 {
        lemma_kraft_counts_zero(lengths, n, 15);
    } else {
        lemma_kraft_exchange(lengths, n - 1);
        lemma_kraft_counts_step(lengths, n, 15);
    }
}

proof fn lemma_kraft_counts_zero(lengths: Seq<u8>, n: int, l: int)
    requires
        n <= 0,
    ensures
        kraft_counts(lengths, n, l) == 0,
    decreases l,
{
    if l > 0 {
        lemma_kraft_counts_zero(lengths, n, l - 1);
    }
}

/// Each regrouped partial sum is non-negative and at most the full sum over
/// lengths up to 15.
pub proof fn lemma_kraft_counts_mono(lengths: Seq<u8>, n: int, l1: int, l2: int)
    requires
        0 <= l1 <= l2,
    ensures
        kraft_counts(lengths, n, l1) <= kraft_counts(lengths, n, l2),
    decreases l2 - l1,
{
    if l1 < l2 {
        lemma_kraft_counts_mono(lengths, n, l1, l2 - 1);
        lemma_count_len_bound(lengths, l2, n);
        lemma_kraft_term_nonneg(l2);
        vstd::arithmetic::mul::lemma_mul_nonnegative(
            count_len(lengths, l2, n),
            kraft_term(l2),
        );
    }
}

pub proof fn lemma_kraft_term_nonneg(l: int)
    ensures
        kraft_term(l) >= 0,
        1 <= l <= 15 ==> kraft_term(l) >= 1,
{
    if 1 <= l <= 15 {
        lemma_pow2_pos((15 - l) as nat);
    }
}

pub proof fn lemma_kraft_counts_nonneg(lengths: Seq<u8>, n: int, l: int)
    ensures
        kraft_counts(lengths, n, l) >= 0,
    decreases l,
{
    if l > 0 {
        lemma_kraft_counts_nonneg(lengths, n, l - 1);
        lemma_count_len_bound(lengths, l, n);
        lemma_kraft_term_nonneg(l);
        vstd::arithmetic::mul::lemma_mul_nonnegative(
            count_len(lengths, l, n),
            kraft_term(l),
        );
    }
}

/// The canonical first code of length `l`, weighted to the common scale,
/// is exactly the Kraft mass of all shorter codes.
pub proof fn lemma_first_code_identity(lengths: Seq<u8>, l: int)
    requires
        1 <= l <= 15,
    ensures
        first_code(lengths, l) * kraft_term(l) == kraft_counts(
            lengths,
            lengths.len() as int,
            l - 1,
        ),
    decreases l,
{
    let n = lengths.len() as int;
    if l == 1 {
        lemma_kraft_term_nonneg(1);
        assert(first_code(lengths, 1) == 0);
        assert(0 * kraft_term(1) == 0) by (nonlinear_arith);
    } else {
        lemma_first_code_identity(lengths, l - 1);
        let fc = first_code(lengths, l - 1);
        let c = count_len(lengths, l - 1, n);
        // kraft_term(l - 1) == 2 * kraft_term(l)
        assert(kraft_term(l - 1) == 2 * kraft_term(l)) by {
            lemma_pow2_unfold((15 - (l - 1)) as nat);
        }
        assert(first_code(lengths, l) == (fc + c) * 2);
        assert(((fc + c) * 2) * kraft_term(l) == fc * (2 * kraft_term(l)) + c * (2 * kraft_term(
            l,
        ))) by (nonlinear_arith);
        assert(fc * (2 * kraft_term(l)) == fc * kraft_term(l - 1));
        assert(c * (2 * kraft_term(l)) == c * kraft_term(l - 1));
        assert(kraft_counts(lengths, n, l - 1) == kraft_counts(lengths, n, l - 2) + c
            * kraft_term(l - 1));
    }
}

/// With the Kraft sum at most the full code space, every canonical code fits
/// in its length: `canonical_code(s) < 2^lengths[s]`.
pub proof fn lemma_code_bound(lengths: Seq<u8>, s: int)
    requires
        0 <= s < lengths.len(),
        1 <= lengths[s] <= 15,
        forall|i: int| 0 <= i < lengths.len() ==> lengths[i] <= 15,
        kraft_sum(lengths, lengths.len() as int) <= pow2(15),
    ensures
        0 <= canonical_code(lengths, s),
        canonical_code(lengths, s) * kraft_term(lengths[s] as int) < pow2(15),
        canonical_code(lengths, s) < pow2(lengths[s] as nat),
{
    let n = lengths.len() as int;
    let l = lengths[s] as int;
    let fc = first_code(lengths, l);
    let rank = count_len(lengths, l, s);
    let total = count_len(lengths, l, n);
    let kt = kraft_term(l);
    lemma_first_code_identity(lengths, l);
    lemma_kraft_term_nonneg(l);
    lemma_count_len_bound(lengths, l, s);
    lemma_kraft_counts_nonneg(lengths, n, l - 1);
    lemma_first_code_nonneg(lengths, l);
    // rank < total: symbol s itself has length l and lies beyond position s
    assert(count_len(lengths, l, s + 1) == rank + 1);
    lemma_count_len_mono(lengths, l, s + 1, n);
    // (fc + rank) * kt <= kraft_counts(n, l-1) + (total - 1) * kt
    //                  == kraft_counts(n, l) - kt <= kraft_sum - kt < 2^15
    lemma_kraft_exchange(lengths, n);
    lemma_kraft_counts_mono(lengths, n, l, 15);
    assert(kraft_counts(lengths, n, l) == kraft_counts(lengths, n, l - 1) + total * kt);
    assert((fc + rank) * kt == fc * kt + rank * kt) by (nonlinear_arith);
    assert(rank * kt <= (total - 1) * kt) by (nonlinear_arith)
        requires
            rank <= total - 1,
            kt >= 0,
    ;
    assert((total - 1) * kt == total * kt - kt) by (nonlinear_arith);
    assert((fc + rank) * kt <= kraft_counts(lengths, n, l) - kt);
    assert((fc + rank) * kt < pow2(15));
    // divide out the weight: code * 2^(15-l) < 2^15 ==> code < 2^l
    assert(kt == pow2((15 - l) as nat));
    lemma_pow2_adds((l) as nat, (15 - l) as nat);
    assert(pow2(15) == pow2(l as nat) * pow2((15 - l) as nat));
    let code = fc + rank;
    assert(code < pow2(l as nat)) by (nonlinear_arith)
        requires
            code * kt < pow2(l as nat) * kt,
            kt > 0,
    ;
}

/// In the code space scaled to weight 2^15, the canonical code of symbol
/// `s` occupies an interval inside its length's band: the bands of shorter
/// lengths lie strictly below it.
proof fn lemma_scaled_interval(lengths: Seq<u8>, s: int)
    requires
        0 <= s < lengths.len(),
        1 <= lengths[s] <= 15,
        forall|i: int| 0 <= i < lengths.len() ==> lengths[i] <= 15,
        kraft_sum(lengths, lengths.len() as int) <= pow2(15),
    ensures
        kraft_counts(lengths, lengths.len() as int, lengths[s] as int - 1) <= canonical_code(
            lengths,
            s,
        ) * kraft_term(lengths[s] as int),
        (canonical_code(lengths, s) + 1) * kraft_term(lengths[s] as int) <= kraft_counts(
            lengths,
            lengths.len() as int,
            lengths[s] as int,
        ),
{
    let n = lengths.len() as int;
    let l = lengths[s] as int;
    let fc = first_code(lengths, l);
    let rank = count_len(lengths, l, s);
    let total = count_len(lengths, l, n);
    let kt = kraft_term(l);
    lemma_first_code_identity(lengths, l);
    lemma_kraft_term_nonneg(l);
    lemma_count_len_bound(lengths, l, s);
    lemma_first_code_nonneg(lengths, l);
    assert(count_len(lengths, l, s + 1) == rank + 1);
    lemma_count_len_mono(lengths, l, s + 1, n);
    assert(kraft_counts(lengths, n, l) == kraft_counts(lengths, n, l - 1) + total * kt);
    assert((fc + rank) * kt == fc * kt + rank * kt) by (nonlinear_arith);
    assert((fc + rank + 1) * kt == fc * kt + (rank + 1) * kt) by (nonlinear_arith);
    assert(rank * kt >= 0) by (nonlinear_arith)
        requires
            rank >= 0,
            kt >= 0,
    ;
    assert((rank + 1) * kt <= total * kt) by (nonlinear_arith)
        requires
            rank + 1 <= total,
            kt >= 0,
    ;
}

/// Canonical codes are prefix-free: for two coded symbols, the code word of
/// the first is never the leading bits of the strictly longer code word of
/// the second, and equal-length code words of distinct symbols differ.
pub proof fn lemma_canonical_prefix_free(lengths: Seq<u8>, s1: int, s2: int)
    requires
        0 <= s1 < lengths.len(),
        0 <= s2 < lengths.len(),
        s1 != s2,
        1 <= lengths[s1] <= 15,
        1 <= lengths[s2] <= 15,
        lengths[s1] <= lengths[s2],
        forall|i: int| 0 <= i < lengths.len() ==> lengths[i] <= 15,
        kraft_sum(lengths, lengths.len() as int) <= pow2(15),
    ensures
        canonical_code(lengths, s2) / (pow2((lengths[s2] - lengths[s1]) as nat) as int)
            != canonical_code(lengths, s1),
{
    let n = lengths.len() as int;
    let l1 = lengths[s1] as int;
    let l2 = lengths[s2] as int;
    let c1 = canonical_code(lengths, s1);
    let c2 = canonical_code(lengths, s2);
    let p = pow2((l2 - l1) as nat) as int;
    let kt1 = kraft_term(l1);
    let kt2 = kraft_term(l2);
    lemma_pow2_pos((l2 - l1) as nat);
    lemma_kraft_term_nonneg(l1);
    lemma_kraft_term_nonneg(l2);
    lemma_pow2_pos((15 - l2) as nat);
    lemma_code_bound(lengths, s1);
    lemma_code_bound(lengths, s2);
    lemma_scaled_interval(lengths, s1);
    lemma_scaled_interval(lengths, s2);
    if l1 == l2 {
        // equal lengths: the ranks differ, so the codes differ
        if s1 < s2 {
            assert(count_len(lengths, l1, s1 + 1) == count_len(lengths, l1, s1) + 1);
            lemma_count_len_mono(lengths, l1, s1 + 1, s2);
        } else {
            assert(count_len(lengths, l1, s2 + 1) == count_len(lengths, l1, s2) + 1);
            lemma_count_len_mono(lengths, l1, s2 + 1, s1);
        }
        assert(pow2(0) == 1) by {
            lemma2_to64();
        }
        assert(c2 / 1int == c2);
    } else {
        // a shorter prefix would pull c2's scaled interval inside c1's,
        // below the band where length-l2 codes start
        if c2 / p == c1 {
            vstd::arithmetic::div_mod::lemma_fundamental_div_mod(c2, p);
            assert(c2 == p * c1 + c2 % p);
            assert(0 <= c2 % p < p) by {
                vstd::arithmetic::div_mod::lemma_mod_bound(c2, p);
            }
            // scale both sides to weight 2^15
            assert(kt1 == p * kt2) by {
                lemma_pow2_adds((l2 - l1) as nat, (15 - l2) as nat);
            }
            assert(c2 * kt2 < (c1 + 1) * kt1) by (nonlinear_arith)
                requires
                    c2 < p * c1 + p,
                    kt1 == p * kt2,
                    kt2 > 0,
            ;
            lemma_kraft_counts_mono(lengths, n, l1, l2 - 1);
            assert(false);
        }
    }
}

/// A raw numeric Huffman code word, before symbol translation.
pub struct HuffmanCodeWord(pub u16);

/// A symbol alphabet: a total description of which code words are defined
/// and what they mean. Words outside the alphabet get no table entry, so
/// their (never-used) canonical codes decode to an error.
pub trait CodeSymbol: Sized + Copy {
    spec fn spec_of_word(word: u16) -> Option<Self>;

    fn of_word(word: HuffmanCodeWord) -> (r: Option<Self>)
        ensures
            r == Self::spec_of_word(word.0),
    ;
}

/// A symbol of the code-length meta-alphabet (RFC 1951 section 3.2.7).
#[derive(Clone, Copy, Debug, PartialEq, Eq, Structural)]
pub enum TreeCodeToken {
    /// Emit this code length, 0 through 15.
    Length(u8),
    /// Repeat the previous length 3 + (2 extra bits) times.
    CopyPrev,
    /// Emit `base` + (`extra_bits` extra bits) zeros.
    RepeatZero { base: u16, extra_bits: u8 },
}

impl CodeSymbol for TreeCodeToken {
    open spec fn spec_of_word(word: u16) -> Option<Self> {
        if word <= 15 {
            Some(TreeCodeToken::Length(word as u8))
        } else if word == 16 {
            Some(TreeCodeToken::CopyPrev)
        } else if word == 17 {
            Some(TreeCodeToken::RepeatZero { base: 3, extra_bits: 3 })
        } else if word == 18 {
            Some(TreeCodeToken::RepeatZero { base: 11, extra_bits: 7 })
        } else {
            None
        }
    }

    fn of_word(word: HuffmanCodeWord) -> (r: Option<Self>) {
        if word.0 <= 15 {
            Some(TreeCodeToken::Length(word.0 as u8))
        } else if word.0 == 16 {
            Some(TreeCodeToken::CopyPrev)
        } else if word.0 == 17 {
            Some(TreeCodeToken::RepeatZero { base: 3, extra_bits: 3 })
        } else if word.0 == 18 {
            Some(TreeCodeToken::RepeatZero { base: 11, extra_bits: 7 })
        } else {
            None
        }
    }
}

/// A symbol of the literal/length alphabet (RFC 1951 section 3.2.5);
/// 286 and 287 are reserved and outside the alphabet.
#[derive(Clone, Copy, Debug, PartialEq, Eq, Structural)]
pub enum LitLenToken {
    Literal(u8),
    EndOfBlock,
    Length { base: u16, extra_bits: u8 },
}

/// The RFC 1951 length table: base match length and extra bits per word.
pub open spec fn spec_litlen_token(word: u16) -> Option<LitLenToken> {
    if word <= 255 {
        Some(LitLenToken::Literal(word as u8))
    } else if word == 256 {
        Some(LitLenToken::EndOfBlock)
    } else if word <= 264 {
        Some(LitLenToken::Length { base: (word - 254) as u16, extra_bits: 0 })
    } else if word <= 268 {
        Some(LitLenToken::Length { base: (11 + 2 * ((word - 265) % 4)) as u16, extra_bits: 1 })
    } else if word <= 272 {
        Some(LitLenToken::Length { base: (19 + 4 * ((word - 265) % 4)) as u16, extra_bits: 2 })
    } else if word <= 276 {
        Some(LitLenToken::Length { base: (35 + 8 * ((word - 265) % 4)) as u16, extra_bits: 3 })
    } else if word <= 280 {
        Some(LitLenToken::Length { base: (67 + 16 * ((word - 265) % 4)) as u16, extra_bits: 4 })
    } else if word <= 284 {
        Some(LitLenToken::Length { base: (131 + 32 * ((word - 265) % 4)) as u16, extra_bits: 5 })
    } else if word == 285 {
        Some(LitLenToken::Length { base: 258, extra_bits: 0 })
    } else {
        None
    }
}

impl CodeSymbol for LitLenToken {
    open spec fn spec_of_word(word: u16) -> Option<Self> {
        spec_litlen_token(word)
    }

    fn of_word(word: HuffmanCodeWord) -> (r: Option<Self>) {
        let v = word.0;
        if v <= 255 {
            Some(LitLenToken::Literal(v as u8))
        } else if v == 256 {
            Some(LitLenToken::EndOfBlock)
        } else if v <= 264 {
            Some(LitLenToken::Length { base: v - 254, extra_bits: 0 })
        } else if v <= 268 {
            Some(LitLenToken::Length { base: 11 + 2 * ((v - 265) % 4), extra_bits: 1 })
        } else if v <= 272 {
            Some(LitLenToken::Length { base: 19 + 4 * ((v - 265) % 4), extra_bits: 2 })
        } else if v <= 276 {
            Some(LitLenToken::Length { base: 35 + 8 * ((v - 265) % 4), extra_bits: 3 })
        } else if v <= 280 {
            Some(LitLenToken::Length { base: 67 + 16 * ((v - 265) % 4), extra_bits: 4 })
        } else if v <= 284 {
            Some(LitLenToken::Length { base: 131 + 32 * ((v - 265) % 4), extra_bits: 5 })
        } else if v == 285 {
            Some(LitLenToken::Length { base: 258, extra_bits: 0 })
        } else {
            None
        }
    }
}

/// A symbol of the distance alphabet (RFC 1951 section 3.2.5);
/// 30 and 31 are reserved and outside the alphabet.
#[derive(Clone, Copy, Debug, PartialEq, Eq, Structural)]
pub struct DistanceToken {
    pub base: u16,
    pub extra_bits: u8,
}

/// The RFC 1951 distance table: base distance and extra bits per word.
pub open spec fn spec_distance_token(word: u16) -> Option<DistanceToken> {
    if word <= 3 {
        Some(DistanceToken { base: (word + 1) as u16, extra_bits: 0 })
    } else if word <= 29 {
        let extra = (word / 2 - 1) as nat;
        Some(
            DistanceToken {
                base: (((word % 2) + 2) * pow2(extra) + 1) as u16,
                extra_bits: (word / 2 - 1) as u8,
            },
        )
    } else {
        None
    }
}

impl CodeSymbol for DistanceToken {
    open spec fn spec_of_word(word: u16) -> Option<Self> {
        spec_distance_token(word)
    }

    fn of_word(word: HuffmanCodeWord) -> (r: Option<Self>) {
        let v = word.0;
        if v <= 3 {
            Some(DistanceToken { base: v + 1, extra_bits: 0 })
        } else if v <= 29 {
            let extra: u8 = (v / 2 - 1) as u8;
            let base: u16 = ((v % 2) + 2) << extra;
            proof {
                let e = extra;
                let w = v;
                assert(e <= 13);
                lemma2_to64();
                assert(pow2(e as nat) <= pow2(13)) by {
                    if e < 13 {
                        vstd::arithmetic::power2::lemma_pow2_strictly_increases(
                            e as nat,
                            13,
                        );
                    }
                }
                assert((((w % 2) + 2) as u16) * pow2(e as nat) <= 3 * pow2(13))
                    by (nonlinear_arith)
                    requires
                        ((w % 2) + 2) as u16 <= 3,
                        pow2(e as nat) <= pow2(13),
                ;
                vstd::bits::lemma_u16_pow2_no_overflow(e as nat);
                vstd::bits::lemma_u16_shl_is_mul(((w % 2) + 2) as u16, e as u16);
            }
            Some(DistanceToken { base: base + 1, extra_bits: extra })
        } else {
            None
        }
    }
}

/// The table entries that canonical construction produces from the first
/// `n` lengths: one per symbol with a non-zero length and a defined meaning,
/// in symbol order, keyed by the canonical code.
pub open spec fn spec_entries<T: CodeSymbol>(lengths: Seq<u8>, n: int) -> Seq<(BitSequence, T)>
    decreases n,
{
    if n <= 0 {
        Seq::empty()
    } else {
        let p = spec_entries::<T>(lengths, n - 1);
        if lengths[n - 1] == 0 {
            p
        } else {
            match T::spec_of_word((n - 1) as u16) {
                Some(t) => p.push((entry_key(lengths, n - 1), t)),
                None => p,
            }
        }
    }
}

/// The table key of symbol `s`: its canonical code over its code length.
pub open spec fn entry_key(lengths: Seq<u8>, s: int) -> BitSequence {
    BitSequence { bits: canonical_code(lengths, s) as u16, len: lengths[s] }
}

/// The association-list semantics of the entry table.
pub open spec fn map_of<T>(s: Seq<(BitSequence, T)>) -> Map<BitSequence, T>
    decreases s.len(),
{
    if s.len() == 0 {
        Map::empty()
    } else {
        map_of(s.drop_last()).insert(s.last().0, s.last().1)
    }
}

pub proof fn lemma_map_of_index<T>(s: Seq<(BitSequence, T)>, i: int)
    requires
        0 <= i < s.len(),
        forall|j: int, k: int|
            0 <= j < k < s.len() ==> (#[trigger] s[j]).0 != (#[trigger] s[k]).0,
    ensures
        map_of(s).contains_key(s[i].0),
        map_of(s)[s[i].0] == s[i].1,
    decreases s.len(),
{
    if i == s.len() - 1 {
    } else {
        lemma_map_of_index(s.drop_last(), i);
        assert(s.drop_last()[i] == s[i]);
        assert(s[i].0 != s.last().0);
    }
}

pub proof fn lemma_map_of_absent<T>(s: Seq<(BitSequence, T)>, k: BitSequence)
    requires
        forall|i: int| 0 <= i < s.len() ==> (#[trigger] s[i]).0 != k,
    ensures
        !map_of(s).contains_key(k),
    decreases s.len(),
{
    if s.len() > 0 {
        lemma_map_of_absent(s.drop_last(), k);
        assert(forall|i: int|
            0 <= i < s.len() - 1 ==> (#[trigger] s.drop_last()[i]).0 == s[i].0);
    }
}

/// The key of a symbol not yet processed differs from every key already in
/// the table: same length means a strictly larger rank, other lengths keep
/// the code apart through the length field.
proof fn lemma_entry_key_fresh<T: CodeSymbol>(lengths: Seq<u8>, n: int, s: int)
    requires
        0 <= n <= s < lengths.len(),
        1 <= lengths[s] <= 15,
        forall|i: int| 0 <= i < lengths.len() ==> lengths[i] <= 15,
        kraft_sum(lengths, lengths.len() as int) <= pow2(15),
    ensures
        forall|i: int|
            0 <= i < spec_entries::<T>(lengths, n).len() ==> (#[trigger] spec_entries::<T>(
                lengths,
                n,
            )[i]).0 != entry_key(lengths, s),
    decreases n,
{
    if n > 0 {
        lemma_entry_key_fresh::<T>(lengths, n - 1, s);
        let p = spec_entries::<T>(lengths, n - 1);
        let e = spec_entries::<T>(lengths, n);
        if lengths[n - 1] != 0 && T::spec_of_word((n - 1) as u16) is Some {
            assert(e == p.push((entry_key(lengths, n - 1), T::spec_of_word(
                (n - 1) as u16,
            ).unwrap())));
            assert(forall|i: int| 0 <= i < p.len() ==> e[i] == p[i]);
            // the fresh key differs from the key of symbol n - 1
            lemma_code_bound(lengths, n - 1);
            lemma_code_bound(lengths, s);
            if lengths[n - 1] == lengths[s] {
                let l = lengths[s] as int;
                assert(count_len(lengths, l, (n - 1) + 1) == count_len(lengths, l, n - 1) + 1);
                lemma_count_len_mono(lengths, l, n, s);
                lemma_first_code_nonneg(lengths, l);
                lemma_count_len_bound(lengths, l, n - 1);
                lemma_count_len_bound(lengths, l, s);
                lemma2_to64();
                assert(pow2(lengths[s] as nat) <= pow2(15)) by {
                    if lengths[s] < 15 {
                        vstd::arithmetic::power2::lemma_pow2_strictly_increases(
                            lengths[s] as nat,
                            15,
                        );
                    }
                }
                assert(canonical_code(lengths, n - 1) < canonical_code(lengths, s));
                assert(canonical_code(lengths, n - 1) as u16 != canonical_code(
                    lengths,
                    s,
                ) as u16);
            }
            assert(entry_key(lengths, n - 1) != entry_key(lengths, s));
        } else {
            assert(e == p);
        }
    }
}

/// The canonical table has pairwise distinct, well-formed keys.
pub proof fn lemma_entries_distinct<T: CodeSymbol>(lengths: Seq<u8>, n: int)
    requires
        0 <= n <= lengths.len(),
        forall|i: int| 0 <= i < lengths.len() ==> lengths[i] <= 15,
        kraft_sum(lengths, lengths.len() as int) <= pow2(15),
    ensures
        forall|j: int, k: int|
            0 <= j < k < spec_entries::<T>(lengths, n).len() ==> (#[trigger] spec_entries::<T>(
                lengths,
                n,
            )[j]).0 != (#[trigger] spec_entries::<T>(lengths, n)[k]).0,
        forall|i: int|
            0 <= i < spec_entries::<T>(lengths, n).len() ==> (#[trigger] spec_entries::<T>(
                lengths,
                n,
            )[i]).0.wf() && 1 <= spec_entries::<T>(lengths, n)[i].0.len <= 15,
    decreases n,
{
    if n > 0 {
        lemma_entries_distinct::<T>(lengths, n - 1);
        let p = spec_entries::<T>(lengths, n - 1);
        let e = spec_entries::<T>(lengths, n);
        if lengths[n - 1] != 0 && T::spec_of_word((n - 1) as u16) is Some {
            assert(e == p.push((entry_key(lengths, n - 1), T::spec_of_word(
                (n - 1) as u16,
            ).unwrap())));
            assert(forall|i: int| 0 <= i < p.len() ==> e[i] == p[i]);
            lemma_entry_key_fresh::<T>(lengths, n - 1, n - 1);
            lemma_code_bound(lengths, n - 1);
            lemma_first_code_nonneg(lengths, lengths[n - 1] as int);
            lemma_count_len_bound(lengths, lengths[n - 1] as int, n - 1);
            assert(entry_key(lengths, n - 1).wf());
        } else {
            assert(e == p);
        }
    }
}

/// Every coded symbol's key is present in the canonical table with that
/// symbol as its value.
pub proof fn lemma_entry_present<T: CodeSymbol>(lengths: Seq<u8>, n: int, s: int, t: T)
    requires
        0 <= s < n <= lengths.len(),
        lengths[s] != 0,
        T::spec_of_word(s as u16) == Some(t),
    ensures
        exists|i: int|
            0 <= i < spec_entries::<T>(lengths, n).len() && #[trigger] spec_entries::<T>(
                lengths,
                n,
            )[i] == (entry_key(lengths, s), t),
    decreases n,
{
    let e = spec_entries::<T>(lengths, n);
    let p = spec_entries::<T>(lengths, n - 1);
    if s == n - 1 {
        assert(e[p.len() as int] == (entry_key(lengths, s), t));
    } else {
        lemma_entry_present::<T>(lengths, n - 1, s, t);
        let i = choose|i: int|
            0 <= i < p.len() && #[trigger] p[i] == (entry_key(lengths, s), t);
        assert(e[i] == (entry_key(lengths, s), t));
    }
}

/// Which error canonical construction reports for a length table, and
/// `None` exactly when it accepts one: lengths above 15 are refused, an
/// oversubscribed Kraft sum is refused, and an incomplete one is refused
/// unless the table is empty or, with `lone_code_ok`, is the single
/// one-bit-code degenerate table.
pub open spec fn lengths_error(lengths: Seq<u8>, lone_code_ok: bool) -> Option<Error> {
    let n = lengths.len() as int;
    if n > 65536 {
        Some(Error::InvalidData(ErrorKind::TooManySymbols))
    } else if exists|i: int| 0 <= i < n && #[trigger] lengths[i] > 15 {
        Some(Error::InvalidData(ErrorKind::CodeLengthTooLong))
    } else if kraft_sum(lengths, n) > pow2(15) {
        Some(Error::InvalidData(ErrorKind::OversubscribedCode))
    } else if kraft_sum(lengths, n) != 0 && kraft_sum(lengths, n) != pow2(15) && !(lone_code_ok
        && count_nonzero(lengths, n) == 1 && kraft_sum(lengths, n) == pow2(14)) {
        Some(Error::InvalidData(ErrorKind::IncompleteCode))
    } else {
        None
    }
}

/// Acceptance for every alphabet but the distance one: an incomplete code
/// is always refused unless the table is empty.
pub open spec fn from_lengths_error(lengths: Seq<u8>) -> Option<Error> {
    lengths_error(lengths, false)
}

/// Acceptance for a distance tree, where RFC 1951 permits the degenerate
/// table of exactly one one-bit code.
pub open spec fn distance_lengths_error(lengths: Seq<u8>) -> Option<Error> {
    lengths_error(lengths, true)
}

/// A canonical Huffman decoder: a table from code words to symbols.
pub struct HuffmanCoding<T> {
    pub entries: Vec<(BitSequence, T)>,
}

impl<T: CodeSymbol> HuffmanCoding<T> {
    pub open spec fn wf(self) -> bool {
        &&& forall|j: int, k: int|
            0 <= j < k < self.entries@.len() ==> (#[trigger] self.entries@[j]).0 != (
            #[trigger] self.entries@[k]).0
        &&& forall|i: int|
            0 <= i < self.entries@.len() ==> (#[trigger] self.entries@[i]).0.wf() && 1
                <= self.entries@[i].0.len <= 15
    }

    /// The decoding table as a map from code words to symbols.
    pub open spec fn spec_map(self) -> Map<BitSequence, T> {
        map_of(self.entries@)
    }

    pub fn new(entries: Vec<(BitSequence, T)>) -> (r: Self)
        ensures
            r.entries == entries,
    {
        HuffmanCoding { entries }
    }

    /// Looks one complete code word up; `None` when no symbol has it.
    pub fn decode_symbol(&self, seq: BitSequence) -> (r: Option<T>)
        requires
            self.wf(),
        ensures
            r == if self.spec_map().contains_key(seq) {
                Some(self.spec_map()[seq])
            } else {
                None::<T>
            },
    {
        let n = self.entries.len();
        let mut i: usize = 0;
        while i < n
            invariant
                self.wf(),
                n == self.entries@.len(),
                i <= n,
                forall|j: int| 0 <= j < i ==> (#[trigger] self.entries@[j]).0 != seq,
            decreases n - i,
        {
            let (key, val) = self.entries[i];
            if key == seq {
                proof {
                    lemma_map_of_index(self.entries@, i as int);
                }
                return Some(val);
            }
            i = i + 1;
        }
        proof {
            lemma_map_of_absent(self.entries@, seq);
        }
        None
    }

    /// Builds the canonical code from the lengths per RFC 1951 section
    /// 3.2.2, validating the Kraft sum: it rejects oversubscribed tables
    /// and incomplete ones, except for an empty table; a lone one-bit
    /// code is accepted only when `lone_code_ok` says the alphabet
    /// permits the degenerate table.
    fn from_lengths_checked(code_lengths: &[u8], lone_code_ok: bool) -> (r: Result<Self, Error>)
        ensures
            match r {
                Ok(c) => {
                    &&& lengths_error(code_lengths@, lone_code_ok) is None
                    &&& c.wf()
                    &&& c.entries@ == spec_entries::<T>(
                        code_lengths@,
                        code_lengths@.len() as int,
                    )
                },
                Err(e) => lengths_error(code_lengths@, lone_code_ok) == Some(e),
            },
    {
        let ghost lengths = code_lengths@;
        let n = code_lengths.len();
        if n > 65536 {
            return Err(Error::InvalidData(ErrorKind::TooManySymbols));
        }
        // count the lengths and check they fit in 15 bits
        let mut bl: Vec<u32> = Vec::new();
        while bl.len() < 16
            invariant
                bl.len() <= 16,
                forall|l: int| 0 <= l < bl.len() ==> bl@[l] == 0,
            decreases 16 - bl.len(),
        {
            bl.push(0);
        }
        let mut nz: u32 = 0;
        let mut i: usize = 0;
        proof {
            assert(forall|l: int| 0 <= l < 16 ==> count_len(lengths, l, 0) == 0);
        }
        while i < n
            invariant
                bl.len() == 16,
                i <= n == lengths.len(),
                n <= 65536,
                code_lengths@ == lengths,
                forall|j: int| 0 <= j < i ==> #[trigger] lengths[j] <= 15,
                forall|l: int| 0 <= l < 16 ==> bl@[l] == count_len(lengths, l, i as int),
                nz == count_nonzero(lengths, i as int),
            decreases n - i,
        {
            let l = code_lengths[i];
            if l > 15 {
                return Err(Error::InvalidData(ErrorKind::CodeLengthTooLong));
            }
            proof {
                lemma_count_len_bound(lengths, l as int, i as int);
                lemma_count_nonzero_bound(lengths, i as int);
            }
            let cur = bl[l as usize];
            bl[l as usize] = cur + 1;
            if l != 0 {
                nz = nz + 1;
            }
            i = i + 1;
            proof {
                assert(forall|ll: int|
                    0 <= ll < 16 ==> bl@[ll] == count_len(lengths, ll, i as int));
            }
        }
        // the Kraft sum decides acceptance
        let mut kraft: u64 = 0;
        let mut l: usize = 1;
        proof {
            lemma2_to64();
        }
        while l <= 15
            invariant
                bl.len() == 16,
                1 <= l <= 16,
                n == lengths.len() <= 65536,
                forall|j: int| 0 <= j < n ==> #[trigger] lengths[j] <= 15,
                forall|ll: int| 0 <= ll < 16 ==> bl@[ll] == count_len(lengths, ll, n as int),
                kraft == kraft_counts(lengths, n as int, l as int - 1),
            decreases 16 - l,
        {
            proof {
                lemma2_to64();
                lemma_kraft_counts_ub(lengths, n as int, l as int - 1);
                lemma_kraft_counts_nonneg(lengths, n as int, l as int - 1);
                lemma_count_len_bound(lengths, l as int, n as int);
                assert(kraft_term(l as int) <= pow2(14)) by {
                    if l > 1 {
                        vstd::arithmetic::power2::lemma_pow2_strictly_increases(
                            (15 - l as int) as nat,
                            14,
                        );
                    }
                }
                assert(bl@[l as int] * kraft_term(l as int) <= 65536 * 16384)
                    by (nonlinear_arith)
                    requires
                        0 <= bl@[l as int] <= 65536,
                        0 <= kraft_term(l as int) <= 16384,
                ;
                vstd::bits::lemma_u64_shl_is_mul(1u64, (15 - l) as u64);
            }
            let term: u64 = (bl[l] as u64) * (1u64 << ((15 - l) as u64));
            kraft = kraft + term;
            l = l + 1;
        }
        proof {
            lemma_kraft_exchange(lengths, n as int);
            lemma2_to64();
        }
        if kraft > 32768 {
            return Err(Error::InvalidData(ErrorKind::OversubscribedCode));
        }
        if kraft != 0 && kraft != 32768 && !(lone_code_ok && nz == 1 && kraft == 16384) {
            return Err(Error::InvalidData(ErrorKind::IncompleteCode));
        }
        // the RFC next_code recurrence
        let mut next_code: Vec<u32> = Vec::new();
        while next_code.len() < 16
            invariant
                next_code.len() <= 16,
            decreases 16 - next_code.len(),
        {
            next_code.push(0);
        }
        bl[0] = 0;
        let mut code: u32 = 0;
        let mut bits: usize = 1;
        while bits <= 15
            invariant
                bl.len() == 16,
                next_code.len() == 16,
                1 <= bits <= 16,
                n == lengths.len() <= 65536,
                forall|j: int| 0 <= j < n ==> #[trigger] lengths[j] <= 15,
                bl@[0] == 0,
                forall|ll: int| 1 <= ll < 16 ==> bl@[ll] == count_len(lengths, ll, n as int),
                kraft_sum(lengths, n as int) <= pow2(15),
                code == first_code(lengths, bits as int - 1),
                forall|ll: int|
                    1 <= ll < bits ==> next_code@[ll] == first_code(lengths, ll),
            decreases 16 - bits,
        {
            proof {
                lemma2_to64();
                lemma_first_code_bound(lengths, bits as int);
                lemma_first_code_nonneg(lengths, bits as int - 1);
                lemma_count_len_bound(lengths, bits as int - 1, n as int);
                if bits == 1 {
                    assert(first_code(lengths, 1) == 0);
                }
            }
            let prev = if bits == 1 {
                0
            } else {
                bl[bits - 1]
            };
            code = (code + prev) * 2;
            next_code[bits] = code;
            bits = bits + 1;
        }
        // assign codes in symbol order
        let mut entries: Vec<(BitSequence, T)> = Vec::new();
        let mut s: usize = 0;
        proof {
            assert(entries@ =~= spec_entries::<T>(lengths, 0));
        }
        while s < n
            invariant
                next_code.len() == 16,
                s <= n == lengths.len(),
                n <= 65536,
                code_lengths@ == lengths,
                forall|j: int| 0 <= j < n ==> #[trigger] lengths[j] <= 15,
                kraft_sum(lengths, n as int) <= pow2(15),
                forall|ll: int|
                    1 <= ll < 16 ==> next_code@[ll] == first_code(lengths, ll) + count_len(
                        lengths,
                        ll,
                        s as int,
                    ),
                entries@ == spec_entries::<T>(lengths, s as int),
            decreases n - s,
        {
            let l = code_lengths[s];
            if l >= 1 {
                proof {
                    lemma_code_bound(lengths, s as int);
                    lemma_first_code_nonneg(lengths, l as int);
                    lemma_count_len_bound(lengths, l as int, s as int);
                    lemma2_to64();
                    assert(pow2(l as nat) <= pow2(15)) by {
                        if l < 15 {
                            vstd::arithmetic::power2::lemma_pow2_strictly_increases(
                                l as nat,
                                15,
                            );
                        }
                    }
                }
                let code = next_code[l as usize];
                let key = BitSequence { bits: code as u16, len: l };
                next_code[l as usize] = code + 1;
                match T::of_word(HuffmanCodeWord(s as u16)) {
                    Some(t) => {
                        entries.push((key, t));
                        proof {
                            assert(entries@ =~= spec_entries::<T>(lengths, s as int + 1));
                        }
                    },
                    None => {
                        proof {
                            assert(entries@ =~= spec_entries::<T>(lengths, s as int + 1));
                        }
                    },
                }
                proof {
                    assert(forall|ll: int|
                        1 <= ll < 16 ==> next_code@[ll] == first_code(lengths, ll) + count_len(
                            lengths,
                            ll,
                            s as int + 1,
                        ));
                }
            } else {
                proof {
                    assert(entries@ =~= spec_entries::<T>(lengths, s as int + 1));
                }
            }
            s = s + 1;
        }
        proof {
            lemma_entries_distinct::<T>(lengths, n as int);
        }
        Ok(HuffmanCoding { entries })
    }

    /// Canonical construction for the literal/length and code-length
    /// alphabets: an incomplete code is rejected unless the table is
    /// empty; the lone one-bit-code table is incomplete here too.
    pub fn from_lengths(code_lengths: &[u8]) -> (r: Result<Self, Error>)
        ensures
            match r {
                Ok(c) => {
                    &&& from_lengths_error(code_lengths@) is None
                    &&& c.wf()
                    &&& c.entries@ == spec_entries::<T>(
                        code_lengths@,
                        code_lengths@.len() as int,
                    )
                },
                Err(e) => from_lengths_error(code_lengths@) == Some(e),
            },
    {
        Self::from_lengths_checked(code_lengths, false)
    }
}

impl HuffmanCoding<DistanceToken> {
    /// Canonical construction for a distance tree, which alone admits the
    /// RFC-permitted degenerate table of exactly one one-bit code.
    pub fn from_lengths_distance(code_lengths: &[u8]) -> (r: Result<Self, Error>)
        ensures
            match r {
                Ok(c) => {
                    &&& distance_lengths_error(code_lengths@) is None
                    &&& c.wf()
                    &&& c.entries@ == spec_entries::<DistanceToken>(
                        code_lengths@,
                        code_lengths@.len() as int,
                    )
                },
                Err(e) => distance_lengths_error(code_lengths@) == Some(e),
            },
    {
        Self::from_lengths_checked(code_lengths, true)
    }
}

/// A coarse bound on the regrouped Kraft sum of at most 65536 symbols.
pub proof fn lemma_kraft_counts_ub(lengths: Seq<u8>, n: int, l: int)
    requires
        0 <= l <= 15,
        n <= 65536,
    ensures
        kraft_counts(lengths, n, l) <= l * 0x40000000,
    decreases l,
{
    if l > 0 {
        lemma_kraft_counts_ub(lengths, n, l - 1);
        lemma_count_len_bound(lengths, l, n);
        lemma_kraft_term_nonneg(l);
        lemma2_to64();
        assert(kraft_term(l) <= pow2(14)) by {
            if l > 1 {
                vstd::arithmetic::power2::lemma_pow2_strictly_increases(
                    (15 - l) as nat,
                    14,
                );
            }
        }
        assert(count_len(lengths, l, n) * kraft_term(l) <= 0x40000000) by (nonlinear_arith)
            requires
                0 <= count_len(lengths, l, n) <= 65536,
                0 <= kraft_term(l) <= 16384,
        ;
        assert((l - 1) * 0x40000000 + 0x40000000 == l * 0x40000000) by (nonlinear_arith);
    }
}

/// With the Kraft sum within the code space, the first code of each length
/// stays within that length's range.
pub proof fn lemma_first_code_bound(lengths: Seq<u8>, l: int)
    requires
        1 <= l <= 15,
        forall|i: int| 0 <= i < lengths.len() ==> lengths[i] <= 15,
        kraft_sum(lengths, lengths.len() as int) <= pow2(15),
    ensures
        0 <= first_code(lengths, l) <= pow2(l as nat),
{
    let n = lengths.len() as int;
    lemma_first_code_nonneg(lengths, l);
    lemma_first_code_identity(lengths, l);
    lemma_kraft_exchange(lengths, n);
    lemma_kraft_counts_mono(lengths, n, l - 1, 15);
    lemma_kraft_term_nonneg(l);
    lemma_pow2_adds(l as nat, (15 - l) as nat);
    let fc = first_code(lengths, l);
    let kt = kraft_term(l);
    assert(fc * kt <= pow2(15));
    assert(pow2(15) == pow2(l as nat) * kt);
    assert(fc <= pow2(l as nat)) by (nonlinear_arith)
        requires
            fc * kt <= pow2(l as nat) * kt,
            kt > 0,
    ;
}

/// The value of the `k`-bit group starting at bit position `s`, assembled
/// MSB-first: the first bit read is the highest bit, the canonical Huffman
/// code-word order.
pub open spec fn msb_value(data: Seq<u8>, s: int, k: nat) -> nat
    decreases k,
{
    if k == 0 {
        0
    } else {
        msb_value(data, s, (k - 1) as nat) * 2 + bit_at(data, s + k - 1) as nat
    }
}

/// The candidate code word of length `k` read MSB-first at bit position `s`.
pub open spec fn code_key(data: Seq<u8>, s: int, k: nat) -> BitSequence {
    BitSequence { bits: msb_value(data, s, k) as u16, len: k as u8 }
}

pub proof fn lemma_msb_value_bound(data: Seq<u8>, s: int, k: nat)
    ensures
        msb_value(data, s, k) < pow2(k),
    decreases k,
{
    if k == 0 {
        lemma2_to64();
    } else {
        lemma_msb_value_bound(data, s, (k - 1) as nat);
        lemma_pow2_unfold(k);
        crate::bit_reader::lemma_bit_at_is_bit(data, s + k - 1);
    }
}

/// A shorter MSB-first group at the same position is the longer group
/// shifted down: the bits read first are the high-order ones.
pub proof fn lemma_msb_value_prefix(data: Seq<u8>, s: int, k1: nat, k2: nat)
    requires
        k1 <= k2,
    ensures
        msb_value(data, s, k1) as int == msb_value(data, s, k2) as int / (pow2(
            (k2 - k1) as nat,
        ) as int),
    decreases k2 - k1,
{
    if k1 == k2 {
        lemma2_to64();
        assert(msb_value(data, s, k2) as int / 1int == msb_value(data, s, k2) as int);
    } else {
        lemma_msb_value_prefix(data, s, k1, (k2 - 1) as nat);
        let a = msb_value(data, s, (k2 - 1) as nat) as int;
        let b = bit_at(data, s + k2 - 1) as int;
        let q = pow2((k2 - 1 - k1) as nat) as int;
        crate::bit_reader::lemma_bit_at_is_bit(data, s + k2 - 1);
        lemma_pow2_pos((k2 - 1 - k1) as nat);
        lemma_pow2_unfold((k2 - k1) as nat);
        assert(msb_value(data, s, k2) as int == a * 2 + b);
        assert((a * 2 + b) / 2 == a) by (nonlinear_arith)
            requires
                0 <= b < 2,
                a >= 0,
        ;
        vstd::arithmetic::div_mod::lemma_div_denominator(a * 2 + b, 2, q);
        assert((a * 2 + b) / (2 * q) == a / q);
    }
}

impl<T: CodeSymbol> HuffmanCoding<T> {
    /// Reads one code word bit by bit, MSB-first, and translates it: the
    /// shortest matching code wins, and more than 15 bits without a match
    /// is invalid data.
    pub fn read_symbol(&self, reader: &mut BitReader) -> (r: Result<T, Error>)
        requires
            self.wf(),
            old(reader).wf(),
        ensures
            final(reader).wf(),
            final(reader).spec_data() == old(reader).spec_data(),
            final(reader).bit_pos() >= old(reader).bit_pos(),
            match r {
                Ok(t) => {
                    let d = old(reader).spec_data();
                    let start = old(reader).bit_pos();
                    let l = final(reader).bit_pos() - start;
                    &&& 1 <= l <= 15
                    &&& start + l <= old(reader).total_bits()
                    &&& self.spec_map().contains_key(code_key(d, start, l as nat))
                    &&& self.spec_map()[code_key(d, start, l as nat)] == t
                    &&& forall|l2: int|
                        0 <= l2 < l ==> !self.spec_map().contains_key(
                            #[trigger] code_key(d, start, l2 as nat),
                        )
                },
                Err(e) => {
                    let d = old(reader).spec_data();
                    let start = old(reader).bit_pos();
                    &&& (e == Error::UnexpectedEof || e == Error::InvalidData(
                        ErrorKind::BadHuffmanCode,
                    ))
                    &&& (e == Error::InvalidData(ErrorKind::BadHuffmanCode) ==> {
                        &&& final(reader).bit_pos() == start + 16
                        &&& forall|l2: int|
                            0 <= l2 <= 15 ==> !self.spec_map().contains_key(
                                #[trigger] code_key(d, start, l2 as nat),
                            )
                    })
                    &&& (e == Error::UnexpectedEof ==> {
                        &&& old(reader).total_bits() - start <= 15
                        &&& forall|l2: int|
                            0 <= l2 <= old(reader).total_bits() - start
                                ==> !self.spec_map().contains_key(
                                #[trigger] code_key(d, start, l2 as nat),
                            )
                    })
                },
            },
    {
        let ghost d = old(reader).spec_data();
        let ghost start = old(reader).bit_pos();
        let mut cur = BitSequence::new(0, 0);
        proof {
            lemma2_to64();
            lemma_map_of_absent(self.entries@, code_key(d, start, 0));
        }
        loop
            invariant
                self.wf(),
                reader.wf(),
                reader.spec_data() == d,
                d == old(reader).spec_data(),
                start == old(reader).bit_pos(),
                cur.wf(),
                cur.len <= 15,
                reader.bit_pos() == start + cur.len,
                cur == code_key(d, start, cur.len as nat),
                forall|l2: int|
                    0 <= l2 <= cur.len ==> !self.spec_map().contains_key(
                        #[trigger] code_key(d, start, l2 as nat),
                    ),
            decreases 15 - cur.len,
        {
            let b = reader.read_bits(1)?;
            proof {
                assert(bits_value(d, start + cur.len + 1, 0) == 0);
                assert(b.spec_bits() == bit_at(d, start + cur.len) as u16);
                lemma2_to64();
            }
            let ghost oldcur = cur;
            cur = cur.concat(b);
            proof {
                assert(cur.spec_bits() == oldcur.spec_bits() * 2 + b.spec_bits());
                assert(msb_value(d, start, cur.len as nat) == msb_value(
                    d,
                    start,
                    oldcur.len as nat,
                ) * 2 + bit_at(d, start + cur.len - 1) as nat);
                lemma_msb_value_bound(d, start, cur.len as nat);
                assert(pow2(cur.len as nat) <= pow2(16)) by {
                    if cur.len < 16 {
                        vstd::arithmetic::power2::lemma_pow2_strictly_increases(
                            cur.len as nat,
                            16,
                        );
                    }
                }
                assert(cur == code_key(d, start, cur.len as nat));
            }
            if cur.len() > 15 {
                return Err(Error::InvalidData(ErrorKind::BadHuffmanCode));
            }
            match self.decode_symbol(cur) {
                Some(t) => {
                    return Ok(t);
                },
                None => {},
            }
        }
    }
}

/// Huffman round trip: building a canonical code from acceptable lengths
/// and then looking up the canonical encoding of any coded symbol yields
/// that symbol again.
pub proof fn lemma_huffman_roundtrip<T: CodeSymbol>(lengths: Seq<u8>, s: int, t: T)
    requires
        lengths_error(lengths, true) is None,
        0 <= s < lengths.len(),
        lengths[s] != 0,
        T::spec_of_word(s as u16) == Some(t),
    ensures
        map_of(spec_entries::<T>(lengths, lengths.len() as int)).contains_key(
            entry_key(lengths, s),
        ),
        map_of(spec_entries::<T>(lengths, lengths.len() as int))[entry_key(lengths, s)] == t,
{
    let n = lengths.len() as int;
    lemma2_to64();
    assert(forall|i: int| 0 <= i < n ==> lengths[i] <= 15);
    lemma_entry_present::<T>(lengths, n, s, t);
    lemma_entries_distinct::<T>(lengths, n);
    let i = choose|i: int|
        0 <= i < spec_entries::<T>(lengths, n).len() && #[trigger] spec_entries::<T>(
            lengths,
            n,
        )[i] == (entry_key(lengths, s), t);
    lemma_map_of_index(spec_entries::<T>(lengths, n), i);
}

/// A key the table maps comes from some entry of the table.
pub proof fn lemma_map_of_value<T>(s: Seq<(BitSequence, T)>, k: BitSequence)
    requires
        map_of(s).contains_key(k),
    ensures
        exists|i: int|
            0 <= i < s.len() && (#[trigger] s[i]).0 == k && s[i].1 == map_of(s)[k],
    decreases s.len(),
{
    if s.len() > 0 {
        if s.last().0 == k {
            assert(s[s.len() - 1].0 == k && s[s.len() - 1].1 == map_of(s)[k]);
        } else {
            lemma_map_of_value(s.drop_last(), k);
            let i = choose|i: int|
                0 <= i < s.drop_last().len() && (#[trigger] s.drop_last()[i]).0 == k
                    && s.drop_last()[i].1 == map_of(s.drop_last())[k];
            assert(s[i].0 == k && s[i].1 == map_of(s)[k]);
        }
    }
}

/// Every value in the canonical table is the meaning of some code word of
/// the alphabet.
pub proof fn lemma_entries_from_alphabet<T: CodeSymbol>(lengths: Seq<u8>, n: int)
    ensures
        forall|i: int|
            0 <= i < spec_entries::<T>(lengths, n).len() ==> exists|w: u16|
                T::spec_of_word(w) == Some((#[trigger] spec_entries::<T>(lengths, n)[i]).1),
    decreases n,
{
    if n > 0 {
        lemma_entries_from_alphabet::<T>(lengths, n - 1);
        let p = spec_entries::<T>(lengths, n - 1);
        let e = spec_entries::<T>(lengths, n);
        if lengths[n - 1] != 0 && T::spec_of_word((n - 1) as u16) is Some {
            assert(forall|i: int| 0 <= i < p.len() ==> e[i] == p[i]);
            let w0 = (n - 1) as u16;
            assert(T::spec_of_word(w0) == Some(e[e.len() - 1].1));
        } else {
            assert(e == p);
        }
    }
}

/// A symbol handed out by a table that canonical construction built has a
/// defined meaning in the alphabet.
pub proof fn lemma_symbol_in_alphabet<T: CodeSymbol>(
    c: HuffmanCoding<T>,
    lengths: Seq<u8>,
    k: BitSequence,
)
    requires
        c.entries@ == spec_entries::<T>(lengths, lengths.len() as int),
        c.spec_map().contains_key(k),
    ensures
        exists|w: u16| T::spec_of_word(w) == Some(c.spec_map()[k]),
{
    lemma_map_of_value(c.entries@, k);
    lemma_entries_from_alphabet::<T>(lengths, lengths.len() as int);
    let i = choose|i: int|
        0 <= i < c.entries@.len() && (#[trigger] c.entries@[i]).0 == k && c.entries@[i].1
            == c.spec_map()[k];
    assert(exists|w: u16|
        T::spec_of_word(w) == Some((#[trigger] spec_entries::<T>(
            lengths,
            lengths.len() as int,
        )[i]).1));
}

/// Every entry of the canonical table belongs to some coded symbol: its key
/// is that symbol's canonical code over its length, and its value is that
/// symbol's meaning.
pub proof fn lemma_entry_symbol<T: CodeSymbol>(lengths: Seq<u8>, n: int, i: int) -> (s: int)
    requires
        0 <= i < spec_entries::<T>(lengths, n).len(),
    ensures
        0 <= s < n,
        lengths[s] != 0,
        T::spec_of_word(s as u16) == Some(spec_entries::<T>(lengths, n)[i].1),
        spec_entries::<T>(lengths, n)[i].0 == entry_key(lengths, s),
    decreases n,
{
    if n <= 0 {
        assert(false);
        0
    } else {
        let p = spec_entries::<T>(lengths, n - 1);
        if lengths[n - 1] != 0 && T::spec_of_word((n - 1) as u16) is Some {
            assert(spec_entries::<T>(lengths, n) == p.push(
                (entry_key(lengths, n - 1), T::spec_of_word((n - 1) as u16).unwrap()),
            ));
            if i < p.len() {
                let s = lemma_entry_symbol::<T>(lengths, n - 1, i);
                assert(spec_entries::<T>(lengths, n)[i] == p[i]);
                s
            } else {
                n - 1
            }
        } else {
            assert(spec_entries::<T>(lengths, n) == p);
            lemma_entry_symbol::<T>(lengths, n - 1, i)
        }
    }
}

/// Huffman round trip through the bit stream: when the bits at `pos`, read
/// MSB-first, begin with the canonical code word of a coded symbol of an
/// accepted length table, the table maps that group of bits to that symbol
/// and maps no shorter group of bits there. With `read_symbol`'s contract
/// this forces the decode at `pos` to return the symbol after consuming
/// exactly its code length of bits.
pub proof fn lemma_huffman_stream_roundtrip<T: CodeSymbol>(
    lengths: Seq<u8>,
    d: Seq<u8>,
    pos: int,
    s: int,
    t: T,
)
    requires
        lengths_error(lengths, true) is None,
        0 <= s < lengths.len(),
        lengths[s] != 0,
        T::spec_of_word(s as u16) == Some(t),
        msb_value(d, pos, lengths[s] as nat) == canonical_code(lengths, s),
    ensures
        ({
            let m = map_of(spec_entries::<T>(lengths, lengths.len() as int));
            let l = lengths[s] as int;
            &&& m.contains_key(code_key(d, pos, l as nat))
            &&& m[code_key(d, pos, l as nat)] == t
            &&& forall|l2: int|
                0 <= l2 < l ==> !m.contains_key(#[trigger] code_key(d, pos, l2 as nat))
        }),
{
    let n = lengths.len() as int;
    let m = map_of(spec_entries::<T>(lengths, n));
    let l = lengths[s] as int;
    lemma2_to64();
    assert(forall|i: int| 0 <= i < n ==> lengths[i] <= 15);
    lemma_huffman_roundtrip::<T>(lengths, s, t);
    lemma_code_bound(lengths, s);
    assert(pow2(l as nat) <= pow2(15)) by {
        if l < 15 {
            vstd::arithmetic::power2::lemma_pow2_strictly_increases(l as nat, 15);
        }
    }
    assert(code_key(d, pos, l as nat) == entry_key(lengths, s));
    assert forall|l2: int|
        0 <= l2 < l implies !m.contains_key(#[trigger] code_key(d, pos, l2 as nat)) by {
        if m.contains_key(code_key(d, pos, l2 as nat)) {
            let k2 = code_key(d, pos, l2 as nat);
            lemma_map_of_value(spec_entries::<T>(lengths, n), k2);
            let i = choose|i: int|
                0 <= i < spec_entries::<T>(lengths, n).len() && (#[trigger] spec_entries::<T>(
                    lengths,
                    n,
                )[i]).0 == k2 && spec_entries::<T>(lengths, n)[i].1 == m[k2];
            let s2 = lemma_entry_symbol::<T>(lengths, n, i);
            assert(lengths[s2] as int == l2);
            lemma_code_bound(lengths, s2);
            assert(pow2(l2 as nat) <= pow2(15)) by {
                if l2 < 15 {
                    vstd::arithmetic::power2::lemma_pow2_strictly_increases(l2 as nat, 15);
                }
            }
            lemma_msb_value_bound(d, pos, l2 as nat);
            assert(canonical_code(lengths, s2) == msb_value(d, pos, l2 as nat));
            lemma_msb_value_prefix(d, pos, l2 as nat, l as nat);
            lemma_canonical_prefix_free(lengths, s2, s);
            assert(false);
        }
    }
}

/// A canonical table is prefix-free at every stream position: whatever code
/// word the table holds over the `l` bits at `pos`, no shorter group of
/// bits there is a code word too.
pub proof fn lemma_no_shorter_key<T: CodeSymbol>(lengths: Seq<u8>, d: Seq<u8>, pos: int, l: int)
    requires
        lengths_error(lengths, true) is None,
        0 <= l <= 16,
        map_of(spec_entries::<T>(lengths, lengths.len() as int)).contains_key(
            code_key(d, pos, l as nat),
        ),
    ensures
        forall|l2: int|
            0 <= l2 < l ==> !map_of(spec_entries::<T>(lengths, lengths.len() as int)).contains_key(
                #[trigger] code_key(d, pos, l2 as nat),
            ),
{
    let n = lengths.len() as int;
    let m = map_of(spec_entries::<T>(lengths, n));
    lemma2_to64();
    assert(forall|i: int| 0 <= i < n ==> lengths[i] <= 15);
    lemma_map_of_value(spec_entries::<T>(lengths, n), code_key(d, pos, l as nat));
    let i = choose|i: int|
        0 <= i < spec_entries::<T>(lengths, n).len() && (#[trigger] spec_entries::<T>(
            lengths,
            n,
        )[i]).0 == code_key(d, pos, l as nat) && spec_entries::<T>(lengths, n)[i].1 == m[code_key(
            d,
            pos,
            l as nat,
        )];
    let s = lemma_entry_symbol::<T>(lengths, n, i);
    assert(lengths[s] as int == l);
    lemma_code_bound(lengths, s);
    assert(pow2(l as nat) <= pow2(15)) by {
        if l < 15 {
            vstd::arithmetic::power2::lemma_pow2_strictly_increases(l as nat, 15);
        }
    }
    lemma_msb_value_bound(d, pos, l as nat);
    assert(canonical_code(lengths, s) == msb_value(d, pos, l as nat));
    assert forall|l2: int|
        0 <= l2 < l implies !m.contains_key(#[trigger] code_key(d, pos, l2 as nat)) by {
        if m.contains_key(code_key(d, pos, l2 as nat)) {
            lemma_map_of_value(spec_entries::<T>(lengths, n), code_key(d, pos, l2 as nat));
            let i2 = choose|i2: int|
                0 <= i2 < spec_entries::<T>(lengths, n).len() && (#[trigger] spec_entries::<T>(
                    lengths,
                    n,
                )[i2]).0 == code_key(d, pos, l2 as nat) && spec_entries::<T>(lengths, n)[i2].1
                    == m[code_key(d, pos, l2 as nat)];
            let s2 = lemma_entry_symbol::<T>(lengths, n, i2);
            assert(lengths[s2] as int == l2);
            lemma_code_bound(lengths, s2);
            assert(pow2(l2 as nat) <= pow2(15)) by {
                if l2 < 15 {
                    vstd::arithmetic::power2::lemma_pow2_strictly_increases(l2 as nat, 15);
                }
            }
            lemma_msb_value_bound(d, pos, l2 as nat);
            assert(canonical_code(lengths, s2) == msb_value(d, pos, l2 as nat));
            lemma_msb_value_prefix(d, pos, l2 as nat, l as nat);
            lemma_canonical_prefix_free(lengths, s2, s);
            assert(false);
        }
    }
}

/// The slot in the 19-entry code-length alphabet that the `i`-th three-bit
/// preamble field fills: the fixed permutation
/// 16 17 18 0 8 7 9 6 10 5 11 4 12 3 13 2 14 1 15 of RFC 1951.
pub open spec fn clen_slot(i: int) -> int {
    if i == 0 {
        16
    } else if i == 1 {
        17
    } else if i == 2 {
        18
    } else if i == 3 {
        0
    } else if (i - 4) % 2 == 0 {
        8 + (i - 4) / 2
    } else {
        7 - (i - 4) / 2
    }
}

/// The 19 code lengths of the code-length meta-alphabet, as the first `nf`
/// three-bit fields starting at bit position `mp` fill them in permutation
/// order; slots no field reaches stay zero.
pub open spec fn meta_lens(d: Seq<u8>, mp: int, nf: int) -> Seq<u8>
    decreases nf,
{
    if nf <= 0 {
        Seq::new(19, |j: int| 0u8)
    } else {
        meta_lens(d, mp, nf - 1).update(
            clen_slot(nf - 1),
            bits_value(d, mp + 3 * (nf - 1), 3) as u8,
        )
    }
}

/// The meta table keeps its 19 slots: every preamble field lands inside.
pub proof fn lemma_meta_lens_len(d: Seq<u8>, mp: int, nf: int)
    requires
        nf <= 19,
    ensures
        meta_lens(d, mp, nf).len() == 19,
    decreases nf,
{
    if nf > 0 {
        lemma_meta_lens_len(d, mp, nf - 1);
        assert(0 <= clen_slot(nf - 1) < 19);
    }
}

/// The run of code-length meta symbols that decodes the combined
/// literal/length and distance length array: from bit position `pos` with
/// the lengths `acc` decoded so far, reading meta code words from `mm` and
/// their extra bits, it lands exactly on the `total`-length boundary at bit
/// position `pos2` with array `acc2`. A repeat must copy an existing length
/// and may never overrun the boundary.
pub open spec fn clen_run(
    d: Seq<u8>,
    mm: Map<BitSequence, TreeCodeToken>,
    pos: int,
    acc: Seq<u8>,
    total: int,
    pos2: int,
    acc2: Seq<u8>,
) -> bool
    decreases total - acc.len(),
{
    if acc.len() >= total {
        pos2 == pos && acc2 == acc && acc.len() == total
    } else {
        exists|l: int|
            {
                &&& 1 <= l <= 15
                &&& #[trigger] mm.contains_key(code_key(d, pos, l as nat))
                &&& match mm[code_key(d, pos, l as nat)] {
                    TreeCodeToken::Length(v) => clen_run(
                        d,
                        mm,
                        pos + l,
                        acc.push(v),
                        total,
                        pos2,
                        acc2,
                    ),
                    TreeCodeToken::CopyPrev => {
                        let n = 3 + bits_value(d, pos + l, 2);
                        &&& acc.len() > 0
                        &&& acc.len() + n <= total
                        &&& clen_run(
                            d,
                            mm,
                            pos + l + 2,
                            acc + Seq::new(n as nat, |k: int| acc.last()),
                            total,
                            pos2,
                            acc2,
                        )
                    },
                    TreeCodeToken::RepeatZero { base, extra_bits } => {
                        let n = base + bits_value(d, pos + l, extra_bits as nat);
                        &&& 1 <= n
                        &&& acc.len() + n <= total
                        &&& clen_run(
                            d,
                            mm,
                            pos + l + extra_bits,
                            acc + Seq::new(n as nat, |k: int| 0u8),
                            total,
                            pos2,
                            acc2,
                        )
                    },
                }
            }
    }
}

/// A code-length run moves forward in the bit stream and never shrinks the
/// decoded array.
pub proof fn lemma_clen_run_bounds(
    d: Seq<u8>,
    mm: Map<BitSequence, TreeCodeToken>,
    pos: int,
    acc: Seq<u8>,
    total: int,
    pos2: int,
    acc2: Seq<u8>,
)
    requires
        clen_run(d, mm, pos, acc, total, pos2, acc2),
    ensures
        pos <= pos2,
        acc.len() <= acc2.len(),
    decreases total - acc.len(),
{
    if acc.len() < total {
        let l = choose|l: int|
            {
                &&& 1 <= l <= 15
                &&& #[trigger] mm.contains_key(code_key(d, pos, l as nat))
                &&& match mm[code_key(d, pos, l as nat)] {
                    TreeCodeToken::Length(v) => clen_run(
                        d,
                        mm,
                        pos + l,
                        acc.push(v),
                        total,
                        pos2,
                        acc2,
                    ),
                    TreeCodeToken::CopyPrev => {
                        let n = 3 + bits_value(d, pos + l, 2);
                        &&& acc.len() > 0
                        &&& acc.len() + n <= total
                        &&& clen_run(
                            d,
                            mm,
                            pos + l + 2,
                            acc + Seq::new(n as nat, |k: int| acc.last()),
                            total,
                            pos2,
                            acc2,
                        )
                    },
                    TreeCodeToken::RepeatZero { base, extra_bits } => {
                        let n = base + bits_value(d, pos + l, extra_bits as nat);
                        &&& 1 <= n
                        &&& acc.len() + n <= total
                        &&& clen_run(
                            d,
                            mm,
                            pos + l + extra_bits,
                            acc + Seq::new(n as nat, |k: int| 0u8),
                            total,
                            pos2,
                            acc2,
                        )
                    },
                }
            };
        match mm[code_key(d, pos, l as nat)] {
            TreeCodeToken::Length(v) => {
                lemma_clen_run_bounds(d, mm, pos + l, acc.push(v), total, pos2, acc2);
            },
            TreeCodeToken::CopyPrev => {
                let n = 3 + bits_value(d, pos + l, 2);
                lemma_clen_run_bounds(
                    d,
                    mm,
                    pos + l + 2,
                    acc + Seq::new(n as nat, |k: int| acc.last()),
                    total,
                    pos2,
                    acc2,
                );
            },
            TreeCodeToken::RepeatZero { base, extra_bits } => {
                let n = base + bits_value(d, pos + l, extra_bits as nat);
                lemma_clen_run_bounds(
                    d,
                    mm,
                    pos + l + extra_bits,
                    acc + Seq::new(n as nat, |k: int| 0u8),
                    total,
                    pos2,
                    acc2,
                );
            },
        }
    }
}

/// Unfolds the first step of a code-length run that has not reached the
/// boundary yet: some meta code word of 1 to 15 bits stands at `pos` and
/// the run continues per its symbol's meaning.
pub proof fn lemma_clen_first(
    d: Seq<u8>,
    mm: Map<BitSequence, TreeCodeToken>,
    pos: int,
    acc: Seq<u8>,
    total: int,
    pos2: int,
    acc2: Seq<u8>,
) -> (l: int)
    requires
        clen_run(d, mm, pos, acc, total, pos2, acc2),
        acc.len() < total,
    ensures
        1 <= l <= 15,
        pos + l <= pos2,
        mm.contains_key(code_key(d, pos, l as nat)),
        match mm[code_key(d, pos, l as nat)] {
            TreeCodeToken::Length(v) => clen_run(d, mm, pos + l, acc.push(v), total, pos2, acc2),
            TreeCodeToken::CopyPrev => {
                let n = 3 + bits_value(d, pos + l, 2);
                &&& acc.len() > 0
                &&& acc.len() + n <= total
                &&& pos + l + 2 <= pos2
                &&& clen_run(
                    d,
                    mm,
                    pos + l + 2,
                    acc + Seq::new(n as nat, |k: int| acc.last()),
                    total,
                    pos2,
                    acc2,
                )
            },
            TreeCodeToken::RepeatZero { base, extra_bits } => {
                let n = base + bits_value(d, pos + l, extra_bits as nat);
                &&& 1 <= n
                &&& acc.len() + n <= total
                &&& pos + l + extra_bits <= pos2
                &&& clen_run(
                    d,
                    mm,
                    pos + l + extra_bits,
                    acc + Seq::new(n as nat, |k: int| 0u8),
                    total,
                    pos2,
                    acc2,
                )
            },
        },
{
    let l = choose|l: int|
        {
            &&& 1 <= l <= 15
            &&& #[trigger] mm.contains_key(code_key(d, pos, l as nat))
            &&& match mm[code_key(d, pos, l as nat)] {
                TreeCodeToken::Length(v) => clen_run(
                    d,
                    mm,
                    pos + l,
                    acc.push(v),
                    total,
                    pos2,
                    acc2,
                ),
                TreeCodeToken::CopyPrev => {
                    let n = 3 + bits_value(d, pos + l, 2);
                    &&& acc.len() > 0
                    &&& acc.len() + n <= total
                    &&& clen_run(
                        d,
                        mm,
                        pos + l + 2,
                        acc + Seq::new(n as nat, |k: int| acc.last()),
                        total,
                        pos2,
                        acc2,
                    )
                },
                TreeCodeToken::RepeatZero { base, extra_bits } => {
                    let n = base + bits_value(d, pos + l, extra_bits as nat);
                    &&& 1 <= n
                    &&& acc.len() + n <= total
                    &&& clen_run(
                        d,
                        mm,
                        pos + l + extra_bits,
                        acc + Seq::new(n as nat, |k: int| 0u8),
                        total,
                        pos2,
                        acc2,
                    )
                },
            }
        };
    match mm[code_key(d, pos, l as nat)] {
        TreeCodeToken::Length(v) => {
            lemma_clen_run_bounds(d, mm, pos + l, acc.push(v), total, pos2, acc2);
        },
        TreeCodeToken::CopyPrev => {
            let n = 3 + bits_value(d, pos + l, 2);
            lemma_clen_run_bounds(
                d,
                mm,
                pos + l + 2,
                acc + Seq::new(n as nat, |k: int| acc.last()),
                total,
                pos2,
                acc2,
            );
        },
        TreeCodeToken::RepeatZero { base, extra_bits } => {
            let n = base + bits_value(d, pos + l, extra_bits as nat);
            lemma_clen_run_bounds(
                d,
                mm,
                pos + l + extra_bits,
                acc + Seq::new(n as nat, |k: int| 0u8),
                total,
                pos2,
                acc2,
            );
        },
    }
    l
}

/// Over a canonical meta table a code-length run is deterministic: each
/// meta code word is the unique shortest match at its position, so from
/// one starting point the run can end only one way.
pub proof fn lemma_clen_run_deterministic(
    d: Seq<u8>,
    mm: Map<BitSequence, TreeCodeToken>,
    pos: int,
    acc: Seq<u8>,
    total: int,
    pos2a: int,
    acc2a: Seq<u8>,
    pos2b: int,
    acc2b: Seq<u8>,
    mlens: Seq<u8>,
)
    requires
        mm == map_of(spec_entries::<TreeCodeToken>(mlens, mlens.len() as int)),
        lengths_error(mlens, true) is None,
        clen_run(d, mm, pos, acc, total, pos2a, acc2a),
        clen_run(d, mm, pos, acc, total, pos2b, acc2b),
    ensures
        pos2a == pos2b,
        acc2a == acc2b,
    decreases total - acc.len(),
{
    if acc.len() < total {
        let la = lemma_clen_first(d, mm, pos, acc, total, pos2a, acc2a);
        let lb = lemma_clen_first(d, mm, pos, acc, total, pos2b, acc2b);
        lemma_no_shorter_key::<TreeCodeToken>(mlens, d, pos, la);
        lemma_no_shorter_key::<TreeCodeToken>(mlens, d, pos, lb);
        if la < lb {
            assert(!mm.contains_key(code_key(d, pos, la as nat)));
        }
        if lb < la {
            assert(!mm.contains_key(code_key(d, pos, lb as nat)));
        }
        assert(la == lb);
        match mm[code_key(d, pos, la as nat)] {
            TreeCodeToken::Length(v) => {
                lemma_clen_run_deterministic(
                    d,
                    mm,
                    pos + la,
                    acc.push(v),
                    total,
                    pos2a,
                    acc2a,
                    pos2b,
                    acc2b,
                    mlens,
                );
            },
            TreeCodeToken::CopyPrev => {
                let n = 3 + bits_value(d, pos + la, 2);
                lemma_clen_run_deterministic(
                    d,
                    mm,
                    pos + la + 2,
                    acc + Seq::new(n as nat, |k: int| acc.last()),
                    total,
                    pos2a,
                    acc2a,
                    pos2b,
                    acc2b,
                    mlens,
                );
            },
            TreeCodeToken::RepeatZero { base, extra_bits } => {
                let n = base + bits_value(d, pos + la, extra_bits as nat);
                lemma_clen_run_deterministic(
                    d,
                    mm,
                    pos + la + extra_bits,
                    acc + Seq::new(n as nat, |k: int| 0u8),
                    total,
                    pos2a,
                    acc2a,
                    pos2b,
                    acc2b,
                    mlens,
                );
            },
        }
    }
}

/// A code-length run from `pos` exists that lands on the `total` boundary
/// within the input, and both halves of its decoded array pass canonical
/// construction, the first `lit_n` lengths as a literal/length table and
/// the rest as a distance table.
pub open spec fn clen_fits(
    d: Seq<u8>,
    mm: Map<BitSequence, TreeCodeToken>,
    pos: int,
    acc: Seq<u8>,
    total: int,
    lit_n: int,
) -> bool {
    exists|pm: int, ls: Seq<u8>|
        {
            &&& #[trigger] clen_run(d, mm, pos, acc, total, pm, ls)
            &&& pm <= 8 * d.len()
            &&& from_lengths_error(ls.take(lit_n)) is None
            &&& distance_lengths_error(ls.skip(lit_n)) is None
        }
}

/// A whole well-formed dynamic-block preamble stands at bit position `p`:
/// its counts and code-length fields lie within the input, the meta table
/// is accepted, and a code-length run exists that decodes two acceptable
/// tables exactly on the boundary.
pub open spec fn preamble_fits(d: Seq<u8>, p: int) -> bool {
    let nf = bits_value(d, p + 10, 4) + 4;
    let ml = meta_lens(d, p + 14, nf as int);
    let total = bits_value(d, p, 5) + 257 + bits_value(d, p + 5, 5) + 1;
    &&& p + 14 + 3 * nf <= 8 * d.len()
    &&& from_lengths_error(ml) is None
    &&& clen_fits(
        d,
        map_of(spec_entries::<TreeCodeToken>(ml, 19)),
        p + 14 + 3 * nf,
        Seq::empty(),
        total as int,
        (bits_value(d, p, 5) + 257) as int,
    )
}

/// Reads the dynamic-block preamble (RFC 1951 section 3.2.7) and builds the
/// literal/length and distance codes through the code-length meta-alphabet.
/// The decoded length stream must land exactly on the combined boundary,
/// a repeat must have a previous length to copy, and both resulting length
/// tables must pass canonical construction.
pub(crate) fn decode_litlen_distance_trees(bit_reader: &mut BitReader) -> (r: Result<
    (HuffmanCoding<LitLenToken>, HuffmanCoding<DistanceToken>),
    Error,
>)
    requires
        old(bit_reader).wf(),
    ensures
        final(bit_reader).wf(),
        final(bit_reader).spec_data() == old(bit_reader).spec_data(),
        final(bit_reader).bit_pos() >= old(bit_reader).bit_pos(),
        match r {
            Ok((ll, dist)) => {
                &&& ll.wf()
                &&& dist.wf()
                &&& exists|lens: Seq<u8>, dlens: Seq<u8>|
                    {
                        &&& from_lengths_error(lens) is None
                        &&& distance_lengths_error(dlens) is None
                        &&& lens.len() == bits_value(
                            old(bit_reader).spec_data(),
                            old(bit_reader).bit_pos(),
                            5,
                        ) + 257
                        &&& dlens.len() == bits_value(
                            old(bit_reader).spec_data(),
                            old(bit_reader).bit_pos() + 5,
                            5,
                        ) + 1
                        &&& ll.entries@ == spec_entries::<LitLenToken>(
                            lens,
                            lens.len() as int,
                        )
                        &&& dist.entries@ == spec_entries::<DistanceToken>(
                            dlens,
                            dlens.len() as int,
                        )
                        &&& ({
                            let d0 = old(bit_reader).spec_data();
                            let p = old(bit_reader).bit_pos();
                            let nf = bits_value(d0, p + 10, 4) + 4;
                            let ml = meta_lens(d0, p + 14, nf as int);
                            &&& from_lengths_error(ml) is None
                            &&& clen_run(
                                d0,
                                map_of(spec_entries::<TreeCodeToken>(ml, 19)),
                                p + 14 + 3 * nf,
                                Seq::empty(),
                                (lens.len() + dlens.len()) as int,
                                final(bit_reader).bit_pos(),
                                lens + dlens,
                            )
                        })
                    }
            },
            Err(e) => e == Error::UnexpectedEof || e == Error::InvalidData(
                ErrorKind::BadHuffmanCode,
            ) || e == Error::InvalidData(ErrorKind::NoPreviousCodeLength) || e
                == Error::InvalidData(ErrorKind::CodeLengthOverrun) || e == Error::InvalidData(
                ErrorKind::TooManySymbols,
            ) || e == Error::InvalidData(ErrorKind::CodeLengthTooLong) || e == Error::InvalidData(
                ErrorKind::OversubscribedCode,
            ) || e == Error::InvalidData(ErrorKind::IncompleteCode),
        },
        preamble_fits(old(bit_reader).spec_data(), old(bit_reader).bit_pos()) ==> r is Ok,
{
    let ghost d0 = old(bit_reader).spec_data();
    let ghost pos0 = old(bit_reader).bit_pos();
    let hlit = bit_reader.read_bits(5)?.bits();
    let hdist = bit_reader.read_bits(5)?.bits();
    let hclen = bit_reader.read_bits(4)?.bits();
    let ghost mp = pos0 + 14;
    proof {
        lemma2_to64();
        assert(hlit == bits_value(d0, pos0, 5));
        assert(hdist == bits_value(d0, pos0 + 5, 5));
        assert(hclen == bits_value(d0, pos0 + 10, 4));
        assert(bit_reader.bit_pos() == mp);
    }
    let mut code_len: Vec<u8> = Vec::new();
    while code_len.len() < 19
        invariant
            code_len.len() <= 19,
            forall|k: int| 0 <= k < code_len.len() ==> code_len@[k] == 0,
        decreases 19 - code_len.len(),
    {
        code_len.push(0);
    }
    // the fixed order of the code-length alphabet:
    // 16 17 18 0 8 7 9 6 10 5 11 4 12 3 13 2 14 1 15
    proof {
        lemma2_to64();
        assert(code_len@ =~= meta_lens(d0, mp, 0));
    }
    let b16 = bit_reader.read_bits(3)?.bits();
    code_len[16] = b16 as u8;
    proof {
        assert(code_len@ =~= meta_lens(d0, mp, 1));
    }
    let b17 = bit_reader.read_bits(3)?.bits();
    code_len[17] = b17 as u8;
    proof {
        assert(code_len@ =~= meta_lens(d0, mp, 2));
    }
    let b18 = bit_reader.read_bits(3)?.bits();
    code_len[18] = b18 as u8;
    proof {
        assert(code_len@ =~= meta_lens(d0, mp, 3));
    }
    let b0 = bit_reader.read_bits(3)?.bits();
    code_len[0] = b0 as u8;
    proof {
        assert(code_len@ =~= meta_lens(d0, mp, 4));
    }
    let mut i: u16 = 0;
    while i < hclen
        invariant
            bit_reader.wf(),
            d0 == old(bit_reader).spec_data(),
            bit_reader.spec_data() == d0,
            pos0 == old(bit_reader).bit_pos(),
            mp == old(bit_reader).bit_pos() + 14,
            bit_reader.bit_pos() == mp + 3 * (4 + i),
            bit_reader.bit_pos() >= old(bit_reader).bit_pos(),
            code_len.len() == 19,
            i <= hclen < 16,
            hclen == bits_value(d0, pos0 + 10, 4),
            code_len@ == meta_lens(d0, mp, 4 + i),
        decreases hclen - i,
    {
        let b = bit_reader.read_bits(3)?.bits();
        proof {
            lemma2_to64();
            assert(b == bits_value(d0, mp + 3 * (4 + i), 3));
        }
        if i % 2 == 0 {
            code_len[8 + (i as usize) / 2] = b as u8;
            proof {
                assert(clen_slot(4 + i as int) == 8 + i as int / 2);
                assert(code_len@ =~= meta_lens(d0, mp, 4 + i + 1));
            }
        } else {
            code_len[7 - (i as usize) / 2] = b as u8;
            proof {
                assert(clen_slot(4 + i as int) == 7 - i as int / 2);
                assert(code_len@ =~= meta_lens(d0, mp, 4 + i + 1));
            }
        }
        i = i + 1;
    }
    let ghost nf = hclen as int + 4;
    let ghost cp = mp + 3 * nf;
    proof {
        assert(code_len@ == meta_lens(d0, mp, nf));
        assert(bit_reader.bit_pos() == cp);
    }
    let code_len_coding = HuffmanCoding::<TreeCodeToken>::from_lengths(code_len.as_slice())?;
    let ghost ml = code_len@;
    let total: usize = hlit as usize + 257 + hdist as usize + 1;
    let ghost mmm = map_of(spec_entries::<TreeCodeToken>(ml, 19));
    let ghost lit_n: int = hlit as int + 257;
    let mut lens: Vec<u8> = Vec::new();
    proof {
        assert(lens@ =~= Seq::<u8>::empty());
    }
    while lens.len() < total
        invariant
            bit_reader.wf(),
            d0 == old(bit_reader).spec_data(),
            bit_reader.spec_data() == d0,
            bit_reader.bit_pos() >= old(bit_reader).bit_pos(),
            pos0 == old(bit_reader).bit_pos(),
            code_len_coding.wf(),
            code_len_coding.entries@ == spec_entries::<TreeCodeToken>(ml, ml.len() as int),
            ml.len() == 19,
            ml == meta_lens(d0, pos0 + 14, (bits_value(d0, pos0 + 10, 4) + 4) as int),
            from_lengths_error(ml) is None,
            mmm == map_of(spec_entries::<TreeCodeToken>(ml, 19)),
            cp == pos0 + 14 + 3 * (bits_value(d0, pos0 + 10, 4) + 4),
            lit_n == bits_value(d0, pos0, 5) + 257,
            total as int == bits_value(d0, pos0, 5) + 257 + bits_value(d0, pos0 + 5, 5) + 1,
            total <= 320,
            lens.len() <= total,
            forall|p2: int, L2: Seq<u8>|
                #[trigger] clen_run(
                    d0,
                    mmm,
                    bit_reader.bit_pos(),
                    lens@,
                    total as int,
                    p2,
                    L2,
                ) ==> clen_run(d0, mmm, cp, Seq::empty(), total as int, p2, L2),
            preamble_fits(d0, pos0) ==> clen_fits(
                d0,
                mmm,
                bit_reader.bit_pos(),
                lens@,
                total as int,
                lit_n,
            ),
        decreases
                8 * old(bit_reader).spec_data().len() - bit_reader.bit_pos(),
                total - lens.len(),
    {
        let ghost pos_b = bit_reader.bit_pos();
        let ghost w_prev = lens@;
        let ghost fits_cur = clen_fits(d0, mmm, pos_b, w_prev, total as int, lit_n);
        let ghost (gpm, gls): (int, Seq<u8>) = choose|pm: int, ls: Seq<u8>|
            {
                &&& #[trigger] clen_run(d0, mmm, pos_b, w_prev, total as int, pm, ls)
                &&& pm <= 8 * d0.len()
                &&& from_lengths_error(ls.take(lit_n)) is None
                &&& distance_lengths_error(ls.skip(lit_n)) is None
            };
        let ghost mut gl: int = 0;
        proof {
            if fits_cur {
                assert(clen_run(d0, mmm, pos_b, w_prev, total as int, gpm, gls) && gpm <= 8
                    * d0.len());
                gl = lemma_clen_first(d0, mmm, pos_b, w_prev, total as int, gpm, gls);
                lemma_no_shorter_key::<TreeCodeToken>(ml, d0, pos_b, gl);
            }
        }
        let sym = code_len_coding.read_symbol(bit_reader)?;
        let ghost l_read = bit_reader.bit_pos() - pos_b;
        proof {
            lemma_symbol_in_alphabet(
                code_len_coding,
                ml,
                code_key(d0, pos_b, l_read as nat),
            );
            assert(mmm.contains_key(code_key(d0, pos_b, l_read as nat)));
            assert(mmm[code_key(d0, pos_b, l_read as nat)] == sym);
            assert(bit_reader.bit_pos() <= bit_reader.total_bits());
            if fits_cur {
                if l_read < gl {
                    assert(!mmm.contains_key(code_key(d0, pos_b, l_read as nat)));
                }
                if gl < l_read {
                    assert(!mmm.contains_key(code_key(d0, pos_b, gl as nat)));
                }
                assert(l_read == gl);
                assert(sym == mmm[code_key(d0, pos_b, gl as nat)]);
            }
        }
        match sym {
            TreeCodeToken::Length(v) => {
                lens.push(v);
                proof {
                    assert(lens@ =~= w_prev.push(v));
                    assert forall|p2: int, L2: Seq<u8>|
                        #[trigger] clen_run(
                            d0,
                            mmm,
                            bit_reader.bit_pos(),
                            lens@,
                            total as int,
                            p2,
                            L2,
                        ) implies clen_run(d0, mmm, cp, Seq::empty(), total as int, p2, L2) by {
                        assert(clen_run(d0, mmm, pos_b, w_prev, total as int, p2, L2));
                    }
                    if fits_cur {
                        assert(clen_run(
                            d0,
                            mmm,
                            bit_reader.bit_pos(),
                            lens@,
                            total as int,
                            gpm,
                            gls,
                        ));
                        assert(clen_fits(
                            d0,
                            mmm,
                            bit_reader.bit_pos(),
                            lens@,
                            total as int,
                            lit_n,
                        ));
                    }
                }
            },
            TreeCodeToken::CopyPrev => {
                let extra = bit_reader.read_bits(2)?.bits();
                proof {
                    lemma2_to64();
                    assert(extra == bits_value(d0, pos_b + l_read, 2));
                }
                if lens.len() == 0 {
                    return Err(Error::InvalidData(ErrorKind::NoPreviousCodeLength));
                }
                let val = lens[lens.len() - 1];
                let count = 3 + extra as usize;
                if lens.len() + count > total {
                    return Err(Error::InvalidData(ErrorKind::CodeLengthOverrun));
                }
                proof {
                    assert(val == w_prev.last());
                }
                let mut j: usize = 0;
                while j < count
                    invariant
                        j <= count,
                        lens.len() + count - j <= total,
                        lens@ == w_prev + Seq::new(j as nat, |k: int| val),
                    decreases count - j,
                {
                    lens.push(val);
                    j = j + 1;
                    proof {
                        assert(lens@ =~= w_prev + Seq::new(j as nat, |k: int| val));
                    }
                }
                proof {
                    assert(lens@ =~= w_prev + Seq::new(count as nat, |k: int| w_prev.last()));
                    assert forall|p2: int, L2: Seq<u8>|
                        #[trigger] clen_run(
                            d0,
                            mmm,
                            bit_reader.bit_pos(),
                            lens@,
                            total as int,
                            p2,
                            L2,
                        ) implies clen_run(d0, mmm, cp, Seq::empty(), total as int, p2, L2) by {
                        assert(clen_run(d0, mmm, pos_b, w_prev, total as int, p2, L2));
                    }
                    if fits_cur {
                        assert(clen_run(
                            d0,
                            mmm,
                            bit_reader.bit_pos(),
                            lens@,
                            total as int,
                            gpm,
                            gls,
                        ));
                        assert(clen_fits(
                            d0,
                            mmm,
                            bit_reader.bit_pos(),
                            lens@,
                            total as int,
                            lit_n,
                        ));
                    }
                }
            },
            TreeCodeToken::RepeatZero { base, extra_bits } => {
                let extra = bit_reader.read_bits(extra_bits)?.bits();
                let count = base as usize + extra as usize;
                proof {
                    let w = choose|w: u16| TreeCodeToken::spec_of_word(w) == Some(sym);
                    assert(base == 3 || base == 11);
                    assert(extra == bits_value(d0, pos_b + l_read, extra_bits as nat));
                }
                if lens.len() + count > total {
                    return Err(Error::InvalidData(ErrorKind::CodeLengthOverrun));
                }
                let mut j: usize = 0;
                while j < count
                    invariant
                        j <= count,
                        lens.len() + count - j <= total,
                        lens@ == w_prev + Seq::new(j as nat, |k: int| 0u8),
                    decreases count - j,
                {
                    lens.push(0);
                    j = j + 1;
                    proof {
                        assert(lens@ =~= w_prev + Seq::new(j as nat, |k: int| 0u8));
                    }
                }
                proof {
                    assert forall|p2: int, L2: Seq<u8>|
                        #[trigger] clen_run(
                            d0,
                            mmm,
                            bit_reader.bit_pos(),
                            lens@,
                            total as int,
                            p2,
                            L2,
                        ) implies clen_run(d0, mmm, cp, Seq::empty(), total as int, p2, L2) by {
                        assert(clen_run(d0, mmm, pos_b, w_prev, total as int, p2, L2));
                    }
                    if fits_cur {
                        assert(clen_run(
                            d0,
                            mmm,
                            bit_reader.bit_pos(),
                            lens@,
                            total as int,
                            gpm,
                            gls,
                        ));
                        assert(clen_fits(
                            d0,
                            mmm,
                            bit_reader.bit_pos(),
                            lens@,
                            total as int,
                            lit_n,
                        ));
                    }
                }
            },
        }
    }
    proof {
        assert(lens@.len() == total);
        assert(clen_run(
            d0,
            mmm,
            bit_reader.bit_pos(),
            lens@,
            total as int,
            bit_reader.bit_pos(),
            lens@,
        ));
        assert(clen_run(d0, mmm, cp, Seq::empty(), total as int, bit_reader.bit_pos(), lens@));
    }
    let lit_count: usize = hlit as usize + 257;
    let lit_slice = vstd::slice::slice_subrange(lens.as_slice(), 0, lit_count);
    let dist_slice = vstd::slice::slice_subrange(lens.as_slice(), lit_count, total);
    proof {
        if preamble_fits(d0, pos0) {
            // the run has landed exactly on the boundary, so the decoded
            // array is the hypothesis's and both halves are accepted
            let (pm2, ls2): (int, Seq<u8>) = choose|pm: int, ls: Seq<u8>|
                {
                    &&& #[trigger] clen_run(
                        d0,
                        mmm,
                        bit_reader.bit_pos(),
                        lens@,
                        total as int,
                        pm,
                        ls,
                    )
                    &&& pm <= 8 * d0.len()
                    &&& from_lengths_error(ls.take(lit_n)) is None
                    &&& distance_lengths_error(ls.skip(lit_n)) is None
                };
            assert(ls2 == lens@);
            assert(lit_slice@ =~= lens@.take(lit_n));
            assert(dist_slice@ =~= lens@.skip(lit_n));
            assert(from_lengths_error(lit_slice@) is None);
            assert(distance_lengths_error(dist_slice@) is None);
        }
    }
    let lit_coding = HuffmanCoding::<LitLenToken>::from_lengths(lit_slice)?;
    let dist_coding = HuffmanCoding::<DistanceToken>::from_lengths_distance(dist_slice)?;
    proof {
        let lens1 = lit_slice@;
        let dlens1 = dist_slice@;
        assert(lens1 + dlens1 =~= lens@);
        assert(from_lengths_error(lens1) is None && distance_lengths_error(dlens1) is None
            && lens1.len() == bits_value(d0, pos0, 5) + 257 && dlens1.len() == bits_value(
            d0,
            pos0 + 5,
            5,
        ) + 1 && lit_coding.entries@ == spec_entries::<LitLenToken>(lens1, lens1.len() as int)
            && dist_coding.entries@ == spec_entries::<DistanceToken>(
            dlens1,
            dlens1.len() as int,
        ) && from_lengths_error(
            meta_lens(d0, pos0 + 14, (bits_value(d0, pos0 + 10, 4) + 4) as int),
        ) is None && clen_run(
            d0,
            map_of(
                spec_entries::<TreeCodeToken>(
                    meta_lens(d0, pos0 + 14, (bits_value(d0, pos0 + 10, 4) + 4) as int),
                    19,
                ),
            ),
            pos0 + 14 + 3 * (bits_value(d0, pos0 + 10, 4) + 4),
            Seq::empty(),
            (lens1.len() + dlens1.len()) as int,
            bit_reader.bit_pos(),
            lens1 + dlens1,
        ));
    }
    Ok((lit_coding, dist_coding))
}

} // verus!
