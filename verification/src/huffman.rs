//! Canonical Huffman codes (RFC 1951, 3.2.2): building them from code
//! lengths and decoding symbols from a bit stream.

use vstd::prelude::*;
use vstd::arithmetic::power2::*;
use vstd::arithmetic::div_mod::*;
use vstd::arithmetic::mul::*;
use vstd::bits::{lemma_u16_shr_is_div, lemma_u32_shl_is_mul};
use crate::bits::{
    bits_value, rev, bit_at, lemma_bits_value_step, lemma_bit_at_bound, lemma_bits_value_bound, lemma_bits_value_prefix, lemma_rev_bound,
    lemma_rev_injective, lemma_rev_prefix, lemma_rev_widen, lemma_marker_bit,
};
use crate::error::ArchiveError;
use crate::bit_reader::BitReader;
use std::collections::HashMap;

verus! {

/// The maximum code length in bits that DEFLATE allows.
pub const DEFLATE_MAX_BITS: usize = 15;

/// How many of the first `n` symbols have code length `b`.
pub open spec fn count_below(lens: Seq<usize>, n: int, b: int) -> int
    decreases n,
{
    if n <= 0 {
        0
    } else {
        count_below(lens, n - 1, b) + if n - 1 < lens.len() && lens[n - 1] == b {
            1int
        } else {
            0int
        }
    }
}

/// How many symbols have code length `b`; unused symbols (length 0) are not
/// counted.
pub open spec fn length_count(lens: Seq<usize>, b: int) -> int {
    if b <= 0 {
        0
    } else {
        count_below(lens, lens.len() as int, b)
    }
}

/// The smallest code of length `b`.
pub open spec fn first_code(lens: Seq<usize>, b: int) -> int
    decreases b,
{
    if b <= 1 {
        0
    } else {
        2 * (first_code(lens, b - 1) + length_count(lens, b - 1))
    }
}

/// The canonical code of symbol `s`: codes of one length are consecutive and
/// follow the order of the symbols, and shorter codes come first.
pub open spec fn code_of(lens: Seq<usize>, s: int) -> int {
    first_code(lens, lens[s] as int) + count_below(lens, s, lens[s] as int)
}

/// Code lengths that DEFLATE can use: lengths of at most 15 bits, and not
/// more codes of any length than fit in that many bits.
pub open spec fn valid_code_lengths(lens: Seq<usize>) -> bool {
    &&& forall|s: int| 0 <= s < lens.len() ==> lens[s] <= 15
    &&& forall|b: int| 1 <= b <= 15 ==> first_code(lens, b) + length_count(lens, b) <= pow2(b as nat)
}

/// Symbol `s` has a code whose bits are the next bits of the stream at `pos`,
/// counting bits past the end of the stream as zeros.
pub open spec fn matches_at(data: Seq<u8>, pos: int, lens: Seq<usize>, s: int) -> bool {
    &&& 0 <= s < lens.len()
    &&& lens[s] >= 1
    &&& bits_value(data, pos, lens[s] as nat) == rev(code_of(lens, s) as nat, lens[s] as nat)
}

pub proof fn lemma_count_below_nonneg(lens: Seq<usize>, n: int, b: int)
    ensures
        0 <= count_below(lens, n, b),
        n >= 0 ==> count_below(lens, n, b) <= n,
    decreases n,
{
    if n > 0 {
        lemma_count_below_nonneg(lens, n - 1, b);
    }
}

/// Counting over a longer prefix counts at least as many symbols, and one more
/// for every symbol of that length in between.
pub proof fn lemma_count_below_mono(lens: Seq<usize>, n1: int, n2: int, b: int)
    requires
        0 <= n1 <= n2,
    ensures
        count_below(lens, n1, b) <= count_below(lens, n2, b),
        n1 < n2 && n1 < lens.len() && lens[n1] == b ==> count_below(lens, n1, b) + 1
            <= count_below(lens, n2, b),
    decreases n2 - n1,
{
    if n1 < n2 {
        lemma_count_below_mono(lens, n1, n2 - 1, b);
        if n1 < n2 - 1 {
            lemma_count_below_mono(lens, n1 + 1, n2 - 1, b);
        }
    }
}

pub proof fn lemma_first_code_nonneg(lens: Seq<usize>, b: int)
    ensures
        first_code(lens, b) >= 0,
    decreases b,
{
    if b > 1 {
        lemma_first_code_nonneg(lens, b - 1);
        lemma_count_below_nonneg(lens, lens.len() as int, b - 1);
    }
}

/// The codes of length `b + k` start above every code of length `b`, scaled
/// up by `k` bits.
pub proof fn lemma_first_code_grows(lens: Seq<usize>, b: int, k: nat)
    requires
        b >= 1,
        k >= 1,
    ensures
        first_code(lens, b + k) >= pow2(k) * (first_code(lens, b) + length_count(lens, b)),
    decreases k,
{
    lemma_first_code_nonneg(lens, b);
    lemma_count_below_nonneg(lens, lens.len() as int, b);
    if k == 1 {
        lemma2_to64();
    } else {
        let j = (k - 1) as nat;
        lemma_first_code_grows(lens, b, j);
        lemma_count_below_nonneg(lens, lens.len() as int, b + j);
        lemma_pow2_unfold(k);
        let q = first_code(lens, b) + length_count(lens, b);
        assert(pow2(k) * q == 2 * (pow2(j) * q)) by {
            lemma_mul_is_associative(2, pow2(j) as int, q);
        }
    }
}

/// A code fits in its length, given valid code lengths.
pub proof fn lemma_code_fits(lens: Seq<usize>, s: int)
    requires
        valid_code_lengths(lens),
        0 <= s < lens.len(),
        lens[s] >= 1,
    ensures
        0 <= code_of(lens, s) < pow2(lens[s] as nat),
{
    let b = lens[s] as int;
    lemma_count_below_mono(lens, s, lens.len() as int, b);
    lemma_count_below_nonneg(lens, s, b);
    lemma_first_code_nonneg(lens, b);
}

/// No code is a prefix of another one.
pub proof fn lemma_codes_prefix_free(lens: Seq<usize>, s: int, t: int)
    requires
        valid_code_lengths(lens),
        0 <= s < lens.len(),
        0 <= t < lens.len(),
        s != t,
        1 <= lens[s] <= lens[t],
    ensures
        code_of(lens, t) / (pow2((lens[t] - lens[s]) as nat) as int) != code_of(lens, s),
{
    let ls = lens[s] as int;
    let lt = lens[t] as int;
    let d = (lt - ls) as nat;
    lemma_code_fits(lens, s);
    lemma_code_fits(lens, t);
    lemma_pow2_pos(d);
    if ls == lt {
        lemma2_to64();
        assert(code_of(lens, t) / 1 == code_of(lens, t));
        if s < t {
            lemma_count_below_mono(lens, s, t, ls);
        } else {
            lemma_count_below_mono(lens, t, s, ls);
        }
    } else {
        lemma_first_code_grows(lens, ls, d);
        lemma_count_below_nonneg(lens, t, lt);
        lemma_count_below_mono(lens, s, lens.len() as int, ls);
        let q = first_code(lens, ls) + length_count(lens, ls);
        assert(ls + d == lt);
        // code(t) >= 2^d * q, so code(t) / 2^d >= q > code(s).
        lemma_fundamental_div_mod(code_of(lens, t), pow2(d) as int);
        let ct = code_of(lens, t);
        let p = pow2(d) as int;
        assert(ct >= p * q);
        assert(ct / p >= q) by {
            if ct / p < q {
                lemma_mul_inequality(ct / p + 1, q, p);
                lemma_mod_bound(ct, p);
                assert(p * (ct / p) + ct % p < p * (ct / p + 1)) by (nonlinear_arith)
                    requires
                        ct % p < p,
                ;
                lemma_mul_is_commutative(p, ct / p + 1);
                lemma_mul_is_commutative(p, q);
            }
        }
    }
}

/// A shorter code comes before every longer one: extended to the longer
/// length with zero bits, it is still smaller.
proof fn lemma_shorter_code_first(lens: Seq<usize>, u: int, v: int)
    requires
        valid_code_lengths(lens),
        0 <= u < lens.len(),
        0 <= v < lens.len(),
        1 <= lens[u] < lens[v],
    ensures
        code_of(lens, u) * pow2((lens[v] - lens[u]) as nat) < code_of(lens, v),
{
    let a = lens[u] as int;
    let b = lens[v] as int;
    let d = (b - a) as nat;
    lemma_count_below_mono(lens, u, lens.len() as int, a);
    lemma_count_below_nonneg(lens, v, b);
    lemma_first_code_grows(lens, a, d);
    lemma_pow2_pos(d);
    let x = code_of(lens, u);
    let y = first_code(lens, a) + length_count(lens, a);
    let p = pow2(d) as int;
    assert(x + 1 <= y);
    assert(x * p < y * p) by (nonlinear_arith)
        requires
            x + 1 <= y,
            p > 0,
    ;
    assert(y * p == p * y) by (nonlinear_arith);
}

/// Canonical codes keep the order of RFC 1951, 3.2.2: of two symbols with
/// codes of one length, the earlier symbol has the smaller code; and a
/// shorter code, extended to the longer length with zero bits, is smaller
/// than every longer code.
pub proof fn lemma_canonical_order(lens: Seq<usize>, s: int, t: int)
    requires
        valid_code_lengths(lens),
        0 <= s < t < lens.len(),
        lens[s] >= 1,
        lens[t] >= 1,
    ensures
        lens[s] == lens[t] ==> code_of(lens, s) < code_of(lens, t),
        lens[s] < lens[t] ==> code_of(lens, s) * pow2((lens[t] - lens[s]) as nat) < code_of(lens, t),
        lens[t] < lens[s] ==> code_of(lens, t) * pow2((lens[s] - lens[t]) as nat) < code_of(lens, s),
{
    if lens[s] == lens[t] {
        lemma_count_below_mono(lens, s, t, lens[s] as int);
    } else if lens[s] < lens[t] {
        lemma_shorter_code_first(lens, s, t);
    } else {
        lemma_shorter_code_first(lens, t, s);
    }
}

/// At most one symbol's code matches the stream at a given position.
pub proof fn lemma_match_unique(data: Seq<u8>, pos: int, lens: Seq<usize>, s: int, t: int)
    requires
        valid_code_lengths(lens),
        matches_at(data, pos, lens, s),
        matches_at(data, pos, lens, t),
    ensures
        s == t,
{
    if s != t {
        if lens[s] <= lens[t] {
            lemma_match_unique_ordered(data, pos, lens, s, t);
        } else {
            lemma_match_unique_ordered(data, pos, lens, t, s);
        }
    }
}

proof fn lemma_match_unique_ordered(data: Seq<u8>, pos: int, lens: Seq<usize>, s: int, t: int)
    requires
        valid_code_lengths(lens),
        matches_at(data, pos, lens, s),
        matches_at(data, pos, lens, t),
        lens[s] <= lens[t],
    ensures
        s == t,
{
    if s == t {
        return;
    }
    let ls = lens[s] as nat;
    let lt = lens[t] as nat;
    let cs = code_of(lens, s) as nat;
    let ct = code_of(lens, t) as nat;
    let d = (lt - ls) as nat;
    lemma_code_fits(lens, s);
    lemma_code_fits(lens, t);
    lemma_bits_value_prefix(data, pos, lt, ls);
    lemma_rev_prefix(ct, lt, ls);
    // The top ls bits of code(t) reverse to the same value as code(s).
    lemma_pow2_pos(d);
    lemma_pow2_adds(ls, d);
    assert(ct / pow2(d) < pow2(ls)) by {
        let pl = pow2(ls) as int;
        let pd = pow2(d) as int;
        assert(ls + d == lt);
        assert(pl * pd == pow2(lt) as int);
        assert(pow2(lt) as int - 1 == (pl - 1) * pd + (pd - 1)) by (nonlinear_arith)
            requires
                pl * pd == pow2(lt) as int,
        ;
        lemma_fundamental_div_mod_converse(pow2(lt) as int - 1, pd, pl - 1, pd - 1);
        lemma_div_is_ordered(ct as int, pow2(lt) as int - 1, pd);
    }
    lemma_rev_injective(ct / pow2(d), cs, ls);
    lemma_codes_prefix_free(lens, s, t);
}

/// Every symbol length counted in `length_count` adds up to at most the number of
/// symbols.
proof fn lemma_count_step(lens: Seq<usize>, i: int, b: int)
    requires
        0 <= i < lens.len(),
    ensures
        count_below(lens, i + 1, b) == count_below(lens, i, b) + if lens[i] == b {
            1int
        } else {
            0int
        },
{
}

/// Generates the canonical Huffman code of every used symbol from the given
/// code lengths; unused symbols (length 0) get 0.
///
/// # Errors
///
/// `ArchiveError::OverSubscribedCodes` if the lengths ask for more codes of
/// some length than fit in that many bits.
pub fn generate_huffman_from_lengths(code_lens: &[usize]) -> (r: Result<Vec<u16>, ArchiveError>)
    requires
        forall|s: int| 0 <= s < code_lens@.len() ==> code_lens@[s] <= 15,
    ensures
        r is Ok <==> valid_code_lengths(code_lens@),
        r matches Ok(codes) ==> codes@.len() == code_lens@.len() && forall|s: int|
            0 <= s < code_lens@.len() && code_lens@[s] >= 1 ==> codes@[s] as int == code_of(
                code_lens@,
                s,
            ),
        r matches Err(e) ==> e == ArchiveError::OverSubscribedCodes,
{
    let ghost lens = code_lens@;
    let n = code_lens.len();
    // Count code length occurrences
    let mut bl_count: Vec<usize> = vec![0usize; 16];
    for i in 0..n
        invariant
            n == lens.len(),
            lens == code_lens@,
            forall|s: int| 0 <= s < lens.len() ==> lens[s] <= 15,
            bl_count@.len() == 16,
            forall|b: int| 0 <= b < 16 ==> bl_count@[b] as int == count_below(lens, i as int, b),
    {
        let len = code_lens[i];
        proof {
            lemma_count_below_nonneg(lens, i as int, len as int);
            assert forall|b: int| 0 <= b < 16 implies count_below(lens, i + 1, b) == count_below(
                lens,
                i as int,
                b,
            ) + if lens[i as int] == b {
                1int
            } else {
                0int
            } by {
                lemma_count_step(lens, i as int, b);
            }
        }
        let c = bl_count[len];
        bl_count.set(len, c + 1);
    }
    bl_count.set(0, 0);
    // Determine the base value for each code length, checking that they fit
    let mut next_code: Vec<usize> = vec![0usize; 16];
    let mut code: usize = 0;
    let mut pw: usize = 1;
    let mut bits: usize = 1;
    proof {
        lemma2_to64();
    }
    while bits <= DEFLATE_MAX_BITS
        invariant
            1 <= bits <= 16,
            n == lens.len(),
            lens == code_lens@,
            forall|s: int| 0 <= s < lens.len() ==> lens[s] <= 15,
            bl_count@.len() == 16,
            next_code@.len() == 16,
            forall|b: int| 0 <= b < 16 ==> bl_count@[b] as int == length_count(lens, b),
            code as int == first_code(lens, bits - 1),
            pw as int == pow2((bits - 1) as nat),
            forall|b: int| 1 <= b < bits ==> first_code(lens, b) + length_count(lens, b) <= pow2(
                b as nat,
            ),
            forall|b: int| 1 <= b < bits ==> next_code@[b] as int == first_code(lens, b),
        decreases 16 - bits,
    {
        proof {
            lemma_count_below_nonneg(lens, n as int, (bits - 1) as int);
            lemma_count_below_nonneg(lens, n as int, bits as int);
            lemma_first_code_nonneg(lens, (bits - 1) as int);
            lemma_pow2_unfold(bits as nat);
            lemma_pow2_strictly_increases((bits - 1) as nat, 16);
            lemma2_to64();
            if bits > 1 {
                assert(first_code(lens, bits - 1) + length_count(lens, bits - 1) <= pow2(
                    (bits - 1) as nat,
                ));
            } else {
                assert(length_count(lens, 0) == 0);
            }
        }
        code = (code + bl_count[bits - 1]) * 2;
        pw = pw * 2;
        next_code.set(bits, code);
        proof {
            assert(code as int == first_code(lens, bits as int));
            assert(bl_count@[bits as int] as int == length_count(lens, bits as int));
            lemma_count_below_nonneg(lens, n as int, bits as int);
            assert(code <= pw);
        }
        if bl_count[bits] > pw - code {
            proof {
                assert(!(first_code(lens, bits as int) + length_count(lens, bits as int) <= pow2(
                    bits as nat,
                )));
            }
            return Err(ArchiveError::OverSubscribedCodes);
        }
        bits = bits + 1;
    }
    // Assign each symbol a unique code based on the base values
    let mut codes: Vec<u16> = vec![0u16; n];
    for s in 0..n
        invariant
            n == lens.len(),
            lens == code_lens@,
            forall|t: int| 0 <= t < lens.len() ==> lens[t] <= 15,
            valid_code_lengths(lens),
            next_code@.len() == 16,
            codes@.len() == n,
            forall|b: int| 1 <= b < 16 ==> next_code@[b] as int == first_code(lens, b) + count_below(
                lens,
                s as int,
                b,
            ),
            forall|t: int| 0 <= t < s && lens[t] >= 1 ==> codes@[t] as int == code_of(lens, t),
    {
        let length = code_lens[s];
        proof {
            assert forall|b: int| 1 <= b < 16 implies count_below(lens, s + 1, b)
                == count_below(lens, s as int, b) + if lens[s as int] == b {
                1int
            } else {
                0int
            } by {
                lemma_count_step(lens, s as int, b);
            }
        }
        if length != 0 {
            proof {
                lemma_code_fits(lens, s as int);
                lemma_pow2_strictly_increases(length as nat, 16);
                lemma2_to64();
            }
            let c = next_code[length];
            codes.set(s, c as u16);
            next_code.set(length, c + 1);
        }
    }
    Ok(codes)
}

/// Reverses the bits of an `u16`.
pub fn reverse_u16_bits(n: u16) -> (r: u16)
    ensures
        r as nat == rev(n as nat, 16),
{
    let mut r: u32 = 0;
    let mut c: u16 = n;
    let mut j: usize = 0;
    proof {
        lemma2_to64();
    }
    while j < 16
        invariant
            j <= 16,
            r < pow2(j as nat),
            rev(n as nat, 16) == r * pow2((16 - j) as nat) + rev(c as nat, (16 - j) as nat),
        decreases 16 - j,
    {
        proof {
            let k = (16 - j) as nat;
            let p = pow2((k - 1) as nat);
            lemma_pow2_unfold(k);
            lemma_pow2_unfold((j + 1) as nat);
            lemma_pow2_strictly_increases(j as nat, 16);
            lemma2_to64();
            assert(rev(c as nat, k) == (c as nat % 2) * p + rev(c as nat / 2, (k - 1) as nat));
            assert(r * pow2(k) + (c as nat % 2) * p == (2 * r + c as nat % 2) * p) by (nonlinear_arith)
                requires
                    pow2(k) == 2 * p,
            ;
        }
        r = 2 * r + (c % 2) as u32;
        c = c / 2;
        j = j + 1;
    }
    proof {
        lemma2_to64();
        assert(rev(c as nat, 0) == 0);
        assert(r * pow2(0) == r);
    }
    r as u16
}

/// The maximum number of bits a Huffman code may have to be decoded through
/// the lookup table.
pub const HUFFMAN_LUT_BITS: usize = 10;

/// The symbol held by an unused lookup table entry, whose length is 0.
pub const HUFFMAN_INVALID_SYMBOL: u16 = 999;

/// The decoding result of a Huffman code: the symbol at the current position
/// of the stream, or why there is none. A code that only fits by reading past
/// the end of the stream counts as running out of input.
pub open spec fn decode_spec(data: Seq<u8>, pos: int, lens: Seq<usize>) -> Result<
    u16,
    ArchiveError,
> {
    if exists|s: int| matches_at(data, pos, lens, s) {
        let s = choose|s: int| matches_at(data, pos, lens, s);
        if pos + lens[s] <= 8 * data.len() {
            Ok(s as u16)
        } else {
            Err(ArchiveError::UnexpectedEof)
        }
    } else {
        Err(ArchiveError::NoSuchCode)
    }
}

/// A symbol whose canonical code stands whole at `pos`, most significant code
/// bit first, is what decoding at `pos` gives.
pub proof fn lemma_decode_spec_of_code(data: Seq<u8>, pos: int, lens: Seq<usize>, s: int)
    requires
        valid_code_lengths(lens),
        0 <= s < lens.len(),
        lens[s] >= 1,
        bits_value(data, pos, lens[s] as nat) == rev(code_of(lens, s) as nat, lens[s] as nat),
        pos + lens[s] <= 8 * data.len(),
    ensures
        decode_spec(data, pos, lens) == Ok::<u16, ArchiveError>(s as u16),
{
    assert(matches_at(data, pos, lens, s));
    let t = choose|t: int| matches_at(data, pos, lens, t);
    lemma_match_unique(data, pos, lens, s, t);
}

/// Represents a single Huffman code: the symbol and its code length.
#[derive(Debug, Clone, Copy)]
pub struct HuffmanCode {
    pub symbol: u16,
    pub length: usize,
}

/// Symbol `s` has a short code that the lookup table index `idx` starts with.
pub open spec fn lut_matches(lens: Seq<usize>, idx: int, s: int) -> bool {
    &&& 0 <= s < lens.len()
    &&& 1 <= lens[s] <= 10
    &&& idx % (pow2(lens[s] as nat) as int) == rev(code_of(lens, s) as nat, lens[s] as nat) as int
}

/// A lookup table entry is right for the symbols below `upto`.
pub open spec fn lut_entry_ok(lens: Seq<usize>, e: HuffmanCode, idx: int, upto: int) -> bool {
    if e.length == 0 {
        forall|t: int| 0 <= t < upto ==> !#[trigger] lut_matches(lens, idx, t)
    } else {
        &&& e.symbol < upto
        &&& e.length == lens[e.symbol as int]
        &&& lut_matches(lens, idx, e.symbol as int)
    }
}

/// Symbol `s` has a code too long for the lookup table.
pub open spec fn is_long(lens: Seq<usize>, s: int) -> bool {
    0 <= s < lens.len() && 11 <= lens[s] <= 15
}

/// The key of a long code in the dictionary: its reversed bits with a marker
/// bit on top, so that codes of different lengths never share a key.
pub open spec fn long_key(lens: Seq<usize>, s: int) -> int {
    (rev(code_of(lens, s) as nat, lens[s] as nat) + pow2(lens[s] as nat)) as int
}

/// The dictionary holds exactly the long codes of the symbols below `upto`.
pub open spec fn dict_ok(lens: Seq<usize>, dict: Map<u16, u16>, upto: int) -> bool {
    &&& forall|k: u16| #[trigger]
        dict.contains_key(k) ==> {
            &&& dict[k] < upto
            &&& is_long(lens, dict[k] as int)
            &&& k as int == long_key(lens, dict[k] as int)
        }
    &&& forall|t: int|
        0 <= t < upto && #[trigger] is_long(lens, t) ==> {
            &&& dict.contains_key(long_key(lens, t) as u16)
            &&& dict[long_key(lens, t) as u16] == t
        }
}

/// A helper structure for canonical Huffman codes that decodes short codes
/// through a lookup table and long ones through a dictionary.
pub struct HuffmanCodes {
    lut: Vec<HuffmanCode>,
    dict: HashMap<u16, u16>,
    lens: Ghost<Seq<usize>>,
}

/// Two long codes never share a dictionary key.
proof fn lemma_long_keys_distinct(lens: Seq<usize>, s: int, t: int)
    requires
        valid_code_lengths(lens),
        is_long(lens, s),
        is_long(lens, t),
        s != t,
    ensures
        long_key(lens, s) != long_key(lens, t),
{
    lemma_code_fits(lens, s);
    lemma_code_fits(lens, t);
    lemma_rev_bound(code_of(lens, s) as nat, lens[s] as nat);
    lemma_rev_bound(code_of(lens, t) as nat, lens[t] as nat);
    if long_key(lens, s) == long_key(lens, t) {
        lemma_marker_bit(
            rev(code_of(lens, s) as nat, lens[s] as nat),
            lens[s] as nat,
            rev(code_of(lens, t) as nat, lens[t] as nat),
            lens[t] as nat,
        );
        lemma_rev_injective(code_of(lens, s) as nat, code_of(lens, t) as nat, lens[s] as nat);
        lemma2_to64();
        assert(lens[s] == lens[t]);
        assert(code_of(lens, s) == code_of(lens, t));
        assert(code_of(lens, s) / 1 == code_of(lens, s));
        assert(code_of(lens, t) / 1 == code_of(lens, t));
        assert(pow2(0) == 1);
        lemma_codes_prefix_free(lens, s, t);
        assert(false);
    }
}

/// The empty set of code lengths is valid.
proof fn lemma_empty_valid()
    ensures
        valid_code_lengths(Seq::<usize>::empty()),
{
    assert forall|b: int| 1 <= b <= 15 implies first_code(Seq::<usize>::empty(), b)
        + length_count(Seq::<usize>::empty(), b) <= pow2(b as nat) by {
        lemma_empty_first_code(b);
        lemma_pow2_pos(b as nat);
    }
}

proof fn lemma_empty_first_code(b: int)
    ensures
        first_code(Seq::<usize>::empty(), b) == 0,
    decreases b,
{
    if b > 1 {
        lemma_empty_first_code(b - 1);
    }
}

impl HuffmanCodes {
    /// The code lengths this structure decodes.
    pub closed spec fn lens(&self) -> Seq<usize> {
        self.lens@
    }

    /// Well-formedness: the table and the dictionary hold exactly the codes
    /// of the lengths.
    pub closed spec fn wf(&self) -> bool {
        &&& valid_code_lengths(self.lens@)
        &&& self.lens@.len() <= 65536
        &&& self.lut@.len() == 1024
        &&& forall|idx: int|
            0 <= idx < 1024 ==> lut_entry_ok(self.lens@, #[trigger] self.lut@[idx], idx, self.lens@.len() as int)
        &&& dict_ok(self.lens@, self.dict@, self.lens@.len() as int)
    }

    /// Creates a new, empty `HuffmanCodes` structure, which decodes no
    /// symbol.
    pub fn new() -> (r: Self)
        ensures
            r.wf(),
            r.lens() == Seq::<usize>::empty(),
    {
        let lut = vec![HuffmanCode { symbol: HUFFMAN_INVALID_SYMBOL, length: 0 }; 1024];
        let dict: HashMap<u16, u16> = HashMap::new();
        proof {
            lemma_empty_valid();
            assert forall|idx: int| 0 <= idx < 1024 implies lut_entry_ok(
                Seq::<usize>::empty(),
                #[trigger] lut@[idx],
                idx,
                0,
            ) by {
                assert(lut@[idx].length == 0);
            }
        }
        HuffmanCodes { lut, dict, lens: Ghost(Seq::empty()) }
    }

    /// Creates a `HuffmanCodes` structure from the given code lengths.
    ///
    /// # Errors
    ///
    /// `ArchiveError::OverSubscribedCodes` if the lengths ask for more codes of
    /// some length than fit in that many bits.
    pub fn from_code_lengths(code_lens: &[usize]) -> (r: Result<Self, ArchiveError>)
        requires
            code_lens@.len() <= 65536,
            forall|s: int| 0 <= s < code_lens@.len() ==> code_lens@[s] <= 15,
        ensures
            r is Ok <==> valid_code_lengths(code_lens@),
            r matches Ok(h) ==> h.wf() && h.lens() == code_lens@,
            r matches Err(e) ==> e == ArchiveError::OverSubscribedCodes,
    {
        let codes = generate_huffman_from_lengths(code_lens)?;
        let ghost lens = code_lens@;
        let mut lut = vec![HuffmanCode { symbol: HUFFMAN_INVALID_SYMBOL, length: 0 }; 1024];
        let mut dict: HashMap<u16, u16> = HashMap::new();
        let n = code_lens.len();
        proof {
            assert forall|idx: int| 0 <= idx < 1024 implies lut_entry_ok(
                lens,
                #[trigger] lut@[idx],
                idx,
                0,
            ) by {
                assert(lut@[idx].length == 0);
            }
        }
        for s in 0..n
            invariant
                lens == code_lens@,
                n == lens.len(),
                n <= 65536,
                valid_code_lengths(lens),
                codes@.len() == n,
                forall|t: int| 0 <= t < n && lens[t] >= 1 ==> codes@[t] as int == code_of(lens, t),
                lut@.len() == 1024,
                forall|idx: int|
                    0 <= idx < 1024 ==> lut_entry_ok(lens, #[trigger] lut@[idx], idx, s as int),
                dict_ok(lens, dict@, s as int),
        {
            let length = code_lens[s];
            let ghost old_lut = lut@;
            let ghost old_dict = dict@;
            if length != 0 {
                let code = codes[s];
                proof {
                    lemma_code_fits(lens, s as int);
                }
                let rc = reversed_code(code, length);
                let desc = HuffmanCode { symbol: s as u16, length };
                if length <= HUFFMAN_LUT_BITS {
                    fill_lut_entries(&mut lut, desc, rc, length);
                } else {
                    insert_long_code(&mut dict, Ghost(lens), s, rc, length);
                }
            }
            proof {
                lemma_lut_step(lens, old_lut, lut@, s as int);
            }
        }
        Ok(HuffmanCodes { lut, dict, lens: Ghost(lens) })
    }


    /// Decodes a Huffman code from the given `BitReader`.
    ///
    /// # Errors
    ///
    /// `ArchiveError::NoSuchCode` if the next bits start no code, and
    /// `ArchiveError::UnexpectedEof` if the code they start runs past the end
    /// of the stream; the reader is then left where it was.
    pub fn decode_symbol(&self, r: &mut BitReader) -> (res: Result<u16, ArchiveError>)
        requires
            self.wf(),
            old(r).pos() + 16 <= usize::MAX,
        ensures
            res == decode_spec(old(r).bytes(), old(r).pos() as int, self.lens()),
            final(r).bytes() == old(r).bytes(),
            res matches Ok(s) ==> final(r).pos() == old(r).pos() + self.lens()[s as int],
            res is Err ==> final(r).pos() == old(r).pos(),
    {
        broadcast use vstd::std_specs::hash::group_hash_axioms;

        let ghost data = r.bytes();
        let ghost pos = r.pos() as int;
        let ghost lens = self.lens@;
        // First we try the lookup table
        let bits = r.peek_to_u16(HUFFMAN_LUT_BITS)?;
        proof {
            lemma_bits_value_bound(data, pos, 10);
            lemma2_to64();
        }
        let desc = self.lut[bits as usize];
        if desc.length != 0 {
            proof {
                assert(lut_entry_ok(lens, self.lut@[bits as int], bits as int, lens.len() as int));
                let sym = desc.symbol as int;
                lemma_bits_value_prefix(data, pos, 10, lens[sym] as nat);
                assert(matches_at(data, pos, lens, sym));
                let c = choose|s: int| matches_at(data, pos, lens, s);
                lemma_match_unique(data, pos, lens, c, sym);
            }
            let total = r.bit_len();
            let p = r.position();
            if p > total || total - p < desc.length {
                return Err(ArchiveError::UnexpectedEof);
            }
            r.consume_bits(desc.length);
            return Ok(desc.symbol);
        }
        proof {
            assert(lut_entry_ok(lens, self.lut@[bits as int], bits as int, lens.len() as int));
            assert forall|s: int|
                0 <= s < lens.len() && 1 <= lens[s] <= 10 implies !#[trigger] matches_at(
                data,
                pos,
                lens,
                s,
            ) by {
                lemma_bits_value_prefix(data, pos, 10, lens[s] as nat);
                assert(!lut_matches(lens, bits as int, s));
            }
        }
        // Not found, try in the dictionary
        let mut code: u32 = bits as u32;
        let mut i: usize = HUFFMAN_LUT_BITS;
        let mut pad: u32 = 2048;
        while i < DEFLATE_MAX_BITS
            invariant
                10 <= i <= 15,
                self.wf(),
                lens == self.lens@,
                r.bytes() == data,
                r.pos() == pos,
                data == old(r).bytes(),
                pos == old(r).pos(),
                pos + 16 <= usize::MAX,
                code == bits_value(data, pos, i as nat),
                pad == pow2((i + 1) as nat),
                forall|s: int|
                    0 <= s < lens.len() && 1 <= lens[s] <= i ==> !#[trigger] matches_at(
                        data,
                        pos,
                        lens,
                        s,
                    ),
            decreases 15 - i,
        {
            let b = r.peek_bit(i)?;
            proof {
                lemma_bits_value_step(data, pos, i as nat);
                lemma_bits_value_bound(data, pos, (i + 1) as nat);
                lemma_pow2_unfold((i + 1) as nat);
                lemma_pow2_unfold((i + 2) as nat);
                lemma_pow2_strictly_increases((i + 1) as nat, 16);
                lemma2_to64();
                lemma_bit_at_bound(data, pos + i);
                assert((b as u32) * (pad / 2) == (bit_at(data, pos + i) as nat) * pow2(i as nat));
            }
            code = code + (b as u32) * (pad / 2);
            let padded = (code + pad) as u16;
            match self.dict.get(&padded) {
                Some(sym) => {
                    let sym = *sym;
                    proof {
                        assert(self.dict@.contains_key(padded));
                        let l = lens[sym as int] as nat;
                        lemma_code_fits(lens, sym as int);
                        lemma_rev_bound(code_of(lens, sym as int) as nat, l);
                        lemma_marker_bit(
                            code as nat,
                            (i + 1) as nat,
                            rev(code_of(lens, sym as int) as nat, l),
                            l,
                        );
                        assert(matches_at(data, pos, lens, sym as int));
                        let c = choose|s: int| matches_at(data, pos, lens, s);
                        lemma_match_unique(data, pos, lens, c, sym as int);
                    }
                    let total = r.bit_len();
                    let p = r.position();
                    if p > total || total - p < i + 1 {
                        return Err(ArchiveError::UnexpectedEof);
                    }
                    r.consume_bits(i + 1);
                    return Ok(sym);
                },
                None => {},
            }
            proof {
                assert forall|s: int|
                    0 <= s < lens.len() && 1 <= lens[s] <= i + 1 implies !#[trigger] matches_at(
                    data,
                    pos,
                    lens,
                    s,
                ) by {
                    if lens[s] == i + 1 && matches_at(data, pos, lens, s) {
                        assert(is_long(lens, s));
                        assert(long_key(lens, s) == code + pad);
                        assert(self.dict@.contains_key(long_key(lens, s) as u16));
                    }
                }
            }
            i = i + 1;
            pad = pad * 2;
        }
        proof {
            assert forall|s: int| !matches_at(data, pos, lens, s) by {
                if 0 <= s < lens.len() && lens[s] >= 1 {
                    assert(lens[s] <= 15);
                }
            }
        }
        Err(ArchiveError::NoSuchCode)
    }
}

/// The reversal of a `length`-bit code, as the stream holds it.
fn reversed_code(code: u16, length: usize) -> (rc: u16)
    requires
        1 <= length <= 15,
        code < pow2(length as nat),
    ensures
        rc as nat == rev(code as nat, length as nat),
        rc < pow2(length as nat),
{
    let r16 = reverse_u16_bits(code);
    let sh = (16 - length) as u16;
    let rc = r16 >> sh;
    proof {
        let rev_code = rev(code as nat, length as nat);
        lemma_rev_widen(code as nat, length as nat, 16);
        lemma_u16_shr_is_div(r16, sh);
        lemma_pow2_pos(sh as nat);
        lemma_div_by_multiple(rev_code as int, pow2(sh as nat) as int);
        lemma_rev_bound(code as nat, length as nat);
    }
    rc
}

/// Points every lookup table index that starts with the bits `rc` of a
/// `length`-bit code at `desc`.
fn fill_lut_entries(lut: &mut Vec<HuffmanCode>, desc: HuffmanCode, rc: u16, length: usize)
    requires
        old(lut)@.len() == 1024,
        1 <= length <= 10,
        rc < pow2(length as nat),
    ensures
        final(lut)@.len() == 1024,
        forall|idx: int|
            0 <= idx < 1024 ==> #[trigger] final(lut)@[idx] == if idx % (pow2(length as nat) as int)
                == rc as int {
                desc
            } else {
                old(lut)@[idx]
            },
{
    proof {
        lemma2_to64();
        lemma_pow2_strictly_increases(length as nat, 32);
        lemma_pow2_strictly_increases((10 - length) as nat, 32);
        lemma_mul_basics(pow2(length as nat) as int);
        lemma_mul_basics(pow2((10 - length) as nat) as int);
        lemma_u32_shl_is_mul(1, length as u32);
        lemma_u32_shl_is_mul(1, (10 - length) as u32);
        lemma_pow2_adds(length as nat, (10 - length) as nat);
        lemma2_to64();
    }
    let step: u32 = 1u32 << (length as u32);
    let count: u32 = 1u32 << ((HUFFMAN_LUT_BITS - length) as u32);
    let ghost before = lut@;
    let mut i: u32 = 0;
    while i < count
        invariant
            i <= count,
            step as nat == pow2(length as nat),
            step > 0,
            step * count == 1024,
            rc < step,
            lut@.len() == 1024,
            before == old(lut)@,
            forall|idx: int|
                0 <= idx < 1024 ==> #[trigger] lut@[idx] == if idx % (step as int) == rc as int
                    && idx / (step as int) < i {
                    desc
                } else {
                    before[idx]
                },
        decreases count - i,
    {
        let ghost idx0 = (i * step + rc) as int;
        proof {
            assert(i * step + rc < 1024) by (nonlinear_arith)
                requires
                    i < count,
                    rc < step,
                    step * count == 1024,
            ;
            lemma_fundamental_div_mod_converse(idx0, step as int, i as int, rc as int);
        }
        let index = i * step + rc as u32;
        lut.set(index as usize, desc);
        i = i + 1;
        proof {
            assert forall|idx: int| 0 <= idx < 1024 implies #[trigger] lut@[idx] == if idx % (
            step as int) == rc as int && idx / (step as int) < i {
                desc
            } else {
                before[idx]
            } by {
                if idx != idx0 && idx % (step as int) == rc as int && idx / (step as int) == i - 1 {
                    lemma_fundamental_div_mod(idx, step as int);
                    lemma_mul_is_commutative(step as int, (i - 1) as int);
                    assert(idx == idx0);
                }
            }
        }
    }
    proof {
        assert forall|idx: int| 0 <= idx < 1024 implies #[trigger] lut@[idx] == if idx % (
        pow2(length as nat) as int) == rc as int {
            desc
        } else {
            old(lut)@[idx]
        } by {
            if idx % (step as int) == rc as int {
                lemma_fundamental_div_mod(idx, step as int);
                assert(idx / (step as int) < count) by (nonlinear_arith)
                    requires
                        idx == (step as int) * (idx / (step as int)) + idx % (step as int),
                        idx < 1024,
                        step * count == 1024,
                        idx % (step as int) >= 0,
                        step > 0,
                ;
            }
        }
    }
}

/// Adds the long code of symbol `s` to the dictionary.
fn insert_long_code(
    dict: &mut HashMap<u16, u16>,
    Ghost(lens): Ghost<Seq<usize>>,
    s: usize,
    rc: u16,
    length: usize,
)
    requires
        valid_code_lengths(lens),
        0 <= s < lens.len(),
        lens.len() <= 65536,
        lens[s as int] == length,
        11 <= length <= 15,
        rc as nat == rev(code_of(lens, s as int) as nat, length as nat),
        dict_ok(lens, old(dict)@, s as int),
    ensures
        dict_ok(lens, final(dict)@, s + 1),
{
    broadcast use vstd::std_specs::hash::group_hash_axioms;

    proof {
        lemma2_to64();
        lemma_pow2_strictly_increases(length as nat, 32);
        lemma_mul_basics(pow2(length as nat) as int);
        lemma_u32_shl_is_mul(1, length as u32);
        lemma_code_fits(lens, s as int);
        lemma_rev_bound(code_of(lens, s as int) as nat, length as nat);
        lemma_pow2_strictly_increases(length as nat, 16);
        lemma_pow2_strictly_increases(length as nat, 32);
        lemma2_to64();
    }
    let key = (rc as u32 + (1u32 << (length as u32))) as u16;
    let ghost old_dict = dict@;
    dict.insert(key, s as u16);
    proof {
        assert(key as int == long_key(lens, s as int));
        assert forall|k: u16| #[trigger] dict@.contains_key(k) implies {
            &&& dict@[k] < s + 1
            &&& is_long(lens, dict@[k] as int)
            &&& k as int == long_key(lens, dict@[k] as int)
        } by {
            if k != key {
                assert(old_dict.contains_key(k));
            }
        }
        assert forall|t: int| 0 <= t < s + 1 && #[trigger] is_long(lens, t) implies {
            &&& dict@.contains_key(long_key(lens, t) as u16)
            &&& dict@[long_key(lens, t) as u16] == t
        } by {
            if t < s {
                lemma_long_keys_distinct(lens, t, s as int);
                lemma_rev_bound(code_of(lens, t) as nat, lens[t] as nat);
                lemma_code_fits(lens, t);
                lemma_pow2_strictly_increases(lens[t] as nat, 16);
                assert(long_key(lens, t) as u16 != key);
            }
        }
    }
}

/// Handling symbol `s` keeps the lookup table right for the symbols up to it:
/// a short code's indices now point at it, everything else is unchanged.
proof fn lemma_lut_step(lens: Seq<usize>, before: Seq<HuffmanCode>, after: Seq<HuffmanCode>, s: int)
    requires
        valid_code_lengths(lens),
        0 <= s < lens.len(),
        lens.len() <= 65536,
        before.len() == 1024,
        after.len() == 1024,
        forall|idx: int| 0 <= idx < 1024 ==> lut_entry_ok(lens, #[trigger] before[idx], idx, s),
        !(1 <= lens[s] <= 10) ==> after == before,
        1 <= lens[s] <= 10 ==> forall|idx: int|
            0 <= idx < 1024 ==> #[trigger] after[idx] == if idx % (pow2(lens[s] as nat) as int)
                == rev(code_of(lens, s) as nat, lens[s] as nat) as int {
                HuffmanCode { symbol: s as u16, length: lens[s] }
            } else {
                before[idx]
            },
    ensures
        forall|idx: int| 0 <= idx < 1024 ==> lut_entry_ok(lens, #[trigger] after[idx], idx, s + 1),
{
    assert forall|idx: int| 0 <= idx < 1024 implies lut_entry_ok(lens, #[trigger] after[idx], idx, s + 1) by {
        assert(lut_entry_ok(lens, before[idx], idx, s));
        if lut_matches(lens, idx, s) {
            assert(after[idx] == HuffmanCode { symbol: s as u16, length: lens[s] });
        } else {
            assert(after[idx] == before[idx]);
            if after[idx].length == 0 {
                assert forall|t: int| 0 <= t < s + 1 implies !#[trigger] lut_matches(lens, idx, t) by {
                    if t < s {
                    }
                }
            }
        }
    }
}

} // verus!
