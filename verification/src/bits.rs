//! The mathematical model of a bit stream: bytes read least significant bit
//! first, as DEFLATE stores them, and the lemmas about the values that runs of
//! such bits form.

use vstd::prelude::*;
use vstd::arithmetic::power2::*;
use vstd::arithmetic::div_mod::*;
use vstd::arithmetic::mul::*;

verus! {

/// The bit at position `i` of the stream `data`: bit `i % 8` of byte `i / 8`.
/// Positions outside the stream read as 0.
pub open spec fn bit_at(data: Seq<u8>, i: int) -> u8 {
    if 0 <= i < 8 * data.len() {
        (data[i / 8] >> ((i % 8) as u8)) & 1u8
    } else {
        0
    }
}

/// The value of the `n` bits starting at position `pos`, the first bit being
/// the least significant one.
pub open spec fn bits_value(data: Seq<u8>, pos: int, n: nat) -> nat
    decreases n,
{
    if n == 0 {
        0
    } else {
        bits_value(data, pos, (n - 1) as nat) + (bit_at(data, pos + n - 1) as nat) * pow2(
            (n - 1) as nat,
        )
    }
}

/// A bit of the stream is 0 or 1.
pub proof fn lemma_bit_at_bound(data: Seq<u8>, i: int)
    ensures
        bit_at(data, i) <= 1,
{
    if 0 <= i < 8 * data.len() {
        let b = data[i / 8];
        let s = (i % 8) as u8;
        assert((b >> s) & 1u8 <= 1u8) by (bit_vector);
    }
}

/// `n` bits form a value below `2^n`.
pub proof fn lemma_bits_value_bound(data: Seq<u8>, pos: int, n: nat)
    ensures
        bits_value(data, pos, n) < pow2(n),
    decreases n,
{
    if n == 0 {
        lemma2_to64();
    } else {
        lemma_bits_value_bound(data, pos, (n - 1) as nat);
        lemma_bit_at_bound(data, pos + n - 1);
        lemma_pow2_unfold(n);
        lemma_pow2_pos((n - 1) as nat);
        let b = bit_at(data, pos + n - 1) as nat;
        assert(b * pow2((n - 1) as nat) <= pow2((n - 1) as nat)) by {
            lemma_mul_inequality(b as int, 1, pow2((n - 1) as nat) as int);
            lemma_mul_basics(pow2((n - 1) as nat) as int);
        }
    }
}

/// The first `m` of `n` bits are the value of the `n` bits modulo `2^m`.
pub proof fn lemma_bits_value_prefix(data: Seq<u8>, pos: int, n: nat, m: nat)
    requires
        m <= n,
    ensures
        bits_value(data, pos, n) % pow2(m) == bits_value(data, pos, m),
    decreases n,
{
    lemma_pow2_pos(m);
    if n == m {
        lemma_bits_value_bound(data, pos, n);
        lemma_small_mod(bits_value(data, pos, n), pow2(m));
    } else {
        lemma_bits_value_prefix(data, pos, (n - 1) as nat, m);
        let b = bit_at(data, pos + n - 1) as nat;
        lemma_pow2_adds(m, (n - 1 - m) as nat);
        let k = pow2((n - 1 - m) as nat);
        let x = bits_value(data, pos, (n - 1) as nat);
        assert(b * pow2((n - 1) as nat) == (b * k) * pow2(m)) by {
            lemma_mul_is_associative(b as int, k as int, pow2(m) as int);
            lemma_mul_is_commutative(k as int, pow2(m) as int);
        }
        lemma_mul_is_commutative((b * k) as int, pow2(m) as int);
        lemma_mod_multiples_vanish((b * k) as int, x as int, pow2(m) as int);
        assert(bits_value(data, pos, n) == pow2(m) * (b * k) + x);
    }
}

/// Adding one more bit on top.
pub proof fn lemma_bits_value_step(data: Seq<u8>, pos: int, n: nat)
    ensures
        bits_value(data, pos, n + 1) == bits_value(data, pos, n) + (bit_at(data, pos + n) as nat)
            * pow2(n),
{
}

/// Reading `n` bits and then `m` more is reading `n + m` bits at once: the
/// later bits are the higher ones.
pub proof fn lemma_bits_value_split(data: Seq<u8>, pos: int, n: nat, m: nat)
    ensures
        bits_value(data, pos, n + m) == bits_value(data, pos, n) + pow2(n) * bits_value(
            data,
            pos + n,
            m,
        ),
    decreases m,
{
    if m > 0 {
        let m1 = (m - 1) as nat;
        lemma_bits_value_split(data, pos, n, m1);
        let b = bit_at(data, pos + n + m1) as nat;
        lemma_pow2_adds(n, m1);
        assert(bits_value(data, pos, n + m) == bits_value(data, pos, n + m1) + b * pow2(n + m1));
        assert(bits_value(data, pos + n, m) == bits_value(data, pos + n, m1) + b * pow2(m1));
        assert(pow2(n) * bits_value(data, pos + n, m) == pow2(n) * bits_value(data, pos + n, m1)
            + b * pow2(n + m1)) by {
            lemma_mul_is_distributive_add(
                pow2(n) as int,
                bits_value(data, pos + n, m1) as int,
                (b * pow2(m1)) as int,
            );
            lemma_mul_is_associative(pow2(n) as int, b as int, pow2(m1) as int);
            lemma_mul_is_commutative(pow2(n) as int, b as int);
            lemma_mul_is_associative(b as int, pow2(n) as int, pow2(m1) as int);
        }
    } else {
        lemma_mul_basics(pow2(n) as int);
    }
}

/// Bits that lie entirely past the end of the stream are all zero, and bits
/// before the end do not depend on what follows.
pub proof fn lemma_bits_value_past_end(data: Seq<u8>, pos: int, n: nat)
    requires
        pos >= 8 * data.len(),
    ensures
        bits_value(data, pos, n) == 0,
    decreases n,
{
    if n > 0 {
        lemma_bits_value_past_end(data, pos, (n - 1) as nat);
    }
}

/// `2^n` for the small exponents the bit reader uses, as a machine value.
pub proof fn lemma_pow2_small(n: nat)
    requires
        n <= 32,
    ensures
        pow2(n) <= 0x1_0000_0000,
        pow2(n) > 0,
{
    lemma_pow2_pos(n);
    if n < 32 {
        lemma_pow2_strictly_increases(n, 32);
    }
    lemma2_to64();
}

/// The `n`-bit value `c` with its bits in reverse order: bit `j` of `c` becomes
/// bit `n - 1 - j`. A Huffman code, stored most significant bit first, reads
/// back from the stream as its reversal.
pub open spec fn rev(c: nat, n: nat) -> nat
    decreases n,
{
    if n == 0 {
        0
    } else {
        (c % 2) * pow2((n - 1) as nat) + rev(c / 2, (n - 1) as nat)
    }
}

/// A reversal of `n` bits stays below `2^n`.
pub proof fn lemma_rev_bound(c: nat, n: nat)
    ensures
        rev(c, n) < pow2(n),
    decreases n,
{
    if n == 0 {
        lemma2_to64();
    } else {
        lemma_rev_bound(c / 2, (n - 1) as nat);
        lemma_pow2_unfold(n);
        let p = pow2((n - 1) as nat);
        assert((c % 2) * p <= p) by {
            lemma_mul_inequality((c % 2) as int, 1, p as int);
            lemma_mul_basics(p as int);
        }
    }
}

/// Reversing `k + m` bits: the low `k` bits land on top, reversed, and the
/// next `m` bits land below them, reversed.
pub proof fn lemma_rev_split(c: nat, k: nat, m: nat)
    ensures
        rev(c, k + m) == rev(c % pow2(k), k) * pow2(m) + rev(c / pow2(k), m),
    decreases k,
{
    lemma_pow2_pos(k);
    if k == 0 {
        lemma2_to64();
        assert(pow2(0) == 1);
        assert(c % pow2(0) == 0);
        assert(c / pow2(0) == c);
        assert(rev(c % pow2(k), k) == 0);
        assert(k + m == m);
    } else {
        let h = (k - 1) as nat;
        lemma_rev_split(c / 2, h, m);
        lemma_pow2_unfold(k);
        lemma_pow2_pos(h);
        let ph = pow2(h);
        // c % 2^k splits into its lowest bit and the next h bits.
        lemma_mod_breakdown(c as int, 2, ph as int);
        assert(c % pow2(k) == 2 * ((c / 2) % ph) + c % 2);
        let lo = c % pow2(k);
        assert(lo % 2 == c % 2 && lo / 2 == (c / 2) % ph) by {
            lemma_fundamental_div_mod_converse(lo as int, 2, ((c / 2) % ph) as int, (c % 2) as int);
        }
        lemma_div_denominator(c as int, 2, ph as int);
        assert(c / pow2(k) == (c / 2) / ph);
        // Collect the powers of two.
        lemma_pow2_adds(h, m);
        assert(pow2((k + m - 1) as nat) == ph * pow2(m));
        let b = (c % 2) as int;
        let r1 = rev((c / 2) % ph, h) as int;
        assert(rev(lo, k) == b * ph + r1);
        assert((b * ph + r1) * pow2(m) == b * (ph * pow2(m)) + r1 * pow2(m)) by (nonlinear_arith);
        assert(rev(c, k + m) == (c % 2) * pow2((k + m - 1) as nat) + rev(c / 2, (k + m - 1) as nat));
        assert(rev(c / 2, h + m) == r1 * pow2(m) + rev((c / 2) / ph, m));
        assert((h + m) == (k + m - 1) as nat);
    }
}

/// Reversal is one-to-one on `n`-bit values.
pub proof fn lemma_rev_injective(c1: nat, c2: nat, n: nat)
    requires
        c1 < pow2(n),
        c2 < pow2(n),
        rev(c1, n) == rev(c2, n),
    ensures
        c1 == c2,
    decreases n,
{
    if n == 0 {
        lemma2_to64();
    } else {
        let h = (n - 1) as nat;
        lemma_pow2_unfold(n);
        lemma_pow2_pos(h);
        let p = pow2(h);
        lemma_rev_bound(c1 / 2, h);
        lemma_rev_bound(c2 / 2, h);
        let r = rev(c1, n) as int;
        lemma_fundamental_div_mod_converse(r, p as int, (c1 % 2) as int, rev(c1 / 2, h) as int);
        lemma_fundamental_div_mod_converse(r, p as int, (c2 % 2) as int, rev(c2 / 2, h) as int);
        assert(c1 / 2 < p && c2 / 2 < p);
        lemma_rev_injective(c1 / 2, c2 / 2, h);
    }
}

/// The first `m` bits of the reversal of an `n`-bit code are the reversal of
/// its top `m` bits.
pub proof fn lemma_rev_prefix(c: nat, n: nat, m: nat)
    requires
        m <= n,
    ensures
        rev(c, n) % pow2(m) == rev(c / pow2((n - m) as nat), m),
{
    let k = (n - m) as nat;
    lemma_rev_split(c, k, m);
    lemma_pow2_pos(m);
    let a: nat = rev(c % pow2(k), k);
    let b: nat = rev(c / pow2(k), m);
    let p: nat = pow2(m);
    lemma_rev_bound(c / pow2(k), m);
    assert(n == k + m);
    assert(rev(c, k + m) == a * p + b);
    assert(rev(c, n) == rev(c, k + m));
    assert(rev(c, n) == a * p + b);
    lemma_mul_is_commutative(a as int, p as int);
    lemma_mod_multiples_vanish(a as int, b as int, p as int);
    lemma_small_mod(b, p);
    let ai = a as int;
    let bi = b as int;
    let pi = p as int;
    assert((pi * ai + bi) % pi == bi % pi);
    assert(bi % pi == bi);
    assert((a * p + b) as int == ai * pi + bi) by (nonlinear_arith)
        requires ai == a as int, bi == b as int, pi == p as int;
    assert(ai * pi == pi * ai);
    assert(rev(c, n) as int == pi * ai + bi);
}

/// Reversing zero gives zero.
pub proof fn lemma_rev_zero(n: nat)
    ensures
        rev(0, n) == 0,
    decreases n,
{
    if n > 0 {
        lemma_rev_zero((n - 1) as nat);
        assert(0nat % 2 == 0);
        assert(0nat / 2 == 0);
        assert(0 * pow2((n - 1) as nat) == 0);
    }
}

/// Reversing an `n`-bit code within a wider field of `w` bits puts the
/// reversed code on top of the field.
pub proof fn lemma_rev_widen(c: nat, n: nat, w: nat)
    requires
        n <= w,
        c < pow2(n),
    ensures
        rev(c, w) == rev(c, n) * pow2((w - n) as nat),
{
    lemma_rev_split(c, n, (w - n) as nat);
    lemma_pow2_pos(n);
    lemma_small_mod(c, pow2(n));
    lemma_basic_div(c as int, pow2(n) as int);
    lemma_rev_zero((w - n) as nat);
    assert(n + (w - n) == w);
}

/// A value with its top marker bit: `x + 2^a` determines both `a` and `x`
/// when `x < 2^a`.
pub proof fn lemma_marker_bit(x: nat, a: nat, y: nat, b: nat)
    requires
        x < pow2(a),
        y < pow2(b),
        x + pow2(a) == y + pow2(b),
    ensures
        a == b,
        x == y,
{
    if a < b {
        lemma_pow2_unfold(a + 1);
        if a + 1 < b {
            lemma_pow2_strictly_increases(a + 1, b);
        }
    } else if b < a {
        lemma_pow2_unfold(b + 1);
        if b + 1 < a {
            lemma_pow2_strictly_increases(b + 1, a);
        }
    }
}

} // verus!
