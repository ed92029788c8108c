//! The CRC-32 checksum of zip archives (ISO 3309, reflected polynomial
//! 0xEDB88320).

use vstd::prelude::*;

verus! {

/// The reflected CRC-32 polynomial.
pub const CRC32_POLYNOMIAL: u32 = 0xedb88320;

/// One bit step of the CRC register.
pub open spec fn crc_bit(c: u32) -> u32 {
    if c % 2 == 1 {
        (c >> 1) ^ CRC32_POLYNOMIAL
    } else {
        c >> 1
    }
}

/// `n` bit steps of the CRC register.
pub open spec fn crc_bits(c: u32, n: nat) -> u32
    decreases n,
{
    if n == 0 {
        c
    } else {
        crc_bits(crc_bit(c), (n - 1) as nat)
    }
}

/// The CRC register after taking in one byte.
pub open spec fn crc_byte(c: u32, b: u8) -> u32 {
    crc_bits(c ^ (b as u32), 8)
}

/// The CRC register after taking in the bytes `s` in order.
pub open spec fn crc_update(c: u32, s: Seq<u8>) -> u32
    decreases s.len(),
{
    if s.len() == 0 {
        c
    } else {
        crc_byte(crc_update(c, s.drop_last()), s.last())
    }
}

/// The CRC-32 of the bytes `s`.
pub open spec fn crc32(s: Seq<u8>) -> u32 {
    !crc_update(0xffffffff, s)
}

/// Taking in two pieces one after the other is taking in their
/// concatenation.
pub proof fn lemma_crc_update_append(c: u32, s: Seq<u8>, t: Seq<u8>)
    ensures
        crc_update(crc_update(c, s), t) == crc_update(c, s + t),
    decreases t.len(),
{
    if t.len() > 0 {
        lemma_crc_update_append(c, s, t.drop_last());
        assert((s + t).drop_last() =~= s + t.drop_last());
    } else {
        assert(s + t =~= s);
    }
}

/// A bit step never maps two registers to one: the top bit of the result
/// tells whether the polynomial was added, and so what was shifted out.
proof fn lemma_crc_bit_injective(a: u32, b: u32)
    requires
        crc_bit(a) == crc_bit(b),
    ensures
        a == b,
{
    assert(((if a % 2 == 1 {
        (a >> 1) ^ 0xedb88320u32
    } else {
        a >> 1
    }) == (if b % 2 == 1 {
        (b >> 1) ^ 0xedb88320u32
    } else {
        b >> 1
    })) ==> a == b) by (bit_vector);
}

/// Bit steps never map two registers to one.
proof fn lemma_crc_bits_injective(a: u32, b: u32, n: nat)
    requires
        crc_bits(a, n) == crc_bits(b, n),
    ensures
        a == b,
    decreases n,
{
    if n > 0 {
        lemma_crc_bits_injective(crc_bit(a), crc_bit(b), (n - 1) as nat);
        lemma_crc_bit_injective(a, b);
    }
}

/// Taking in a byte tells every register apart, and every byte apart: all
/// eight bits of the byte count.
pub proof fn lemma_crc_byte_injective(c1: u32, b1: u8, c2: u32, b2: u8)
    requires
        crc_byte(c1, b1) == crc_byte(c2, b2),
    ensures
        c1 == c2 ==> b1 == b2,
        b1 == b2 ==> c1 == c2,
{
    lemma_crc_bits_injective(c1 ^ (b1 as u32), c2 ^ (b2 as u32), 8);
    assert((c1 ^ (b1 as u32)) == (c2 ^ (b2 as u32)) ==> (c1 == c2 ==> b1 == b2)) by (bit_vector);
    assert((c1 ^ (b1 as u32)) == (c2 ^ (b2 as u32)) ==> (b1 == b2 ==> c1 == c2)) by (bit_vector);
}

/// Taking in the same bytes never maps two registers to one.
proof fn lemma_crc_update_injective(c1: u32, c2: u32, s: Seq<u8>)
    requires
        crc_update(c1, s) == crc_update(c2, s),
    ensures
        c1 == c2,
    decreases s.len(),
{
    if s.len() > 0 {
        lemma_crc_byte_injective(crc_update(c1, s.drop_last()), s.last(), crc_update(c2, s.drop_last()), s.last());
        lemma_crc_update_injective(c1, c2, s.drop_last());
    }
}

/// A CRC-32 detects every change of a single byte, wherever it stands: two
/// byte strings that differ in exactly one byte have different checksums.
pub proof fn lemma_crc32_detects_byte_change(p: Seq<u8>, q: Seq<u8>, b1: u8, b2: u8)
    requires
        b1 != b2,
    ensures
        crc32(p.push(b1) + q) != crc32(p.push(b2) + q),
{
    let c = crc_update(0xffffffff, p);
    lemma_crc_update_append(0xffffffff, p.push(b1), q);
    lemma_crc_update_append(0xffffffff, p.push(b2), q);
    assert(p.push(b1).drop_last() =~= p);
    assert(p.push(b2).drop_last() =~= p);
    let r1 = crc_update(0xffffffff, p.push(b1) + q);
    let r2 = crc_update(0xffffffff, p.push(b2) + q);
    if crc32(p.push(b1) + q) == crc32(p.push(b2) + q) {
        assert(!r1 == !r2 ==> r1 == r2) by (bit_vector);
        lemma_crc_update_injective(crc_byte(c, b1), crc_byte(c, b2), q);
        lemma_crc_byte_injective(c, b1, c, b2);
    }
}

/// A structure for calculating CRC-32 byte by byte.
pub struct Crc32 {
    register: u32,
}

impl Crc32 {
    /// The CRC register.
    pub closed spec fn register(&self) -> u32 {
        self.register
    }

    /// Creates a new `Crc32` with the initial register value.
    pub fn new() -> (r: Self)
        ensures
            r.register() == 0xffffffffu32,
    {
        Crc32 { register: 0xffffffff }
    }

    /// Returns the CRC-32 of the bytes pushed so far.
    pub fn finalize(self) -> (r: u32)
        ensures
            r == !self.register(),
    {
        !self.register
    }

    /// Adds a byte to the `Crc32`.
    pub fn push(&mut self, byte: u8)
        ensures
            final(self).register() == crc_byte(old(self).register(), byte),
    {
        let ghost start = self.register ^ (byte as u32);
        self.register = self.register ^ (byte as u32);
        let mut i: usize = 0;
        while i < 8
            invariant
                i <= 8,
                crc_bits(self.register, (8 - i) as nat) == crc_bits(start, 8),
            decreases 8 - i,
        {
            if self.register % 2 == 1 {
                self.register = (self.register >> 1) ^ CRC32_POLYNOMIAL;
            } else {
                self.register = self.register >> 1;
            }
            i = i + 1;
        }
    }

    /// Adds the bytes of a slice to the `Crc32`, in order.
    pub fn push_slice(&mut self, bytes: &[u8])
        ensures
            final(self).register() == crc_update(old(self).register(), bytes@),
    {
        let ghost start = self.register;
        let n = bytes.len();
        for i in 0..n
            invariant
                n == bytes@.len(),
                self.register == crc_update(start, bytes@.subrange(0, i as int)),
        {
            self.push(bytes[i]);
            assert(bytes@.subrange(0, i + 1).drop_last() =~= bytes@.subrange(0, i as int));
        }
        assert(bytes@.subrange(0, n as int) =~= bytes@);
    }
}

/// Computes the CRC-32 of the given bytes.
pub fn crc32_of(bytes: &[u8]) -> (r: u32)
    ensures
        r == crc32(bytes@),
{
    let mut crc = Crc32::new();
    crc.push_slice(bytes);
    crc.finalize()
}

} // verus!
