//! A bitwise reader over an in-memory byte stream, reading each byte least
//! significant bit first.

use vstd::prelude::*;
use vstd::arithmetic::power2::*;
use crate::bits::{bit_at, bits_value, lemma_bit_at_bound, lemma_bits_value_step, lemma_pow2_small};
use crate::error::ArchiveError;

verus! {

/// A bitwise reader for streams that require non-byte aligned reads.
///
/// Peeking past the end of the stream sees zero bits; reading or skipping past
/// it fails with `ArchiveError::UnexpectedEof` and leaves the reader as it was.
#[derive(Debug)]
pub struct BitReader {
    data: Vec<u8>,
    pos: usize,
}

impl BitReader {
    #[verifier::type_invariant]
    spec fn inv(self) -> bool {
        8 * self.data.len() <= usize::MAX
    }

    /// The bytes of the stream.
    pub closed spec fn bytes(self) -> Seq<u8> {
        self.data@
    }

    /// The position of the next bit to read.
    pub closed spec fn pos(self) -> nat {
        self.pos as nat
    }

    /// The number of bits in the stream.
    pub open spec fn total_bits(self) -> nat {
        8 * self.bytes().len()
    }

    /// The value of the next `n` bits, zero-padded past the end.
    pub open spec fn next_bits(self, n: nat) -> nat {
        bits_value(self.bytes(), self.pos() as int, n)
    }

    /// The index of the byte at the aligned position.
    pub open spec fn aligned_byte(self) -> int {
        self.aligned_pos() as int / 8
    }

    /// Whether `n` more bits lie inside the stream.
    pub open spec fn has_bits(self, n: nat) -> bool {
        self.pos() + n <= self.total_bits()
    }

    /// The position rounded up to the next byte boundary.
    pub open spec fn aligned_pos(self) -> nat {
        if self.pos() % 8 == 0 {
            self.pos()
        } else {
            (self.pos() + 8 - self.pos() % 8) as nat
        }
    }

    /// Creates a new `BitReader` over the given bytes, positioned at the first
    /// bit.
    pub fn new(reader: &[u8]) -> (r: Self)
        requires
            8 * reader@.len() <= usize::MAX,
        ensures
            r.bytes() == reader@,
            r.pos() == 0,
    {
        let mut data: Vec<u8> = Vec::new();
        let n = reader.len();
        for i in 0..n
            invariant
                n == reader@.len(),
                data@ == reader@.subrange(0, i as int),
        {
            data.push(reader[i]);
            assert(data@ == reader@.subrange(0, i + 1));
        }
        assert(data@ == reader@);
        BitReader { data, pos: 0 }
    }

    /// Creates a new `BitReader` that takes ownership of the given bytes.
    pub fn from_vec(data: Vec<u8>) -> (r: Self)
        requires
            8 * data@.len() <= usize::MAX,
        ensures
            r.bytes() == data@,
            r.pos() == 0,
    {
        BitReader { data, pos: 0 }
    }

    /// The position of the next bit to read.
    pub fn position(&self) -> (p: usize)
        ensures
            p == self.pos(),
    {
        self.pos
    }

    /// The number of bits in the stream.
    pub fn bit_len(&self) -> (n: usize)
        ensures
            n == self.total_bits(),
    {
        proof {
            use_type_invariant(self);
        }
        8 * self.data.len()
    }

    /// The bit at the given absolute position, 0 past the end.
    fn bit_at_index(&self, i: usize) -> (b: u8)
        ensures
            b == bit_at(self.bytes(), i as int),
            b <= 1,
    {
        proof {
            use_type_invariant(self);
            lemma_bit_at_bound(self.bytes(), i as int);
        }
        if i < 8 * self.data.len() {
            (self.data[i / 8] >> ((i % 8) as u8)) & 1u8
        } else {
            0
        }
    }

    /// The value of `count` bits starting at the given absolute position.
    fn bits_at(&self, start: usize, count: usize) -> (v: u32)
        requires
            count <= 16,
            start + count <= usize::MAX,
        ensures
            v == bits_value(self.bytes(), start as int, count as nat),
            v < pow2(count as nat),
    {
        let mut value: u32 = 0;
        let mut pw: u32 = 1;
        let mut j: usize = 0;
        proof {
            lemma2_to64();
        }
        while j < count
            invariant
                j <= count,
                count <= 16,
                start + count <= usize::MAX,
                pw == pow2(j as nat),
                value == bits_value(self.bytes(), start as int, j as nat),
                value < pw,
            decreases count - j,
        {
            let b = self.bit_at_index(start + j);
            proof {
                lemma_bits_value_step(self.bytes(), start as int, j as nat);
                lemma_pow2_unfold((j + 1) as nat);
                lemma_pow2_small((j + 1) as nat);
                lemma_pow2_strictly_increases(j as nat, 16);
                lemma2_to64();
            }
            proof {
                let bn = bit_at(self.bytes(), start + j) as nat;
                assert(bn * pow2(j as nat) == if b == 1 { pow2(j as nat) } else { 0 }) by {
                    if b == 1 {
                        assert(bn == 1);
                    } else {
                        assert(bn == 0);
                    }
                }
            }
            if b == 1 {
                value = value + pw;
            }
            pw = pw * 2;
            j = j + 1;
        }
        value
    }

    /// Peeks the bit at the given offset from the position without consuming
    /// any of the input.
    pub fn peek_bit(&mut self, offset: usize) -> (r: Result<u8, ArchiveError>)
        requires
            old(self).pos() + offset <= usize::MAX,
        ensures
            *final(self) == *old(self),
            r == Ok::<u8, ArchiveError>(bit_at(old(self).bytes(), old(self).pos() + offset)),
    {
        Ok(self.bit_at_index(self.pos + offset))
    }

    /// Reads the next bit from the stream. Either `1` or `0`.
    ///
    /// # Errors
    ///
    /// If the stream has no more bits, `ArchiveError::UnexpectedEof`.
    pub fn read_bit(&mut self) -> (r: Result<u8, ArchiveError>)
        ensures
            old(self).has_bits(1) ==> {
                &&& r == Ok::<u8, ArchiveError>(bit_at(old(self).bytes(), old(self).pos() as int))
                &&& final(self).bytes() == old(self).bytes()
                &&& final(self).pos() == old(self).pos() + 1
            },
            !old(self).has_bits(1) ==> r == Err::<u8, ArchiveError>(ArchiveError::UnexpectedEof)
                && *final(self) == *old(self),
    {
        proof {
            use_type_invariant(&*self);
        }
        if self.pos >= 8 * self.data.len() {
            return Err(ArchiveError::UnexpectedEof);
        }
        let b = self.bit_at_index(self.pos);
        self.pos = self.pos + 1;
        Ok(b)
    }

    /// Peeks `count` bits without consumption, assembling them into an `u8`.
    pub fn peek_to_u8(&mut self, count: usize) -> (r: Result<u8, ArchiveError>)
        requires
            count <= 8,
            old(self).pos() + count <= usize::MAX,
        ensures
            *final(self) == *old(self),
            r matches Ok(v) && v == old(self).next_bits(count as nat),
    {
        let v = self.bits_at(self.pos, count);
        proof {
            lemma2_to64();
            if count < 8 {
                lemma_pow2_strictly_increases(count as nat, 8);
            }
        }
        Ok(v as u8)
    }

    /// Peeks `count` bits without consumption, assembling them into an `u16`.
    pub fn peek_to_u16(&mut self, count: usize) -> (r: Result<u16, ArchiveError>)
        requires
            count <= 16,
            old(self).pos() + count <= usize::MAX,
        ensures
            *final(self) == *old(self),
            r matches Ok(v) && v == old(self).next_bits(count as nat),
    {
        let v = self.bits_at(self.pos, count);
        proof {
            lemma2_to64();
            if count < 16 {
                lemma_pow2_strictly_increases(count as nat, 16);
            }
        }
        Ok(v as u16)
    }

    /// Reads in `count` bits into an `u8`.
    ///
    /// # Errors
    ///
    /// If fewer than `count` bits are left, `ArchiveError::UnexpectedEof`.
    pub fn read_to_u8(&mut self, count: usize) -> (r: Result<u8, ArchiveError>)
        requires
            count <= 8,
        ensures
            old(self).has_bits(count as nat) ==> {
                &&& r matches Ok(v) && v == old(self).next_bits(count as nat)
                &&& final(self).bytes() == old(self).bytes()
                &&& final(self).pos() == old(self).pos() + count
            },
            !old(self).has_bits(count as nat) ==> r == Err::<u8, ArchiveError>(
                ArchiveError::UnexpectedEof,
            ) && *final(self) == *old(self),
    {
        proof {
            use_type_invariant(&*self);
        }
        if count > 8 * self.data.len() || self.pos > 8 * self.data.len() - count {
            return Err(ArchiveError::UnexpectedEof);
        }
        let v = self.peek_to_u8(count);
        self.pos = self.pos + count;
        v
    }

    /// Reads in `count` bits into an `u16`.
    ///
    /// # Errors
    ///
    /// If fewer than `count` bits are left, `ArchiveError::UnexpectedEof`.
    pub fn read_to_u16(&mut self, count: usize) -> (r: Result<u16, ArchiveError>)
        requires
            count <= 16,
        ensures
            old(self).has_bits(count as nat) ==> {
                &&& r matches Ok(v) && v == old(self).next_bits(count as nat)
                &&& final(self).bytes() == old(self).bytes()
                &&& final(self).pos() == old(self).pos() + count
            },
            !old(self).has_bits(count as nat) ==> r == Err::<u16, ArchiveError>(
                ArchiveError::UnexpectedEof,
            ) && *final(self) == *old(self),
    {
        proof {
            use_type_invariant(&*self);
        }
        if count > 8 * self.data.len() || self.pos > 8 * self.data.len() - count {
            return Err(ArchiveError::UnexpectedEof);
        }
        let v = self.peek_to_u16(count);
        self.pos = self.pos + count;
        v
    }

    /// Skips to the start of next byte. If already on a byte-boundary, this is
    /// a no-op.
    pub fn skip_to_byte(&mut self)
        requires
            old(self).pos() + 7 <= usize::MAX,
        ensures
            final(self).bytes() == old(self).bytes(),
            final(self).pos() == old(self).aligned_pos(),
            old(self).pos() % 8 == 0 ==> final(self).pos() == old(self).pos(),
    {
        proof {
            use_type_invariant(&*self);
        }
        let to_skip = (8 - self.pos % 8) % 8;
        self.pos = self.pos + to_skip;
    }

    /// Consumes the given number of bits.
    pub fn consume_bits(&mut self, count: usize)
        requires
            old(self).pos() + count <= usize::MAX,
        ensures
            final(self).bytes() == old(self).bytes(),
            final(self).pos() == old(self).pos() + count,
    {
        proof {
            use_type_invariant(&*self);
        }
        self.pos = self.pos + count;
    }

    /// Reads in an aligned `u8`, skipping the remaining of the current byte.
    ///
    /// # Errors
    ///
    /// If no whole byte is left after the current one,
    /// `ArchiveError::UnexpectedEof`.
    pub fn read_aligned_u8(&mut self) -> (r: Result<u8, ArchiveError>)
        ensures
            old(self).aligned_pos() + 8 <= old(self).total_bits() ==> {
                &&& r matches Ok(v) && v == old(self).bytes()[old(self).aligned_byte()]
                &&& final(self).bytes() == old(self).bytes()
                &&& final(self).pos() == old(self).aligned_pos() + 8
            },
            old(self).aligned_pos() + 8 > old(self).total_bits() ==> r == Err::<u8, ArchiveError>(
                ArchiveError::UnexpectedEof,
            ) && *final(self) == *old(self),
    {
        proof {
            use_type_invariant(&*self);
        }
        let total = 8 * self.data.len();
        if self.pos > total || total - self.pos < 8 {
            return Err(ArchiveError::UnexpectedEof);
        }
        let aligned = self.pos + (8 - self.pos % 8) % 8;
        if aligned > total - 8 {
            return Err(ArchiveError::UnexpectedEof);
        }
        let v = self.data[aligned / 8];
        self.pos = aligned + 8;
        Ok(v)
    }

    /// Reads in an aligned little-endian `u16`, skipping the remaining of the
    /// current byte.
    ///
    /// # Errors
    ///
    /// If two whole bytes are not left after the current one,
    /// `ArchiveError::UnexpectedEof`.
    pub fn read_aligned_le_u16(&mut self) -> (r: Result<u16, ArchiveError>)
        ensures
            old(self).aligned_pos() + 16 <= old(self).total_bits() ==> {
                &&& r matches Ok(v) && v == old(self).bytes()[old(self).aligned_byte()] as nat
                    + 256 * old(self).bytes()[old(self).aligned_byte() + 1] as nat
                &&& final(self).bytes() == old(self).bytes()
                &&& final(self).pos() == old(self).aligned_pos() + 16
            },
            old(self).aligned_pos() + 16 > old(self).total_bits() ==> r == Err::<
                u16,
                ArchiveError,
            >(ArchiveError::UnexpectedEof) && *final(self) == *old(self),
    {
        proof {
            use_type_invariant(&*self);
        }
        let total = 8 * self.data.len();
        if self.pos > total || total - self.pos < 16 {
            return Err(ArchiveError::UnexpectedEof);
        }
        let aligned = self.pos + (8 - self.pos % 8) % 8;
        if aligned > total - 16 {
            return Err(ArchiveError::UnexpectedEof);
        }
        let lo = self.data[aligned / 8] as u16;
        let hi = self.data[aligned / 8 + 1] as u16;
        self.pos = aligned + 16;
        Ok(lo + 256 * hi)
    }

    /// Reads in the exact amount of aligned bytes into the given buffer,
    /// skipping the remaining of the current byte.
    ///
    /// # Errors
    ///
    /// If fewer bytes than the buffer holds are left after the current one,
    /// `ArchiveError::UnexpectedEof`; the buffer is then left untouched.
    pub fn read_aligned_to_buffer(&mut self, buffer: &mut [u8]) -> (r: Result<(), ArchiveError>)
        ensures
            old(self).aligned_pos() + 8 * old(buffer)@.len() <= old(self).total_bits() ==> {
                &&& r is Ok
                &&& final(buffer)@ == old(self).bytes().subrange(
                    old(self).aligned_byte(),
                    old(self).aligned_byte() + old(buffer)@.len(),
                )
                &&& final(self).bytes() == old(self).bytes()
                &&& final(self).pos() == old(self).aligned_pos() + 8 * old(buffer)@.len()
            },
            old(self).aligned_pos() + 8 * old(buffer)@.len() > old(self).total_bits() ==> r
                == Err::<(), ArchiveError>(ArchiveError::UnexpectedEof) && *final(self) == *old(
                self,
            ) && final(buffer)@ == old(buffer)@,
    {
        proof {
            use_type_invariant(&*self);
        }
        let total = 8 * self.data.len();
        let n = buffer.len();
        if self.pos > total || (total - self.pos) / 8 < n {
            return Err(ArchiveError::UnexpectedEof);
        }
        let aligned = self.pos + (8 - self.pos % 8) % 8;
        if aligned > total || (total - aligned) / 8 < n {
            return Err(ArchiveError::UnexpectedEof);
        }
        let first = aligned / 8;
        for i in 0..n
            invariant
                n == buffer@.len(),
                first + n <= self.data@.len(),
                first + n <= usize::MAX,
                forall|k: int| 0 <= k < i ==> buffer@[k] == self.data@[first + k],
        {
            buffer[i] = self.data[first + i];
        }
        assert(buffer@ == self.data@.subrange(first as int, first + n));
        self.pos = aligned + 8 * n;
        Ok(())
    }
}

} // verus!
