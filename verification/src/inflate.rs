//! A DEFLATE decoder (RFC 1951) that hands out the decompressed bytes in
//! pieces of the caller's choosing.

use vstd::prelude::*;
use crate::bit_reader::BitReader;
use crate::bits::{bit_at, bits_value, lemma_bits_value_bound};
use crate::error::ArchiveError;
use crate::huffman::{count_below, decode_spec, valid_code_lengths, HuffmanCodes};
use crate::inflate_spec::{
    align_up, block_end, code_length_lens, code_length_order, code_length_rank, codes_step,
    distance_base, distance_extra, distance_offsets, dynamic_header, final_distance_lens,
    fixed_dist_lens, fixed_lit_lens, header_step, history_byte, inflate_spec, initial_state,
    lemma_decode_ok, lemma_distance_bound, lemma_fixed_dist_valid, lemma_fixed_lit_valid,
    lemma_length_bound, lemma_read_lengths, lemma_run_prefix, lemma_run_unfold, lemma_step_ok,
    length_base, length_extra, length_offsets, measure, read_lengths, run, state_ok, step,
    stored_header, total_bits, DecodeState, Phase, Step, DEFLATE_WINDOW_SIZE,
};
use crate::window::{keep_last, lemma_keep_last_index, lemma_keep_last_push, SlidingWindow};

verus! {

/// State for a stored (non-compressed) block.
struct NonCompressed {
    /// Overall size of the block.
    size: usize,
    /// What has been copied so far from it.
    copied: usize,
}

/// A pending LZ77 back-reference.
#[derive(Clone, Copy)]
struct Backref {
    /// The number of bytes still to copy.
    length: usize,
    /// How far back the copy reaches.
    distance: usize,
}

/// State for a Huffman-coded block.
struct Huffman {
    /// The literal/length code.
    lit_len: HuffmanCodes,
    /// The distance code.
    dist: HuffmanCodes,
    /// The back-reference being copied, if any.
    backref: Option<Backref>,
}

/// State for the block being decompressed.
enum DeflateBlock {
    NonCompressed(NonCompressed),
    Huffman(Huffman),
}

/// The decoding phase that a block state stands for.
spec fn block_phase(block: Option<DeflateBlock>, last: bool) -> Phase {
    match block {
        None => if last {
            Phase::Done
        } else {
            Phase::Header
        },
        Some(DeflateBlock::NonCompressed(nc)) => Phase::Stored {
            remaining: (nc.size - nc.copied) as nat,
        },
        Some(DeflateBlock::Huffman(h)) => match h.backref {
            None => Phase::Codes { lit: h.lit_len.lens(), dist: h.dist.lens() },
            Some(b) => Phase::Copy {
                lit: h.lit_len.lens(),
                dist: h.dist.lens(),
                len: b.length as nat,
                back: b.distance as nat,
            },
        },
    }
}

/// A block state is consistent.
spec fn block_ok(block: Option<DeflateBlock>) -> bool {
    match block {
        None => true,
        Some(DeflateBlock::NonCompressed(nc)) => nc.copied <= nc.size,
        Some(DeflateBlock::Huffman(h)) => {
            &&& h.lit_len.wf()
            &&& h.dist.wf()
            &&& h.lit_len.lens().len() <= 288
            &&& h.dist.lens().len() <= 288
            &&& match h.backref {
                None => true,
                Some(b) => 1 <= b.length <= 258 && 1 <= b.distance <= 32768,
            }
        },
    }
}

/// A type for implementing the DEFLATE decompression algorithm over an
/// in-memory stream.
///
/// A malformed or truncated stream makes `read` fail; every later `read` into
/// a non-empty buffer fails the same way.
pub struct Inflate {
    reader: BitReader,
    is_last_block: bool,
    current_block: Option<DeflateBlock>,
    window: SlidingWindow<u8>,
    failure: Option<ArchiveError>,
    out: Ghost<Seq<u8>>,
}

/// Two sequences that agree from `i` on also agree from any later `j` on.
proof fn lemma_subrange_tail(a: Seq<u8>, b: Seq<u8>, i: int, j: int, n: int)
    requires
        0 <= i <= j <= n,
        n <= a.len(),
        n <= b.len(),
        a.subrange(i, n) == b.subrange(i, n),
    ensures
        a.subrange(j, n) == b.subrange(j, n),
{
    assert forall|k: int| 0 <= k < n - j implies a.subrange(j, n)[k] == b.subrange(j, n)[k] by {
        assert(a.subrange(i, n)[k + j - i] == b.subrange(i, n)[k + j - i]);
        assert(a.subrange(i, n)[k + j - i] == a[k + j]);
        assert(b.subrange(i, n)[k + j - i] == b[k + j]);
        assert(a.subrange(j, n)[k] == a[k + j]);
        assert(b.subrange(j, n)[k] == b[k + j]);
    }
    assert(a.subrange(j, n) =~= b.subrange(j, n));
}

impl Inflate {
    /// The compressed stream.
    pub closed spec fn data(&self) -> Seq<u8> {
        self.reader.bytes()
    }

    /// Everything decompressed so far.
    pub closed spec fn produced(&self) -> Seq<u8> {
        self.out@
    }

    /// The decoding state, with `block` as the block state.
    spec fn state_with(&self, block: Option<DeflateBlock>) -> DecodeState {
        DecodeState {
            pos: self.reader.pos() as int,
            last: self.is_last_block,
            phase: block_phase(block, self.is_last_block),
        }
    }

    /// The reader and the window agree with the output so far.
    spec fn parts_ok(&self) -> bool {
        &&& 8 * self.reader.bytes().len() + 64 <= usize::MAX
        &&& self.reader.pos() <= total_bits(self.reader.bytes())
        &&& self.window.wf()
        &&& self.window.cap() == DEFLATE_WINDOW_SIZE
        &&& self.window.contents() == keep_last(self.out@, DEFLATE_WINDOW_SIZE as nat)
    }

    /// Decoding on from `block` completes the decoding of the whole stream.
    spec fn on_track(&self, block: Option<DeflateBlock>) -> bool {
        &&& state_ok(self.reader.bytes(), self.state_with(block))
        &&& run(self.reader.bytes(), self.state_with(block), self.out@) == inflate_spec(
            self.reader.bytes(),
        )
    }

    /// Well-formedness: the decoder is on its way through the stream, or it
    /// has failed for the reason that the stream gives.
    pub closed spec fn wf(&self) -> bool {
        &&& self.parts_ok()
        &&& block_ok(self.current_block)
        &&& match self.failure {
            None => self.on_track(self.current_block),
            Some(e) => inflate_spec(self.reader.bytes()) == (self.out@, Err::<(), ArchiveError>(e)),
        }
    }

    /// What has been produced is the start of what the stream decodes to.
    pub proof fn lemma_produced_prefix(&self)
        requires
            self.wf(),
        ensures
            self.produced().len() <= inflate_spec(self.data()).0.len(),
            self.produced() == inflate_spec(self.data()).0.subrange(0, self.produced().len() as int),
    {
        lemma_run_prefix(self.reader.bytes(), self.state_with(self.current_block), self.out@);
        if let Some(e) = self.failure {
            assert(self.out@.subrange(0, self.out@.len() as int) =~= self.out@);
        }
    }

    /// The bytes handed out depend only on how many were handed out: two
    /// decoders of one stream that have handed out equally many bytes have
    /// handed out the same bytes, whatever buffer sizes they were read with.
    pub proof fn lemma_chunking_irrelevant(a: &Inflate, b: &Inflate)
        requires
            a.wf(),
            b.wf(),
            a.data() == b.data(),
            a.produced().len() == b.produced().len(),
        ensures
            a.produced() == b.produced(),
    {
        a.lemma_produced_prefix();
        b.lemma_produced_prefix();
    }

    /// Draining a stream gives its whole decoding, however it was read: two
    /// decoders of one stream that have each handed out everything the stream
    /// decodes to have handed out the same bytes, namely that decoding.
    pub proof fn lemma_drains_agree(a: &Inflate, b: &Inflate)
        requires
            a.wf(),
            b.wf(),
            a.data() == b.data(),
            a.produced().len() == inflate_spec(a.data()).0.len(),
            b.produced().len() == inflate_spec(b.data()).0.len(),
        ensures
            a.produced() == inflate_spec(a.data()).0,
            b.produced() == inflate_spec(a.data()).0,
    {
        a.lemma_produced_prefix();
        b.lemma_produced_prefix();
        assert(a.produced() =~= inflate_spec(a.data()).0);
        assert(b.produced() =~= inflate_spec(a.data()).0);
    }

    /// Creates a new `Inflate` structure that decompresses the given bytes.
    pub fn new(reader: &[u8]) -> (r: Self)
        requires
            8 * reader@.len() + 64 <= usize::MAX,
        ensures
            r.wf(),
            r.data() == reader@,
            r.produced() == Seq::<u8>::empty(),
    {
        let r = Inflate {
            reader: BitReader::new(reader),
            is_last_block: false,
            current_block: None,
            window: SlidingWindow::with_capacity(DEFLATE_WINDOW_SIZE),
            failure: None,
            out: Ghost(Seq::empty()),
        };
        assert(r.state_with(None) == initial_state());
        assert(keep_last(Seq::<u8>::empty(), DEFLATE_WINDOW_SIZE as nat) =~= Seq::<u8>::empty());
        r
    }

    /// Writes one byte of output into the buffer and the window.
    fn emit(&mut self, buf: &mut [u8], filled: usize, byte: u8)
        requires
            old(self).parts_ok(),
            filled < old(buf)@.len(),
        ensures
            final(self).parts_ok(),
            final(self).reader == old(self).reader,
            final(self).is_last_block == old(self).is_last_block,
            final(self).current_block == old(self).current_block,
            final(self).failure == old(self).failure,
            final(self).out@ == old(self).out@.push(byte),
            final(buf)@ == old(buf)@.update(filled as int, byte),
    {
        buf[filled] = byte;
        self.window.push(byte);
        proof {
            lemma_keep_last_push(self.out@, byte, DEFLATE_WINDOW_SIZE as nat);
            self.out@ = self.out@.push(byte);
        }
    }

    /// The byte `distance` back in the output, or `None` where that is before
    /// the start of the output.
    fn history_byte(&self, distance: usize) -> (b: Option<u8>)
        requires
            self.parts_ok(),
            1 <= distance <= DEFLATE_WINDOW_SIZE,
        ensures
            b is None <==> distance > self.out@.len(),
            b matches Some(x) ==> x == history_byte(self.out@, distance as int),
    {
        if distance > self.window.len() {
            None
        } else {
            proof {
                lemma_keep_last_index(self.out@, DEFLATE_WINDOW_SIZE as nat, distance as int);
            }
            Some(self.window.peek(distance))
        }
    }

    // Header reading //////////////////////////////////////////////////////////

    /// Reads in a non-compressed block header, returning the `NonCompressed`
    /// descriptor for it. RFC 1951, 3.2.4.
    fn read_not_compressed_header(reader: &mut BitReader) -> (r: Result<NonCompressed, ArchiveError>)
        requires
            old(reader).pos() <= old(reader).total_bits(),
        ensures
            final(reader).bytes() == old(reader).bytes(),
            final(reader).pos() <= final(reader).total_bits(),
            match stored_header(old(reader).bytes(), old(reader).pos() as int) {
                Ok((len, p)) => r matches Ok(nc) && nc.size == len && nc.copied == 0
                    && final(reader).pos() == p,
                Err(e) => r == Err::<NonCompressed, ArchiveError>(e),
            },
            ({
                let a = align_up(old(reader).pos() as int);
                let total = total_bits(old(reader).bytes());
                &&& a + 32 <= total ==> final(reader).pos() == a + 32
                &&& a + 16 <= total < a + 32 ==> final(reader).pos() == a + 16
                &&& total < a + 16 ==> final(reader).pos() == old(reader).pos()
            }),
    {
        let len = reader.read_aligned_le_u16()?;
        let nlen = reader.read_aligned_le_u16()?;
        if len as u32 + nlen as u32 != 65535 {
            return Err(ArchiveError::LenNlenMismatch);
        }
        Ok(NonCompressed { size: len as usize, copied: 0 })
    }

    /// Builds the fixed Huffman codes of RFC 1951, 3.2.6.
    fn read_fixed_huffman_header() -> (r: Huffman)
        ensures
            block_ok(Some(DeflateBlock::Huffman(r))),
            r.lit_len.lens() == fixed_lit_lens(),
            r.dist.lens() == fixed_dist_lens(),
            r.backref is None,
    {
        // Literal and length codes
        let mut litlen_lens: Vec<usize> = Vec::new();
        for i in 0..288usize
            invariant
                litlen_lens@ == fixed_lit_lens().subrange(0, i as int),
        {
            let len: usize = if i < 144 {
                8
            } else if i < 256 {
                9
            } else if i < 280 {
                7
            } else {
                8
            };
            litlen_lens.push(len);
            assert(litlen_lens@ =~= fixed_lit_lens().subrange(0, i + 1));
        }
        assert(litlen_lens@ =~= fixed_lit_lens());
        // Distance codes
        let dist_lens: Vec<usize> = vec![5usize; 32];
        assert(dist_lens@ =~= fixed_dist_lens());
        proof {
            lemma_fixed_lit_valid();
            lemma_fixed_dist_valid();
        }
        let lit_len = match HuffmanCodes::from_code_lengths(litlen_lens.as_slice()) {
            Ok(h) => h,
            Err(_) => {
                assert(false);
                HuffmanCodes::new()
            },
        };
        let dist = match HuffmanCodes::from_code_lengths(dist_lens.as_slice()) {
            Ok(h) => h,
            Err(_) => {
                assert(false);
                HuffmanCodes::new()
            },
        };
        Huffman { lit_len, dist, backref: None }
    }

    // Decoding Huffman-coded blocks ///////////////////////////////////////////

    /// Decodes the copy length of a length symbol, reading its extra bits.
    /// RFC 1951, 3.2.5.
    fn decode_huffman_length(reader: &mut BitReader, lit_len: u16) -> (r: Result<usize, ArchiveError>)
        requires
            old(reader).pos() <= old(reader).total_bits(),
        ensures
            final(reader).bytes() == old(reader).bytes(),
            r is Err ==> final(reader).pos() == old(reader).pos(),
            !(257 <= lit_len <= 285) ==> r == Err::<usize, ArchiveError>(
                ArchiveError::InvalidLengthSymbol,
            ),
            257 <= lit_len <= 285 && !old(reader).has_bits(length_extra(lit_len as int) as nat)
                ==> r == Err::<usize, ArchiveError>(ArchiveError::UnexpectedEof),
            257 <= lit_len <= 285 && old(reader).has_bits(length_extra(lit_len as int) as nat)
                ==> {
                &&& r matches Ok(v) && v == length_base(lit_len as int) + old(reader).next_bits(
                    length_extra(lit_len as int) as nat,
                )
                &&& final(reader).pos() == old(reader).pos() + length_extra(lit_len as int)
            },
    {
        let offsets: [usize; 20] = [
            11, 13, 15, 17, 19, 23, 27, 31, 35, 43, 51, 59, 67, 83, 99, 115, 131, 163, 195, 227,
        ];
        assert(offsets@ == length_offsets().map_values(|v: int| v as usize));
        if 257 <= lit_len && lit_len <= 264 {
            proof {
                crate::bits::lemma_bits_value_bound(old(reader).bytes(), old(reader).pos() as int, 0);
                vstd::arithmetic::power2::lemma2_to64();
            }
            Ok((lit_len - 254) as usize)
        } else if 265 <= lit_len && lit_len <= 284 {
            let extra = (lit_len - 261) / 4;
            let offset = offsets[(lit_len - 265) as usize];
            proof {
                lemma_length_bound(old(reader).bytes(), old(reader).pos() as int, lit_len as int);
            }
            let extra = reader.read_to_u8(extra as usize)? as usize;
            Ok(offset + extra)
        } else if lit_len == 285 {
            proof {
                crate::bits::lemma_bits_value_bound(old(reader).bytes(), old(reader).pos() as int, 0);
                vstd::arithmetic::power2::lemma2_to64();
            }
            Ok(258)
        } else {
            Err(ArchiveError::InvalidLengthSymbol)
        }
    }

    /// Decodes the copy distance of a distance symbol, reading its extra bits.
    /// RFC 1951, 3.2.5.
    fn decode_huffman_distance(reader: &mut BitReader, sym: u16) -> (r: Result<usize, ArchiveError>)
        requires
            old(reader).pos() <= old(reader).total_bits(),
        ensures
            final(reader).bytes() == old(reader).bytes(),
            r is Err ==> final(reader).pos() == old(reader).pos(),
            sym > 29 ==> r == Err::<usize, ArchiveError>(ArchiveError::InvalidDistanceSymbol),
            sym <= 29 && !old(reader).has_bits(distance_extra(sym as int) as nat) ==> r == Err::<
                usize,
                ArchiveError,
            >(ArchiveError::UnexpectedEof),
            sym <= 29 && old(reader).has_bits(distance_extra(sym as int) as nat) ==> {
                &&& r matches Ok(v) && v == distance_base(sym as int) + old(reader).next_bits(
                    distance_extra(sym as int) as nat,
                )
                &&& final(reader).pos() == old(reader).pos() + distance_extra(sym as int)
            },
    {
        let offsets: [usize; 26] = [
            5, 7, 9, 13, 17, 25, 33, 49, 65, 97, 129, 193, 257, 385, 513, 769, 1025, 1537, 2049,
            3073, 4097, 6145, 8193, 12289, 16385, 24577,
        ];
        assert(offsets@ == distance_offsets().map_values(|v: int| v as usize));
        if sym <= 3 {
            proof {
                crate::bits::lemma_bits_value_bound(old(reader).bytes(), old(reader).pos() as int, 0);
                vstd::arithmetic::power2::lemma2_to64();
            }
            Ok((sym + 1) as usize)
        } else if sym <= 29 {
            let extra = (sym - 2) / 2;
            let offset = offsets[(sym - 4) as usize];
            proof {
                lemma_distance_bound(old(reader).bytes(), old(reader).pos() as int, sym as int);
            }
            let extra = reader.read_to_u16(extra as usize)? as usize;
            Ok(offset + extra)
        } else {
            Err(ArchiveError::InvalidDistanceSymbol)
        }
    }

    /// Reads the code lengths of the code length alphabet, `n` of them in the
    /// order of RFC 1951, 3.2.7.
    fn read_code_length_code_lens(reader: &mut BitReader, n: usize) -> (r: Result<Vec<usize>, ArchiveError>)
        requires
            4 <= n <= 19,
            old(reader).pos() <= old(reader).total_bits(),
        ensures
            final(reader).bytes() == old(reader).bytes(),
            final(reader).pos() <= final(reader).total_bits(),
            old(reader).pos() + 3 * n <= old(reader).total_bits() ==> {
                &&& r matches Ok(v) && v@ == code_length_lens(
                    old(reader).bytes(),
                    old(reader).pos() as int,
                    n as int,
                )
                &&& final(reader).pos() == old(reader).pos() + 3 * n
            },
            old(reader).pos() + 3 * n > old(reader).total_bits() ==> r == Err::<
                Vec<usize>,
                ArchiveError,
            >(ArchiveError::UnexpectedEof),
    {
        let order: [usize; 19] = [16, 17, 18, 0, 8, 7, 9, 6, 10, 5, 11, 4, 12, 3, 13, 2, 14, 1, 15];
        assert(order@ == code_length_order().map_values(|v: int| v as usize));
        let ghost data = reader.bytes();
        let ghost p0 = reader.pos() as int;
        proof {
            assert forall|j: int| 0 <= j < 19 implies code_length_order()[#[trigger] code_length_rank()[j]]
                == j && 0 <= code_length_rank()[j] < 19 by {}
            assert forall|i: int| 0 <= i < 19 implies code_length_rank()[#[trigger] code_length_order()[i]]
                == i && 0 <= code_length_order()[i] < 19 by {}
        }
        let mut lens: Vec<usize> = vec![0usize; 19];
        assert(lens@ =~= code_length_lens(data, p0, 0));
        let mut i: usize = 0;
        while i < n
            invariant
                i <= n <= 19,
                reader.bytes() == data,
                data == old(reader).bytes(),
                p0 == old(reader).pos(),
                reader.pos() == p0 + 3 * i,
                reader.pos() <= total_bits(data),
                p0 <= total_bits(data),
                lens@ == code_length_lens(data, p0, i as int),
                forall|j: int| 0 <= j < 19 ==> code_length_order()[#[trigger] code_length_rank()[j]]
                    == j && 0 <= code_length_rank()[j] < 19,
                forall|i: int| 0 <= i < 19 ==> code_length_rank()[#[trigger] code_length_order()[i]]
                    == i && 0 <= code_length_order()[i] < 19,
                order@ == code_length_order().map_values(|v: int| v as usize),
            decreases n - i,
        {
            let v = reader.read_to_u8(3)?;
            proof {
                lemma_bits_value_bound(data, p0 + 3 * i, 3);
                vstd::arithmetic::power2::lemma2_to64();
            }
            let ghost before = lens@;
            lens.set(order[i], v as usize);
            proof {
                let k = code_length_order()[i as int];
                assert(order@[i as int] == k);
                assert forall|j: int| 0 <= j < 19 implies #[trigger] lens@[j] == code_length_lens(
                    data,
                    p0,
                    i + 1,
                )[j] by {
                    if j == k {
                        assert(code_length_rank()[j] == i);
                    } else {
                        assert(code_length_rank()[j] != i);
                    }
                }
                assert(lens@ =~= code_length_lens(data, p0, i + 1));
            }
            i = i + 1;
        }
        Ok(lens)
    }

    /// Decodes the code lengths of the literal/length and distance codes with
    /// the code length code, `n_total` of them. RFC 1951, 3.2.7.
    #[verifier::rlimit(40)]
    fn read_code_lengths(reader: &mut BitReader, codelen_code: &HuffmanCodes, n_total: usize) -> (r: Result<Vec<usize>, ArchiveError>)
        requires
            codelen_code.wf(),
            codelen_code.lens().len() == 19,
            old(reader).pos() <= old(reader).total_bits(),
            8 * old(reader).bytes().len() + 64 <= usize::MAX,
            n_total <= 320,
        ensures
            final(reader).bytes() == old(reader).bytes(),
            final(reader).pos() <= final(reader).total_bits(),
            match read_lengths(old(reader).bytes(), old(reader).pos() as int, codelen_code.lens(), n_total as nat, seq![]) {
                Ok((all, p)) => r matches Ok(v) && v@ == all && final(reader).pos() == p && forall|k: int| 0 <= k < v@.len() ==> v@[k] <= 15,
                Err(e) => r == Err::<Vec<usize>, ArchiveError>(e),
            },
    {
        let ghost data = reader.bytes();
        let ghost clens = codelen_code.lens();
        let ghost goal = read_lengths(data, reader.pos() as int, clens, n_total as nat, seq![]);
        let mut all: Vec<usize> = Vec::new();
        loop
            invariant
                reader.bytes() == data,
                data == old(reader).bytes(),
                goal == read_lengths(old(reader).bytes(), old(reader).pos() as int, clens, n_total as nat, seq![]),
                reader.pos() <= total_bits(data),
                8 * data.len() + 64 <= usize::MAX,
                codelen_code.wf(),
                clens == codelen_code.lens(),
                clens.len() == 19,
                n_total <= 320,
                all@.len() <= n_total,
                forall|k: int| 0 <= k < all@.len() ==> all@[k] <= 15,
                read_lengths(data, reader.pos() as int, clens, n_total as nat, all@) == goal,
            decreases n_total - all@.len(),
        {
            if all.len() >= n_total {
                return Ok(all);
            }
            let ghost pos = reader.pos() as int;
            let ghost acc = all@;
            let sym = codelen_code.decode_symbol(reader)?;
            proof {
                lemma_decode_ok(data, pos, clens);
            }
            let ghost p1 = pos + clens[sym as int];
            if sym < 16 {
                all.push(sym as usize);
                assert(read_lengths(data, pos, clens, n_total as nat, acc) == read_lengths(data, p1, clens, n_total as nat, acc.push(sym as usize)));
                continue;
            }
            if sym == 16 && all.len() == 0 {
                return Err(ArchiveError::NoCodeLengthToRepeat);
            }
            let extra: usize = if sym == 16 {
                2
            } else if sym == 17 {
                3
            } else {
                7
            };
            let base: usize = if sym == 18 {
                11
            } else {
                3
            };
            let bits = reader.read_to_u8(extra)?;
            proof {
                lemma_bits_value_bound(data, pos + clens[sym as int], extra as nat);
                vstd::arithmetic::power2::lemma2_to64();
            }
            let repeat = base + bits as usize;
            let value: usize = if sym == 16 {
                all[all.len() - 1]
            } else {
                0
            };
            if all.len() + repeat > n_total {
                return Err(ArchiveError::TooManyCodeLengths);
            }
            assert(read_lengths(data, pos, clens, n_total as nat, acc) == read_lengths(data, p1 + extra, clens, n_total as nat, acc + Seq::new(repeat as nat, |i: int| value)));
            let ghost before = all@;
            let mut k: usize = 0;
            while k < repeat
                invariant
                    k <= repeat,
                    before.len() + repeat <= n_total,
                    all@ == before + Seq::new(k as nat, |i: int| value),
                    value <= 15,
                decreases repeat - k,
            {
                all.push(value);
                k = k + 1;
                assert(all@ =~= before + Seq::new(k as nat, |i: int| value));
            }
            assert(forall|k: int| 0 <= k < all@.len() ==> all@[k] <= 15);
        }
    }

    /// The distance code lengths a dynamic header ends up with: a single
    /// unused code means no distance code at all, and a single code of one
    /// bit is completed with an unused second one.
    fn final_distance_code_lens(dist: &[usize]) -> (r: Vec<usize>)
        requires
            1 <= dist@.len() <= 32,
        ensures
            r@ == final_distance_lens(dist@),
    {
        if dist.len() == 1 && dist[0] == 0 {
            return Vec::new();
        }
        let n = dist.len();
        let mut one: usize = 0;
        let mut zero: usize = 0;
        for i in 0..n
            invariant
                n == dist@.len(),
                one == count_below(dist@, i as int, 1),
                zero == count_below(dist@, i as int, 0),
                one + zero <= i,
        {
            if dist[i] == 1 {
                one = one + 1;
            } else if dist[i] == 0 {
                zero = zero + 1;
            }
        }
        let mut result: Vec<usize> = Vec::new();
        for i in 0..n
            invariant
                n == dist@.len(),
                result@ == dist@.subrange(0, i as int),
        {
            result.push(dist[i]);
            assert(result@ =~= dist@.subrange(0, i + 1));
        }
        assert(result@ =~= dist@);
        if one == 1 && zero + 1 == n {
            // A single code: complete the tree with an unused one.
            let ghost before = result@;
            while result.len() < 32
                invariant
                    before == dist@,
                    n <= result@.len() <= 32,
                    result@ == before + Seq::new((result@.len() - n) as nat, |i: int| 0usize),
                decreases 32 - result@.len(),
            {
                result.push(0);
                assert(result@ =~= before + Seq::new((result@.len() - n) as nat, |i: int| 0usize));
            }
            result.set(31, 1);
        }
        result
    }

    /// Reads in a dynamic Huffman-coded block header, returning the `Huffman`
    /// descriptor for it. RFC 1951, 3.2.7.
    fn read_dynamic_huffman_header(reader: &mut BitReader) -> (r: Result<Huffman, ArchiveError>)
        requires
            old(reader).pos() <= old(reader).total_bits(),
            8 * old(reader).bytes().len() + 64 <= usize::MAX,
        ensures
            final(reader).bytes() == old(reader).bytes(),
            final(reader).pos() <= final(reader).total_bits(),
            match dynamic_header(old(reader).bytes(), old(reader).pos() as int) {
                Ok((lit, dist, p)) => r matches Ok(h) && block_ok(Some(DeflateBlock::Huffman(h)))
                    && h.lit_len.lens() == lit && h.dist.lens() == dist && h.backref is None
                    && final(reader).pos() == p,
                Err(e) => r is Err && r == Err::<Huffman, ArchiveError>(e),
            },
    {
        reveal(dynamic_header);
        let ghost data = reader.bytes();
        let ghost pos = reader.pos() as int;
        let n_litlen = reader.read_to_u8(5)? as usize + 257;
        let n_dist = reader.read_to_u8(5)? as usize + 1;
        let n_codelen_codes = reader.read_to_u8(4)? as usize + 4;
        proof {
            vstd::arithmetic::power2::lemma2_to64();
            lemma_bits_value_bound(data, pos, 5);
            lemma_bits_value_bound(data, pos + 5, 5);
            lemma_bits_value_bound(data, pos + 10, 4);
        }
        // Code length code lengths
        let codelen_codelens = Self::read_code_length_code_lens(reader, n_codelen_codes)?;
        proof {
            let clens = codelen_codelens@;
            assert forall|j: int| 0 <= j < 19 implies clens[j] <= 15 by {
                let k = code_length_rank()[j];
                lemma_bits_value_bound(data, pos + 14 + 3 * k, 3);
            }
        }
        // Construct the code length code
        let codelen_code = HuffmanCodes::from_code_lengths(codelen_codelens.as_slice())?;
        // Decode all code lengths in one go, as their processing is the same
        let all_codelens = Self::read_code_lengths(reader, &codelen_code, n_litlen + n_dist)?;
        proof {
            lemma_read_lengths(data, pos + 14 + 3 * n_codelen_codes, codelen_code.lens(), (n_litlen + n_dist) as nat, seq![]);
        }
        // Construct the literal/length code
        let litlen_codelens = vstd::slice::slice_subrange(all_codelens.as_slice(), 0, n_litlen);
        let lit_len = HuffmanCodes::from_code_lengths(litlen_codelens)?;
        // Construct the distance code
        let dist_codelens = Self::final_distance_code_lens(
            vstd::slice::slice_subrange(all_codelens.as_slice(), n_litlen, all_codelens.len()),
        );
        proof {
            let d = all_codelens@.subrange(n_litlen as int, all_codelens@.len() as int);
            if !(d.len() == 1 && d[0] == 0) && count_below(d, d.len() as int, 1) == 1 && count_below(d, d.len() as int, 0) + 1 == d.len() {
                assert(forall|k: int| 0 <= k < dist_codelens@.len() ==> dist_codelens@[k] <= 15);
            }
        }
        let dist = HuffmanCodes::from_code_lengths(dist_codelens.as_slice())?;
        Ok(Huffman { lit_len, dist, backref: None })
    }

    /// Reads in a block header, returning the `DeflateBlock` that describes
    /// it. RFC 1951, 3.2.3.
    fn read_block_header(&mut self) -> (r: Result<DeflateBlock, ArchiveError>)
        requires
            old(self).parts_ok(),
        ensures
            final(self).parts_ok(),
            final(self).reader.bytes() == old(self).reader.bytes(),
            final(self).out == old(self).out,
            final(self).current_block == old(self).current_block,
            final(self).failure == old(self).failure,
            match r {
                Ok(b) => block_ok(Some(b)) && header_step(old(self).reader.bytes(), old(self).reader.pos() as int)
                    == Step::Next(final(self).state_with(Some(b))),
                Err(e) => header_step(old(self).reader.bytes(), old(self).reader.pos() as int) == Step::Fail(e),
            },
            old(self).reader.pos() < total_bits(old(self).reader.bytes()) ==> final(self).is_last_block
                == (bit_at(old(self).reader.bytes(), old(self).reader.pos() as int) == 1),
            old(self).reader.pos() >= total_bits(old(self).reader.bytes()) ==> final(self).is_last_block
                == old(self).is_last_block,
    {
        reveal(header_step);
        let ghost data = self.reader.bytes();
        let ghost pos = self.reader.pos() as int;
        let last = self.reader.read_bit()?;
        proof {
            crate::bits::lemma_bit_at_bound(data, pos);
        }
        self.is_last_block = last != 0;
        let btype = self.reader.read_to_u8(2)?;
        proof {
            lemma_bits_value_bound(data, pos + 1, 2);
            vstd::arithmetic::power2::lemma2_to64();
        }
        if btype == 0 {
            let nc = Self::read_not_compressed_header(&mut self.reader)?;
            Ok(DeflateBlock::NonCompressed(nc))
        } else if btype == 1 {
            Ok(DeflateBlock::Huffman(Self::read_fixed_huffman_header()))
        } else if btype == 2 {
            let h = Self::read_dynamic_huffman_header(&mut self.reader)?;
            Ok(DeflateBlock::Huffman(h))
        } else {
            Err(ArchiveError::InvalidBlockType)
        }
    }

    // Reading stored blocks ///////////////////////////////////////////////////

    /// Reads a stored block into the buffer from `filled` on, as far as the
    /// buffer or the block goes. Returns how far the buffer is filled and
    /// whether the block has ended.
    fn read_non_compressed(&mut self, buf: &mut [u8], start: usize, state: &mut NonCompressed) -> (r: Result<(usize, bool), ArchiveError>)
        requires
            old(self).parts_ok(),
            block_ok(Some(DeflateBlock::NonCompressed(*old(state)))),
            old(self).on_track(Some(DeflateBlock::NonCompressed(*old(state)))),
            start <= old(buf)@.len(),
        ensures
            final(self).parts_ok(),
            final(self).reader.bytes() == old(self).reader.bytes(),
            final(self).is_last_block == old(self).is_last_block,
            final(self).current_block == old(self).current_block,
            final(self).failure == old(self).failure,
            final(buf)@.len() == old(buf)@.len(),
            match r {
                Ok((n, ended)) => {
                    &&& start <= n <= old(buf)@.len()
                    &&& final(self).out@ == old(self).out@ + final(buf)@.subrange(start as int, n as int)
                    &&& final(buf)@.subrange(0, start as int) == old(buf)@.subrange(0, start as int)
                    &&& final(buf)@.subrange(n as int, old(buf)@.len() as int) == old(buf)@.subrange(n as int, old(buf)@.len() as int)
                    &&& ended ==> final(self).on_track(None) && measure(
                        final(self).reader.bytes(),
                        final(self).state_with(None),
                    ) < measure(
                        old(self).reader.bytes(),
                        old(self).state_with(Some(DeflateBlock::NonCompressed(*old(state)))),
                    )
                    &&& !ended ==> n == old(buf)@.len() && block_ok(Some(DeflateBlock::NonCompressed(*final(state))))
                        && final(self).on_track(Some(DeflateBlock::NonCompressed(*final(state))))
                },
                Err(e) => {
                    &&& inflate_spec(final(self).reader.bytes()) == (final(self).out@, Err::<(), ArchiveError>(e))
                    &&& final(self).out@.len() < old(self).out@.len() + old(buf)@.len() - start
                },
            },
    {
        let ghost data = self.reader.bytes();
        let ghost buf0 = buf@;
        let ghost out0 = self.out@;
        let ghost m0 = measure(data, self.state_with(Some(DeflateBlock::NonCompressed(*state))));
        let mut filled = start;
        loop
            invariant
                self.parts_ok(),
                self.reader.bytes() == data,
                data == old(self).reader.bytes(),
                self.is_last_block == old(self).is_last_block,
                self.current_block == old(self).current_block,
                self.failure == old(self).failure,
                block_ok(Some(DeflateBlock::NonCompressed(*state))),
                self.on_track(Some(DeflateBlock::NonCompressed(*state))),
                measure(data, self.state_with(Some(DeflateBlock::NonCompressed(*state)))) <= m0,
                m0 == measure(old(self).reader.bytes(), old(self).state_with(Some(DeflateBlock::NonCompressed(*old(state))))),
                buf0 == old(buf)@,
                out0 == old(self).out@,
                start <= filled <= buf@.len(),
                buf@.len() == buf0.len(),
                self.out@ == out0 + buf@.subrange(start as int, filled as int),
                buf@.subrange(0, start as int) == buf0.subrange(0, start as int),
                buf@.subrange(filled as int, buf0.len() as int) == buf0.subrange(filled as int, buf0.len() as int),
            decreases measure(data, self.state_with(Some(DeflateBlock::NonCompressed(*state)))),
        {
            let ghost st = self.state_with(Some(DeflateBlock::NonCompressed(*state)));
            proof {
                lemma_run_unfold(data, st, self.out@);
                lemma_step_ok(data, st, self.out@);
            }
            if state.copied == state.size {
                assert(self.state_with(None) == block_end(st.pos, st.last));
                return Ok((filled, true));
            }
            if filled >= buf.len() {
                return Ok((filled, false));
            }
            let byte = match self.reader.read_aligned_u8() {
                Ok(b) => b,
                Err(e) => {
                    return Err(e);
                },
            };
            let ghost out1 = self.out@;
            let ghost buf1 = buf@;
            self.emit(buf, filled, byte);
            state.copied = state.copied + 1;
            filled = filled + 1;
            proof {
                assert(buf@.subrange(start as int, filled as int) =~= buf1.subrange(start as int, filled - 1).push(byte));
                assert(buf@.subrange(0, start as int) =~= buf1.subrange(0, start as int));
                assert(buf@.subrange(filled as int, buf0.len() as int) =~= buf1.subrange(filled as int, buf0.len() as int));
                        lemma_subrange_tail(buf1, buf0, filled - 1, filled as int, buf0.len() as int);
            }
        }
    }

    // Decoding Huffman-coded blocks ///////////////////////////////////////////

    /// Decodes a Huffman-coded block into the buffer from `filled` on, as far
    /// as the buffer or the block goes. Returns how far the buffer is filled
    /// and whether the block has ended.
    #[verifier::rlimit(60)]
    fn read_huffman(&mut self, buf: &mut [u8], start: usize, state: &mut Huffman) -> (r: Result<(usize, bool), ArchiveError>)
        requires
            old(self).parts_ok(),
            block_ok(Some(DeflateBlock::Huffman(*old(state)))),
            old(self).on_track(Some(DeflateBlock::Huffman(*old(state)))),
            start <= old(buf)@.len(),
        ensures
            final(self).parts_ok(),
            final(self).reader.bytes() == old(self).reader.bytes(),
            final(self).is_last_block == old(self).is_last_block,
            final(self).current_block == old(self).current_block,
            final(self).failure == old(self).failure,
            final(buf)@.len() == old(buf)@.len(),
            match r {
                Ok((n, ended)) => {
                    &&& start <= n <= old(buf)@.len()
                    &&& final(self).out@ == old(self).out@ + final(buf)@.subrange(start as int, n as int)
                    &&& final(buf)@.subrange(0, start as int) == old(buf)@.subrange(0, start as int)
                    &&& final(buf)@.subrange(n as int, old(buf)@.len() as int) == old(buf)@.subrange(n as int, old(buf)@.len() as int)
                    &&& ended ==> final(self).on_track(None) && measure(
                        final(self).reader.bytes(),
                        final(self).state_with(None),
                    ) < measure(
                        old(self).reader.bytes(),
                        old(self).state_with(Some(DeflateBlock::Huffman(*old(state)))),
                    )
                    &&& !ended ==> n == old(buf)@.len() && block_ok(Some(DeflateBlock::Huffman(*final(state))))
                        && final(self).on_track(Some(DeflateBlock::Huffman(*final(state))))
                },
                Err(e) => {
                    &&& inflate_spec(final(self).reader.bytes()) == (final(self).out@, Err::<(), ArchiveError>(e))
                    &&& final(self).out@.len() < old(self).out@.len() + old(buf)@.len() - start
                },
            },
    {
        let ghost data = self.reader.bytes();
        let ghost buf0 = buf@;
        let ghost out0 = self.out@;
        let ghost m0 = measure(data, self.state_with(Some(DeflateBlock::Huffman(*state))));
        let mut filled = start;
        loop
            invariant
                self.parts_ok(),
                self.reader.bytes() == data,
                data == old(self).reader.bytes(),
                self.is_last_block == old(self).is_last_block,
                self.current_block == old(self).current_block,
                self.failure == old(self).failure,
                block_ok(Some(DeflateBlock::Huffman(*state))),
                self.on_track(Some(DeflateBlock::Huffman(*state))),
                measure(data, self.state_with(Some(DeflateBlock::Huffman(*state)))) <= m0,
                m0 == measure(old(self).reader.bytes(), old(self).state_with(Some(DeflateBlock::Huffman(*old(state))))),
                buf0 == old(buf)@,
                out0 == old(self).out@,
                start <= filled <= buf@.len(),
                buf@.len() == buf0.len(),
                self.out@ == out0 + buf@.subrange(start as int, filled as int),
                buf@.subrange(0, start as int) == buf0.subrange(0, start as int),
                buf@.subrange(filled as int, buf0.len() as int) == buf0.subrange(filled as int, buf0.len() as int),
            decreases measure(data, self.state_with(Some(DeflateBlock::Huffman(*state)))),
        {
            let ghost st = self.state_with(Some(DeflateBlock::Huffman(*state)));
            proof {
                lemma_run_unfold(data, st, self.out@);
                lemma_step_ok(data, st, self.out@);
            }
            if filled >= buf.len() {
                return Ok((filled, false));
            }
            let ghost out1 = self.out@;
            let ghost buf1 = buf@;
            match state.backref {
                Some(backref) => {
                    // Copy one byte of the back-reference
                    let byte = match self.history_byte(backref.distance) {
                        Some(b) => b,
                        None => {
                            return Err(ArchiveError::DistanceTooFarBack);
                        },
                    };
                    self.emit(buf, filled, byte);
                    filled = filled + 1;
                    if backref.length == 1 {
                        state.backref = None;
                    } else {
                        state.backref = Some(Backref { length: backref.length - 1, distance: backref.distance });
                    }
                    proof {
                        assert(buf@.subrange(start as int, filled as int) =~= buf1.subrange(start as int, filled - 1).push(byte));
                        assert(buf@.subrange(0, start as int) =~= buf1.subrange(0, start as int));
                        assert(buf@.subrange(filled as int, buf0.len() as int) =~= buf1.subrange(filled as int, buf0.len() as int));
                        lemma_subrange_tail(buf1, buf0, filled - 1, filled as int, buf0.len() as int);
                    }
                },
                None => {
                    // Decode a symbol
                    reveal(codes_step);
                    let ghost pos = self.reader.pos() as int;
                    let sym = match state.lit_len.decode_symbol(&mut self.reader) {
                        Ok(s) => s,
                        Err(e) => {
                            return Err(e);
                        },
                    };
                    proof {
                        lemma_decode_ok(data, pos, state.lit_len.lens());
                    }
                    if sym == 256 {
                        // End of block
                        assert(self.state_with(None) == block_end(self.reader.pos() as int, st.last));
                        return Ok((filled, true));
                    }
                    if sym < 256 {
                        // Literal byte
                        self.emit(buf, filled, sym as u8);
                        filled = filled + 1;
                        proof {
                            assert(buf@.subrange(start as int, filled as int) =~= buf1.subrange(start as int, filled - 1).push(sym as u8));
                            assert(buf@.subrange(0, start as int) =~= buf1.subrange(0, start as int));
                            assert(buf@.subrange(filled as int, buf0.len() as int) =~= buf1.subrange(filled as int, buf0.len() as int));
                        lemma_subrange_tail(buf1, buf0, filled - 1, filled as int, buf0.len() as int);
                        }
                    } else {
                        // A length and a distance
                        let length = match Self::decode_huffman_length(&mut self.reader, sym) {
                            Ok(l) => l,
                            Err(e) => {
                                return Err(e);
                            },
                        };
                        let ghost p2 = self.reader.pos() as int;
                        let dist_sym = match state.dist.decode_symbol(&mut self.reader) {
                            Ok(s) => s,
                            Err(e) => {
                                return Err(e);
                            },
                        };
                        proof {
                            lemma_decode_ok(data, p2, state.dist.lens());
                        }
                        let distance = match Self::decode_huffman_distance(&mut self.reader, dist_sym) {
                            Ok(d) => d,
                            Err(e) => {
                                return Err(e);
                            },
                        };
                        proof {
                            lemma_length_bound(data, pos + state.lit_len.lens()[sym as int], sym as int);
                            lemma_distance_bound(data, p2 + state.dist.lens()[dist_sym as int], dist_sym as int);
                        }
                        state.backref = Some(Backref { length, distance });
                    }
                },
            }
        }
    }

    // Reading /////////////////////////////////////////////////////////////////

    /// Decompresses into the given buffer: fills it, or as much of it as the
    /// stream has left, and returns the number of bytes written.
    ///
    /// # Errors
    ///
    /// If the stream is malformed or truncated before the buffer is full, the
    /// error that the decoding ran into; the bytes decoded up to there are
    /// lost. Every later read into a non-empty buffer fails the same way.
    pub fn read(&mut self, buf: &mut [u8]) -> (r: Result<usize, ArchiveError>)
        requires
            old(self).wf(),
        ensures
            final(self).wf(),
            final(self).data() == old(self).data(),
            final(buf)@.len() == old(buf)@.len(),
            ({
                let full = inflate_spec(old(self).data()).0;
                let res = inflate_spec(old(self).data()).1;
                let p = old(self).produced().len();
                let len = old(buf)@.len();
                &&& old(self).produced() == full.subrange(0, p as int)
                &&& (r is Err <==> (res is Err && p + len > full.len()))
                &&& r matches Ok(n) ==> {
                    &&& n == if p + len <= full.len() {
                        len as int
                    } else {
                        full.len() - p
                    }
                    &&& final(buf)@.subrange(0, n as int) == full.subrange(p as int, p + n)
                    &&& final(buf)@.subrange(n as int, len as int) == old(buf)@.subrange(n as int, len as int)
                    &&& final(self).produced() == full.subrange(0, p + n)
                }
                &&& r matches Err(e) ==> res == Err::<(), ArchiveError>(e) && final(self).produced() == full
                &&& r matches Ok(n) ==> (n < len ==> final(self).produced() == full)
            }),
    {
        proof {
            self.lemma_produced_prefix();
        }
        if buf.len() == 0 {
            assert(buf@.subrange(0, 0) =~= inflate_spec(self.data()).0.subrange(self.out@.len() as int, self.out@.len() as int));
            return Ok(0);
        }
        if let Some(e) = self.failure {
            return Err(e);
        }
        let ghost data = self.reader.bytes();
        let ghost full = inflate_spec(data).0;
        let ghost buf0 = buf@;
        let ghost out0 = self.out@;
        let mut filled: usize = 0;
        loop
            invariant
                self.parts_ok(),
                self.failure is None,
                block_ok(self.current_block),
                self.on_track(self.current_block),
                self.reader.bytes() == data,
                data == old(self).reader.bytes(),
                full == inflate_spec(data).0,
                buf0 == old(buf)@,
                out0 == old(self).out@,
                out0 == full.subrange(0, out0.len() as int),
                buf@.len() == buf0.len(),
                filled <= buf@.len(),
                0 < buf@.len(),
                self.out@ == out0 + buf@.subrange(0, filled as int),
                buf@.subrange(filled as int, buf0.len() as int) == buf0.subrange(filled as int, buf0.len() as int),
            decreases measure(data, self.state_with(self.current_block)),
        {
            proof {
                lemma_run_prefix(data, self.state_with(self.current_block), self.out@);
            }
            proof {
                assert(self.out@ =~= full.subrange(0, self.out@.len() as int));
                assert(buf@.subrange(0, filled as int) =~= self.out@.subrange(out0.len() as int, self.out@.len() as int));
            }
            if filled == buf.len() {
                return Ok(filled);
            }
            let ghost st = self.state_with(self.current_block);
            proof {
                lemma_run_unfold(data, st, self.out@);
                lemma_step_ok(data, st, self.out@);
            }
            let block = self.current_block.take();
            match block {
                None => {
                    if self.is_last_block {
                        // The last block has ended.
                        self.current_block = None;
                        return Ok(filled);
                    }
                    match self.read_block_header() {
                        Ok(b) => {
                            self.current_block = Some(b);
                        },
                        Err(e) => {
                            self.failure = Some(e);
                            return Err(e);
                        },
                    }
                },
                Some(DeflateBlock::NonCompressed(nc)) => {
                    let mut nc = nc;
                    let ghost buf_before = buf@;
                    match self.read_non_compressed(buf, filled, &mut nc) {
                        Ok((n, ended)) => {
                            proof {
                                assert(buf@.subrange(0, n as int) =~= buf@.subrange(0, filled as int) + buf@.subrange(filled as int, n as int));
                                assert(self.out@ =~= out0 + buf@.subrange(0, n as int));
                                lemma_subrange_tail(buf_before, buf0, filled as int, n as int, buf0.len() as int);
                                assert(buf@.subrange(n as int, buf0.len() as int) =~= buf0.subrange(n as int, buf0.len() as int));
                            }
                            filled = n;
                            if !ended {
                                self.current_block = Some(DeflateBlock::NonCompressed(nc));
                                proof {
                                    lemma_run_prefix(data, self.state_with(self.current_block), self.out@);
                                    assert(self.out@ =~= full.subrange(0, self.out@.len() as int));
                                    assert(buf@.subrange(0, filled as int) =~= self.out@.subrange(out0.len() as int, self.out@.len() as int));
                                }
                                return Ok(filled);
                            }
                        },
                        Err(e) => {
                            self.failure = Some(e);
                            return Err(e);
                        },
                    }
                },
                Some(DeflateBlock::Huffman(h)) => {
                    let mut h = h;
                    let ghost buf_before = buf@;
                    match self.read_huffman(buf, filled, &mut h) {
                        Ok((n, ended)) => {
                            proof {
                                assert(buf@.subrange(0, n as int) =~= buf@.subrange(0, filled as int) + buf@.subrange(filled as int, n as int));
                                assert(self.out@ =~= out0 + buf@.subrange(0, n as int));
                                lemma_subrange_tail(buf_before, buf0, filled as int, n as int, buf0.len() as int);
                                assert(buf@.subrange(n as int, buf0.len() as int) =~= buf0.subrange(n as int, buf0.len() as int));
                            }
                            filled = n;
                            if !ended {
                                self.current_block = Some(DeflateBlock::Huffman(h));
                                proof {
                                    lemma_run_prefix(data, self.state_with(self.current_block), self.out@);
                                    assert(self.out@ =~= full.subrange(0, self.out@.len() as int));
                                    assert(buf@.subrange(0, filled as int) =~= self.out@.subrange(out0.len() as int, self.out@.len() as int));
                                }
                                return Ok(filled);
                            }
                        },
                        Err(e) => {
                            self.failure = Some(e);
                            return Err(e);
                        },
                    }
                },
            }
        }
    }
}

} // verus!
