//! The meaning of a DEFLATE stream (RFC 1951): a decoding step by step, from
//! block headers through literals and back-references, over the bits of the
//! stream.

use vstd::prelude::*;
use vstd::arithmetic::power2::*;
use crate::bits::{bit_at, bits_value};
use crate::huffman::{
    count_below, decode_spec, first_code, length_count, matches_at, valid_code_lengths,
};
use crate::error::ArchiveError;

verus! {

/// How far back a DEFLATE back-reference may reach.
pub const DEFLATE_WINDOW_SIZE: usize = 32768;

/// The number of bits in the stream.
pub open spec fn total_bits(data: Seq<u8>) -> int {
    8 * data.len() as int
}

/// A bit position rounded up to the next byte boundary.
pub open spec fn align_up(pos: int) -> int {
    if pos % 8 == 0 {
        pos
    } else {
        pos + 8 - pos % 8
    }
}

/// The byte `dist` places back from the end of the output.
pub open spec fn history_byte(out: Seq<u8>, dist: int) -> u8
    recommends
        1 <= dist <= out.len(),
{
    out[out.len() - dist]
}

/// The code lengths of the fixed literal/length code (RFC 1951, 3.2.6).
pub open spec fn fixed_lit_lens() -> Seq<usize> {
    Seq::new(
        288,
        |i: int|
            if i < 144 {
                8usize
            } else if i < 256 {
                9usize
            } else if i < 280 {
                7usize
            } else {
                8usize
            },
    )
}

/// The code lengths of the fixed distance code (RFC 1951, 3.2.6).
pub open spec fn fixed_dist_lens() -> Seq<usize> {
    Seq::new(32, |i: int| 5usize)
}

/// The order in which a dynamic header lists the code lengths of the code
/// length alphabet.
pub open spec fn code_length_order() -> Seq<int> {
    seq![16, 17, 18, 0, 8, 7, 9, 6, 10, 5, 11, 4, 12, 3, 13, 2, 14, 1, 15]
}

/// The position of each code length symbol in `code_length_order`.
pub open spec fn code_length_rank() -> Seq<int> {
    seq![3, 17, 15, 13, 11, 9, 7, 5, 4, 6, 8, 10, 12, 14, 16, 18, 0, 1, 2]
}

/// The code lengths of the code length alphabet, of which the first `n` in
/// `code_length_order` are given as 3-bit numbers from `pos` on, the others
/// being 0.
pub open spec fn code_length_lens(data: Seq<u8>, pos: int, n: int) -> Seq<usize> {
    Seq::new(
        19,
        |j: int|
            if code_length_rank()[j] < n {
                bits_value(data, pos + 3 * code_length_rank()[j], 3) as usize
            } else {
                0usize
            },
    )
}

/// The base values of the lengths of symbols 265 to 284.
pub open spec fn length_offsets() -> Seq<int> {
    seq![11, 13, 15, 17, 19, 23, 27, 31, 35, 43, 51, 59, 67, 83, 99, 115, 131, 163, 195, 227]
}

/// The base values of the distances of symbols 4 to 29.
pub open spec fn distance_offsets() -> Seq<int> {
    seq![
        5, 7, 9, 13, 17, 25, 33, 49, 65, 97, 129, 193, 257, 385, 513, 769, 1025, 1537, 2049, 3073,
        4097, 6145, 8193, 12289, 16385, 24577,
    ]
}

/// The number of extra bits of a length symbol (257 to 285).
pub open spec fn length_extra(sym: int) -> int {
    if 265 <= sym <= 284 {
        (sym - 261) / 4
    } else {
        0
    }
}

/// The length of a length symbol (257 to 285) before its extra bits are added.
pub open spec fn length_base(sym: int) -> int {
    if sym <= 264 {
        sym - 254
    } else if sym <= 284 {
        length_offsets()[sym - 265]
    } else {
        258
    }
}

/// The number of extra bits of a distance symbol (0 to 29).
pub open spec fn distance_extra(sym: int) -> int {
    if sym <= 3 {
        0
    } else {
        (sym - 2) / 2
    }
}

/// The distance of a distance symbol (0 to 29) before its extra bits are
/// added.
pub open spec fn distance_base(sym: int) -> int {
    if sym <= 3 {
        sym + 1
    } else {
        distance_offsets()[sym - 4]
    }
}

/// The distance codes of RFC 1951, 3.2.5: symbols 0 to 3 stand for the
/// distances 1 to 4; from symbol 4 on, symbol `k` starts at
/// 2^(k/2 - 1) * (2 + k % 2) + 1 and has k/2 - 1 extra bits. So each symbol's
/// range ends where the next one's begins, and the last one ends at 32768.
pub proof fn lemma_distance_codes(k: int)
    requires
        0 <= k <= 29,
    ensures
        k < 4 ==> distance_base(k) == k + 1 && distance_extra(k) == 0,
        k >= 4 ==> distance_extra(k) == k / 2 - 1,
        k >= 4 ==> distance_base(k) == pow2((k / 2 - 1) as nat) * (2 + k % 2) + 1,
        k < 29 ==> distance_base(k + 1) == distance_base(k) + pow2(distance_extra(k) as nat),
        k == 29 ==> distance_base(k) + pow2(distance_extra(k) as nat) - 1 == 32768,
{
    lemma2_to64();
    if k == 0 {
    } else if k == 1 {
    } else if k == 2 {
    } else if k == 3 {
    } else if k == 4 {
        assert(((k / 2 - 1) as nat) == 1nat);
        assert(pow2(1nat) * 2 + 1 == 5);
    } else if k == 5 {
        assert(((k / 2 - 1) as nat) == 1nat);
        assert(pow2(1nat) * 3 + 1 == 7);
    } else if k == 6 {
        assert(((k / 2 - 1) as nat) == 2nat);
        assert(pow2(2nat) * 2 + 1 == 9);
    } else if k == 7 {
        assert(((k / 2 - 1) as nat) == 2nat);
        assert(pow2(2nat) * 3 + 1 == 13);
    } else if k == 8 {
        assert(((k / 2 - 1) as nat) == 3nat);
        assert(pow2(3nat) * 2 + 1 == 17);
    } else if k == 9 {
        assert(((k / 2 - 1) as nat) == 3nat);
        assert(pow2(3nat) * 3 + 1 == 25);
    } else if k == 10 {
        assert(((k / 2 - 1) as nat) == 4nat);
        assert(pow2(4nat) * 2 + 1 == 33);
    } else if k == 11 {
        assert(((k / 2 - 1) as nat) == 4nat);
        assert(pow2(4nat) * 3 + 1 == 49);
    } else if k == 12 {
        assert(((k / 2 - 1) as nat) == 5nat);
        assert(pow2(5nat) * 2 + 1 == 65);
    } else if k == 13 {
        assert(((k / 2 - 1) as nat) == 5nat);
        assert(pow2(5nat) * 3 + 1 == 97);
    } else if k == 14 {
        assert(((k / 2 - 1) as nat) == 6nat);
        assert(pow2(6nat) * 2 + 1 == 129);
    } else if k == 15 {
        assert(((k / 2 - 1) as nat) == 6nat);
        assert(pow2(6nat) * 3 + 1 == 193);
    } else if k == 16 {
        assert(((k / 2 - 1) as nat) == 7nat);
        assert(pow2(7nat) * 2 + 1 == 257);
    } else if k == 17 {
        assert(((k / 2 - 1) as nat) == 7nat);
        assert(pow2(7nat) * 3 + 1 == 385);
    } else if k == 18 {
        assert(((k / 2 - 1) as nat) == 8nat);
        assert(pow2(8nat) * 2 + 1 == 513);
    } else if k == 19 {
        assert(((k / 2 - 1) as nat) == 8nat);
        assert(pow2(8nat) * 3 + 1 == 769);
    } else if k == 20 {
        assert(((k / 2 - 1) as nat) == 9nat);
        assert(pow2(9nat) * 2 + 1 == 1025);
    } else if k == 21 {
        assert(((k / 2 - 1) as nat) == 9nat);
        assert(pow2(9nat) * 3 + 1 == 1537);
    } else if k == 22 {
        assert(((k / 2 - 1) as nat) == 10nat);
        assert(pow2(10nat) * 2 + 1 == 2049);
    } else if k == 23 {
        assert(((k / 2 - 1) as nat) == 10nat);
        assert(pow2(10nat) * 3 + 1 == 3073);
    } else if k == 24 {
        assert(((k / 2 - 1) as nat) == 11nat);
        assert(pow2(11nat) * 2 + 1 == 4097);
    } else if k == 25 {
        assert(((k / 2 - 1) as nat) == 11nat);
        assert(pow2(11nat) * 3 + 1 == 6145);
    } else if k == 26 {
        assert(((k / 2 - 1) as nat) == 12nat);
        assert(pow2(12nat) * 2 + 1 == 8193);
    } else if k == 27 {
        assert(((k / 2 - 1) as nat) == 12nat);
        assert(pow2(12nat) * 3 + 1 == 12289);
    } else if k == 28 {
        assert(((k / 2 - 1) as nat) == 13nat);
        assert(pow2(13nat) * 2 + 1 == 16385);
    } else if k == 29 {
        assert(((k / 2 - 1) as nat) == 13nat);
        assert(pow2(13nat) * 3 + 1 == 24577);
    }
}

/// The length codes of RFC 1951, 3.2.5: symbols 257 to 264 stand for the
/// lengths 3 to 10; symbols 265 to 284 start at
/// 2^e * (4 + (k - 261) % 4) + 3 with e = (k - 261) / 4 extra bits; symbol
/// 285 is the length 258. Each symbol's range ends where the next one's
/// begins.
pub proof fn lemma_length_codes(k: int)
    requires
        257 <= k <= 285,
    ensures
        k <= 264 ==> length_base(k) == k - 254 && length_extra(k) == 0,
        265 <= k <= 284 ==> length_extra(k) == (k - 261) / 4,
        265 <= k <= 284 ==> length_base(k) == pow2(((k - 261) / 4) as nat) * (4 + (k - 261) % 4) + 3,
        k == 285 ==> length_base(k) == 258 && length_extra(k) == 0,
        k < 284 ==> length_base(k + 1) == length_base(k) + pow2(length_extra(k) as nat),
        k == 284 ==> length_base(k) + pow2(length_extra(k) as nat) - 1 == 258,
{
    lemma2_to64();
    if k == 257 {
    } else if k == 258 {
    } else if k == 259 {
    } else if k == 260 {
    } else if k == 261 {
    } else if k == 262 {
    } else if k == 263 {
    } else if k == 264 {
    } else if k == 265 {
        assert((((k - 261) / 4) as nat) == 1nat);
        assert(pow2(1nat) * 4 + 3 == 11);
    } else if k == 266 {
        assert((((k - 261) / 4) as nat) == 1nat);
        assert(pow2(1nat) * 5 + 3 == 13);
    } else if k == 267 {
        assert((((k - 261) / 4) as nat) == 1nat);
        assert(pow2(1nat) * 6 + 3 == 15);
    } else if k == 268 {
        assert((((k - 261) / 4) as nat) == 1nat);
        assert(pow2(1nat) * 7 + 3 == 17);
    } else if k == 269 {
        assert((((k - 261) / 4) as nat) == 2nat);
        assert(pow2(2nat) * 4 + 3 == 19);
    } else if k == 270 {
        assert((((k - 261) / 4) as nat) == 2nat);
        assert(pow2(2nat) * 5 + 3 == 23);
    } else if k == 271 {
        assert((((k - 261) / 4) as nat) == 2nat);
        assert(pow2(2nat) * 6 + 3 == 27);
    } else if k == 272 {
        assert((((k - 261) / 4) as nat) == 2nat);
        assert(pow2(2nat) * 7 + 3 == 31);
    } else if k == 273 {
        assert((((k - 261) / 4) as nat) == 3nat);
        assert(pow2(3nat) * 4 + 3 == 35);
    } else if k == 274 {
        assert((((k - 261) / 4) as nat) == 3nat);
        assert(pow2(3nat) * 5 + 3 == 43);
    } else if k == 275 {
        assert((((k - 261) / 4) as nat) == 3nat);
        assert(pow2(3nat) * 6 + 3 == 51);
    } else if k == 276 {
        assert((((k - 261) / 4) as nat) == 3nat);
        assert(pow2(3nat) * 7 + 3 == 59);
    } else if k == 277 {
        assert((((k - 261) / 4) as nat) == 4nat);
        assert(pow2(4nat) * 4 + 3 == 67);
    } else if k == 278 {
        assert((((k - 261) / 4) as nat) == 4nat);
        assert(pow2(4nat) * 5 + 3 == 83);
    } else if k == 279 {
        assert((((k - 261) / 4) as nat) == 4nat);
        assert(pow2(4nat) * 6 + 3 == 99);
    } else if k == 280 {
        assert((((k - 261) / 4) as nat) == 4nat);
        assert(pow2(4nat) * 7 + 3 == 115);
    } else if k == 281 {
        assert((((k - 261) / 4) as nat) == 5nat);
        assert(pow2(5nat) * 4 + 3 == 131);
    } else if k == 282 {
        assert((((k - 261) / 4) as nat) == 5nat);
        assert(pow2(5nat) * 5 + 3 == 163);
    } else if k == 283 {
        assert((((k - 261) / 4) as nat) == 5nat);
        assert(pow2(5nat) * 6 + 3 == 195);
    } else if k == 284 {
        assert((((k - 261) / 4) as nat) == 5nat);
        assert(pow2(5nat) * 7 + 3 == 227);
    } else if k == 285 {
    }
}

/// The distance code lengths a dynamic header ends up with: a single unused
/// code means no distance code at all, and a single code of one bit is
/// completed with an unused second one.
pub open spec fn final_distance_lens(d: Seq<usize>) -> Seq<usize> {
    if d.len() == 1 && d[0] == 0 {
        Seq::empty()
    } else if count_below(d, d.len() as int, 1) == 1 && count_below(d, d.len() as int, 0) + 1
        == d.len() {
        (d + Seq::new((32 - d.len()) as nat, |i: int| 0usize)).update(31, 1usize)
    } else {
        d
    }
}

/// Decodes the code lengths of a dynamic header with the code length code
/// `clens`, appending to `acc` until `n_total` lengths are known. Returns them
/// with the position after the last one.
pub open spec fn read_lengths(
    data: Seq<u8>,
    pos: int,
    clens: Seq<usize>,
    n_total: nat,
    acc: Seq<usize>,
) -> Result<(Seq<usize>, int), ArchiveError>
    decreases n_total - acc.len(),
{
    if acc.len() >= n_total {
        Ok((acc, pos))
    } else {
        match decode_spec(data, pos, clens) {
            Err(e) => Err(e),
            Ok(sym) => {
                let p1 = pos + clens[sym as int];
                if sym < 16 {
                    read_lengths(data, p1, clens, n_total, acc.push(sym as usize))
                } else if sym == 16 && acc.len() == 0 {
                    Err(ArchiveError::NoCodeLengthToRepeat)
                } else {
                    let ext: int = if sym == 16 {
                        2
                    } else if sym == 17 {
                        3
                    } else {
                        7
                    };
                    let base: int = if sym == 18 {
                        11
                    } else {
                        3
                    };
                    if p1 + ext > total_bits(data) {
                        Err(ArchiveError::UnexpectedEof)
                    } else {
                        let rep = base + bits_value(data, p1, ext as nat);
                        let v: usize = if sym == 16 {
                            acc.last()
                        } else {
                            0
                        };
                        if acc.len() + rep > n_total {
                            Err(ArchiveError::TooManyCodeLengths)
                        } else {
                            read_lengths(
                                data,
                                p1 + ext,
                                clens,
                                n_total,
                                acc + Seq::new(rep as nat, |i: int| v),
                            )
                        }
                    }
                }
            },
        }
    }
}

/// Reads a dynamic Huffman block header (RFC 1951, 3.2.7) from `pos` on:
/// the literal/length and distance code lengths and the position after them.
#[verifier::opaque]
pub open spec fn dynamic_header(data: Seq<u8>, pos: int) -> Result<
    (Seq<usize>, Seq<usize>, int),
    ArchiveError,
> {
    if pos + 14 > total_bits(data) {
        Err(ArchiveError::UnexpectedEof)
    } else {
        let n_lit = bits_value(data, pos, 5) + 257;
        let n_dist = bits_value(data, pos + 5, 5) + 1;
        let n_clen = bits_value(data, pos + 10, 4) + 4;
        let p = pos + 14;
        if p + 3 * n_clen > total_bits(data) {
            Err(ArchiveError::UnexpectedEof)
        } else {
            let clens = code_length_lens(data, p, n_clen as int);
            if !valid_code_lengths(clens) {
                Err(ArchiveError::OverSubscribedCodes)
            } else {
                match read_lengths(data, p + 3 * n_clen, clens, (n_lit + n_dist) as nat, seq![]) {
                    Err(e) => Err(e),
                    Ok((all, p2)) => {
                        let lit = all.subrange(0, n_lit as int);
                        let dist = final_distance_lens(all.subrange(n_lit as int, all.len() as int));
                        if !valid_code_lengths(lit) || !valid_code_lengths(dist) {
                            Err(ArchiveError::OverSubscribedCodes)
                        } else {
                            Ok((lit, dist, p2))
                        }
                    },
                }
            }
        }
    }
}

/// Reads the length fields of a stored block (RFC 1951, 3.2.4) from `pos`
/// on: the block's length and the position after the fields.
pub open spec fn stored_header(data: Seq<u8>, pos: int) -> Result<(nat, int), ArchiveError> {
    let a = align_up(pos);
    if a + 32 > total_bits(data) {
        Err(ArchiveError::UnexpectedEof)
    } else {
        let i = a / 8;
        let len = data[i] + 256 * data[i + 1];
        let nlen = data[i + 2] + 256 * data[i + 3];
        if len + nlen != 65535 {
            Err(ArchiveError::LenNlenMismatch)
        } else {
            Ok((len as nat, a + 32))
        }
    }
}

/// Where the decoding of a DEFLATE stream stands.
pub enum Phase {
    /// Between blocks: a block header comes next.
    Header,
    /// Inside a stored block with `remaining` bytes left.
    Stored { remaining: nat },
    /// Inside a Huffman-coded block, before a symbol.
    Codes { lit: Seq<usize>, dist: Seq<usize> },
    /// Inside a Huffman-coded block, copying `len` more bytes from `back`
    /// bytes back.
    Copy { lit: Seq<usize>, dist: Seq<usize>, len: nat, back: nat },
    /// After the last block.
    Done,
}

/// The decoding state: the bit position, whether the current block is the
/// last one, and the phase.
pub struct DecodeState {
    pub pos: int,
    pub last: bool,
    pub phase: Phase,
}

/// The outcome of one decoding step.
pub enum Step {
    /// A new state, without output.
    Next(DecodeState),
    /// A new state and one byte of output.
    Emit(DecodeState, u8),
    /// The stream has ended.
    Finish,
    /// The stream is malformed or truncated.
    Fail(ArchiveError),
}

/// The state after a block has ended at `pos`.
pub open spec fn block_end(pos: int, last: bool) -> DecodeState {
    DecodeState {
        pos,
        last,
        phase: if last {
            Phase::Done
        } else {
            Phase::Header
        },
    }
}

/// Reads a block header (RFC 1951, 3.2.3) at `pos`.
#[verifier::opaque]
pub open spec fn header_step(data: Seq<u8>, pos: int) -> Step {
    if pos + 3 > total_bits(data) {
        Step::Fail(ArchiveError::UnexpectedEof)
    } else {
        let last = bit_at(data, pos) == 1;
        let btype = bits_value(data, pos + 1, 2);
        if btype == 0 {
            match stored_header(data, pos + 3) {
                Err(e) => Step::Fail(e),
                Ok((len, p)) => Step::Next(
                    DecodeState { pos: p, last, phase: Phase::Stored { remaining: len } },
                ),
            }
        } else if btype == 1 {
            Step::Next(
                DecodeState {
                    pos: pos + 3,
                    last,
                    phase: Phase::Codes { lit: fixed_lit_lens(), dist: fixed_dist_lens() },
                },
            )
        } else if btype == 2 {
            match dynamic_header(data, pos + 3) {
                Err(e) => Step::Fail(e),
                Ok((lit, dist, p)) => Step::Next(
                    DecodeState { pos: p, last, phase: Phase::Codes { lit, dist } },
                ),
            }
        } else {
            Step::Fail(ArchiveError::InvalidBlockType)
        }
    }
}

/// Decodes one symbol of a Huffman-coded block at `pos`: a literal byte, the
/// end of the block, or a length and distance pair.
#[verifier::opaque]
pub open spec fn codes_step(
    data: Seq<u8>,
    pos: int,
    last: bool,
    lit: Seq<usize>,
    dist: Seq<usize>,
) -> Step {
    match decode_spec(data, pos, lit) {
        Err(e) => Step::Fail(e),
        Ok(sym) => {
            let p1 = pos + lit[sym as int];
            if sym < 256 {
                Step::Emit(DecodeState { pos: p1, last, phase: Phase::Codes { lit, dist } }, sym as u8)
            } else if sym == 256 {
                Step::Next(block_end(p1, last))
            } else if sym > 285 {
                Step::Fail(ArchiveError::InvalidLengthSymbol)
            } else if p1 + length_extra(sym as int) > total_bits(data) {
                Step::Fail(ArchiveError::UnexpectedEof)
            } else {
                let len = length_base(sym as int) + bits_value(
                    data,
                    p1,
                    length_extra(sym as int) as nat,
                );
                let p2 = p1 + length_extra(sym as int);
                match decode_spec(data, p2, dist) {
                    Err(e) => Step::Fail(e),
                    Ok(ds) => {
                        let p3 = p2 + dist[ds as int];
                        if ds > 29 {
                            Step::Fail(ArchiveError::InvalidDistanceSymbol)
                        } else if p3 + distance_extra(ds as int) > total_bits(data) {
                            Step::Fail(ArchiveError::UnexpectedEof)
                        } else {
                            let back = distance_base(ds as int) + bits_value(
                                data,
                                p3,
                                distance_extra(ds as int) as nat,
                            );
                            Step::Next(
                                DecodeState {
                                    pos: p3 + distance_extra(ds as int),
                                    last,
                                    phase: Phase::Copy {
                                        lit,
                                        dist,
                                        len: len as nat,
                                        back: back as nat,
                                    },
                                },
                            )
                        }
                    },
                }
            }
        },
    }
}

/// One decoding step from state `st`, with `out` the output so far.
pub open spec fn step(data: Seq<u8>, st: DecodeState, out: Seq<u8>) -> Step {
    match st.phase {
        Phase::Done => Step::Finish,
        Phase::Header => header_step(data, st.pos),
        Phase::Stored { remaining } => {
            if remaining == 0 {
                Step::Next(block_end(st.pos, st.last))
            } else {
                let a = align_up(st.pos);
                if a + 8 > total_bits(data) {
                    Step::Fail(ArchiveError::UnexpectedEof)
                } else {
                    Step::Emit(
                        DecodeState {
                            pos: a + 8,
                            last: st.last,
                            phase: Phase::Stored { remaining: (remaining - 1) as nat },
                        },
                        data[a / 8],
                    )
                }
            }
        },
        Phase::Codes { lit, dist } => codes_step(data, st.pos, st.last, lit, dist),
        Phase::Copy { lit, dist, len, back } => {
            let next = if len <= 1 {
                Phase::Codes { lit, dist }
            } else {
                Phase::Copy { lit, dist, len: (len - 1) as nat, back }
            };
            let st2 = DecodeState { pos: st.pos, last: st.last, phase: next };
            if len == 0 {
                Step::Next(st2)
            } else if back > out.len() {
                Step::Fail(ArchiveError::DistanceTooFarBack)
            } else {
                Step::Emit(st2, history_byte(out, back as int))
            }
        },
    }
}

/// Orders the phases so that every step that reads no bits goes down.
pub open spec fn phase_rank(p: Phase) -> int {
    match p {
        Phase::Done => 0,
        Phase::Header => 1,
        Phase::Stored { .. } => 2,
        Phase::Codes { .. } => 2,
        Phase::Copy { len, .. } => 3 + len as int,
    }
}

/// A measure that every decoding step lowers.
pub open spec fn measure(data: Seq<u8>, st: DecodeState) -> int {
    (total_bits(data) - st.pos) * 512 + phase_rank(st.phase)
}

/// The state is one that the decoding reaches.
pub open spec fn state_ok(data: Seq<u8>, st: DecodeState) -> bool {
    &&& 0 <= st.pos <= total_bits(data)
    &&& match st.phase {
        Phase::Codes { lit, dist } => lit.len() <= 288 && dist.len() <= 288,
        Phase::Copy { lit, dist, len, back } => {
            &&& lit.len() <= 288
            &&& dist.len() <= 288
            &&& len <= 258
            &&& 1 <= back <= 32768
        },
        _ => true,
    }
}

/// Decodes from state `st` on to the end of the stream, appending to `out`.
/// Returns the whole output and whether the stream ended properly.
#[verifier::opaque]
pub open spec fn run(data: Seq<u8>, st: DecodeState, out: Seq<u8>) -> (Seq<u8>, Result<(), ArchiveError>)
    decreases measure(data, st),
{
    if !state_ok(data, st) || measure(data, st) < 0 {
        (out, Ok(()))
    } else {
        match step(data, st, out) {
            Step::Finish => (out, Ok(())),
            Step::Fail(e) => (out, Err(e)),
            Step::Next(s2) => {
                if state_ok(data, s2) && 0 <= measure(data, s2) < measure(data, st) {
                    run(data, s2, out)
                } else {
                    (out, Ok(()))
                }
            },
            Step::Emit(s2, b) => {
                if state_ok(data, s2) && 0 <= measure(data, s2) < measure(data, st) {
                    run(data, s2, out.push(b))
                } else {
                    (out, Ok(()))
                }
            },
        }
    }
}

/// The state at the start of a stream.
pub open spec fn initial_state() -> DecodeState {
    DecodeState { pos: 0, last: false, phase: Phase::Header }
}

/// What a DEFLATE stream decodes to: its output, and whether the stream is
/// complete and well-formed or why not. The output of a bad stream is what
/// was decoded before the fault.
pub open spec fn inflate_spec(data: Seq<u8>) -> (Seq<u8>, Result<(), ArchiveError>) {
    run(data, initial_state(), Seq::empty())
}

/// A decoded symbol is one of the code's symbols, its code is at least one bit
/// long, and it lies inside the stream.
pub proof fn lemma_decode_ok(data: Seq<u8>, pos: int, lens: Seq<usize>)
    requires
        lens.len() <= 288,
        decode_spec(data, pos, lens) is Ok,
    ensures
        ({
            let s = decode_spec(data, pos, lens)->Ok_0 as int;
            &&& 0 <= s < lens.len()
            &&& lens[s] >= 1
            &&& pos + lens[s] <= total_bits(data)
        }),
{
    let s = choose|s: int| matches_at(data, pos, lens, s);
    assert(matches_at(data, pos, lens, s));
    assert((s as u16) as int == s);
}

/// The base values of lengths and distances stay in their ranges.
proof fn lemma_offsets_bounds()
    ensures
        forall|k: int| 0 <= k < 20 ==> 11 <= #[trigger] length_offsets()[k] <= 227,
        forall|k: int| 0 <= k < 26 ==> 5 <= #[trigger] distance_offsets()[k] <= 24577,
{
}

/// A length symbol with its extra bits gives a length of at most 258.
pub proof fn lemma_length_bound(data: Seq<u8>, pos: int, sym: int)
    requires
        257 <= sym <= 285,
    ensures
        0 <= length_extra(sym) <= 5,
        3 <= length_base(sym) + bits_value(data, pos, length_extra(sym) as nat) <= 258,
{
    lemma_offsets_bounds();
    lemma2_to64();
    let e = length_extra(sym);
    crate::bits::lemma_bits_value_bound(data, pos, e as nat);
    if e < 5 {
        lemma_pow2_strictly_increases(e as nat, 5);
    }
    if sym <= 264 || sym == 285 {
        assert(e == 0);
    }
}

/// A distance symbol with its extra bits gives a distance from 1 to 32768.
pub proof fn lemma_distance_bound(data: Seq<u8>, pos: int, sym: int)
    requires
        0 <= sym <= 29,
    ensures
        0 <= distance_extra(sym) <= 13,
        1 <= distance_base(sym) + bits_value(data, pos, distance_extra(sym) as nat) <= 32768,
{
    lemma_offsets_bounds();
    lemma2_to64();
    let e = distance_extra(sym);
    crate::bits::lemma_bits_value_bound(data, pos, e as nat);
    if e < 13 {
        lemma_pow2_strictly_increases(e as nat, 13);
    }
}

/// The code lengths of a dynamic header fit the literal/length and distance
/// alphabets.
proof fn lemma_dynamic_lens(data: Seq<u8>, pos: int)
    requires
        dynamic_header(data, pos) is Ok,
    ensures
        ({
            let (lit, dist, p) = dynamic_header(data, pos)->Ok_0;
            &&& lit.len() <= 288
            &&& dist.len() <= 288
            &&& pos < p <= total_bits(data)
        }),
{
    reveal(dynamic_header);
    let n_lit = bits_value(data, pos, 5) + 257;
    let n_dist = bits_value(data, pos + 5, 5) + 1;
    let n_clen = bits_value(data, pos + 10, 4) + 4;
    let p = pos + 14;
    let clens = code_length_lens(data, p, n_clen as int);
    crate::bits::lemma_bits_value_bound(data, pos, 5);
    crate::bits::lemma_bits_value_bound(data, pos + 5, 5);
    lemma2_to64();
    lemma_read_lengths(data, p + 3 * n_clen, clens, (n_lit + n_dist) as nat, seq![]);
    let (all, p2) = read_lengths(data, p + 3 * n_clen, clens, (n_lit + n_dist) as nat, seq![])->Ok_0;
    let d = all.subrange(n_lit as int, all.len() as int);
    assert(d.len() <= 32);
    assert(final_distance_lens(d).len() <= 32);
}

/// Reading code lengths moves forward in the stream, stays inside it and
/// yields exactly the number of lengths asked for.
pub proof fn lemma_read_lengths(
    data: Seq<u8>,
    pos: int,
    clens: Seq<usize>,
    n_total: nat,
    acc: Seq<usize>,
)
    requires
        clens.len() <= 288,
        pos <= total_bits(data),
        acc.len() <= n_total,
    ensures
        read_lengths(data, pos, clens, n_total, acc) matches Ok((all, p)) ==> {
            &&& all.len() == n_total
            &&& pos <= p <= total_bits(data)
            &&& all.subrange(0, acc.len() as int) == acc
            &&& (acc.len() < n_total ==> pos < p)
        },
    decreases n_total - acc.len(),
{
    if acc.len() < n_total {
        if let Ok(sym) = decode_spec(data, pos, clens) {
            lemma_decode_ok(data, pos, clens);
            let p1 = pos + clens[sym as int];
            if sym < 16 {
                lemma_read_lengths(data, p1, clens, n_total, acc.push(sym as usize));
                if let Ok((all, p)) = read_lengths(data, p1, clens, n_total, acc.push(sym as usize)) {
                    assert(all.subrange(0, acc.len() as int) =~= all.subrange(0, acc.len() as int + 1).subrange(0, acc.len() as int));
                }
            } else if !(sym == 16 && acc.len() == 0) {
                let ext: int = if sym == 16 {
                    2
                } else if sym == 17 {
                    3
                } else {
                    7
                };
                let base: int = if sym == 18 {
                    11
                } else {
                    3
                };
                if p1 + ext <= total_bits(data) {
                    let rep = base + bits_value(data, p1, ext as nat);
                    let v: usize = if sym == 16 {
                        acc.last()
                    } else {
                        0
                    };
                    if acc.len() + rep <= n_total {
                        let acc2 = acc + Seq::new(rep as nat, |i: int| v);
                        lemma_read_lengths(data, p1 + ext, clens, n_total, acc2);
                        if let Ok((all, p)) = read_lengths(data, p1 + ext, clens, n_total, acc2) {
                            assert(all.subrange(0, acc.len() as int) =~= all.subrange(0, acc2.len() as int).subrange(0, acc.len() as int));
                        }
                    }
                }
            }
        }
    } else {
        assert(acc.subrange(0, acc.len() as int) =~= acc);
    }
}

/// Every decoding step from a reachable state leads to a reachable state and
/// lowers the measure.
pub proof fn lemma_step_ok(data: Seq<u8>, st: DecodeState, out: Seq<u8>)
    requires
        state_ok(data, st),
    ensures
        step(data, st, out) matches Step::Next(s2) ==> state_ok(data, s2) && 0 <= measure(data, s2) < measure(data, st),
        step(data, st, out) matches Step::Emit(s2, b) ==> state_ok(data, s2) && 0 <= measure(data, s2) < measure(data, st),
{
    reveal(header_step);
    reveal(codes_step);
    match st.phase {
        Phase::Header => {
            let pos = st.pos;
            if pos + 3 <= total_bits(data) {
                let btype = bits_value(data, pos + 1, 2);
                if btype == 2 {
                    if dynamic_header(data, pos + 3) is Ok {
                        lemma_dynamic_lens(data, pos + 3);
                    }
                }
            }
        },
        Phase::Codes { lit, dist } => {
            let pos = st.pos;
            if decode_spec(data, pos, lit) is Ok {
                lemma_decode_ok(data, pos, lit);
                let sym = decode_spec(data, pos, lit)->Ok_0;
                let p1 = pos + lit[sym as int];
                if 257 <= sym <= 285 {
                    lemma_length_bound(data, p1, sym as int);
                    let p2 = p1 + length_extra(sym as int);
                    if p2 <= total_bits(data) && decode_spec(data, p2, dist) is Ok {
                        lemma_decode_ok(data, p2, dist);
                        let ds = decode_spec(data, p2, dist)->Ok_0;
                        let p3 = p2 + dist[ds as int];
                        if ds <= 29 {
                            lemma_distance_bound(data, p3, ds as int);
                        }
                    }
                }
            }
        },
        _ => {},
    }
}

/// Unfolds the decoding by one step.
pub proof fn lemma_run_unfold(data: Seq<u8>, st: DecodeState, out: Seq<u8>)
    requires
        state_ok(data, st),
    ensures
        run(data, st, out) == match step(data, st, out) {
            Step::Finish => (out, Ok::<(), ArchiveError>(())),
            Step::Fail(e) => (out, Err::<(), ArchiveError>(e)),
            Step::Next(s2) => run(data, s2, out),
            Step::Emit(s2, b) => run(data, s2, out.push(b)),
        },
{
    reveal(run);
    lemma_step_ok(data, st, out);
}

/// The decoding only ever appends to the output it starts from.
pub proof fn lemma_run_prefix(data: Seq<u8>, st: DecodeState, out: Seq<u8>)
    ensures
        out.len() <= run(data, st, out).0.len(),
        run(data, st, out).0.subrange(0, out.len() as int) == out,
    decreases measure(data, st),
{
    reveal(run);
    if state_ok(data, st) && measure(data, st) >= 0 {
        lemma_step_ok(data, st, out);
        match step(data, st, out) {
            Step::Next(s2) => {
                lemma_run_prefix(data, s2, out);
            },
            Step::Emit(s2, b) => {
                lemma_run_prefix(data, s2, out.push(b));
                let all = run(data, s2, out.push(b)).0;
                assert(all.subrange(0, out.len() as int) =~= all.subrange(0, out.len() as int + 1).subrange(0, out.len() as int));
            },
            _ => {
                assert(out.subrange(0, out.len() as int) =~= out);
            },
        }
    } else {
        assert(out.subrange(0, out.len() as int) =~= out);
    }
}

/// Counting over a run of equal code lengths.
proof fn lemma_count_segment(s: Seq<usize>, lo: int, hi: int, b: int, v: usize)
    requires
        0 <= lo <= hi <= s.len(),
        forall|i: int| lo <= i < hi ==> s[i] == v,
    ensures
        count_below(s, hi, b) == count_below(s, lo, b) + if v == b {
            hi - lo
        } else {
            0
        },
    decreases hi - lo,
{
    if lo < hi {
        lemma_count_segment(s, lo, hi - 1, b, v);
    }
}

/// The fixed literal/length code lengths are valid.
pub proof fn lemma_fixed_lit_valid()
    ensures
        valid_code_lengths(fixed_lit_lens()),
{
    let f = fixed_lit_lens();
    assert forall|b: int| 1 <= b <= 15 implies #[trigger] length_count(f, b) == if b == 7 {
        24int
    } else if b == 8 {
        152
    } else if b == 9 {
        112
    } else {
        0
    } by {
        lemma_count_segment(f, 0, 144, b, 8);
        lemma_count_segment(f, 144, 256, b, 9);
        lemma_count_segment(f, 256, 280, b, 7);
        lemma_count_segment(f, 280, 288, b, 8);
    }
    lemma2_to64();
    assert(first_code(f, 1) == 0);
    assert(first_code(f, 2) == 2 * (first_code(f, 1) + length_count(f, 1)));
    assert(first_code(f, 3) == 2 * (first_code(f, 2) + length_count(f, 2)));
    assert(first_code(f, 4) == 2 * (first_code(f, 3) + length_count(f, 3)));
    assert(first_code(f, 5) == 2 * (first_code(f, 4) + length_count(f, 4)));
    assert(first_code(f, 6) == 2 * (first_code(f, 5) + length_count(f, 5)));
    assert(first_code(f, 7) == 2 * (first_code(f, 6) + length_count(f, 6)));
    assert(first_code(f, 8) == 2 * (first_code(f, 7) + length_count(f, 7)));
    assert(first_code(f, 9) == 2 * (first_code(f, 8) + length_count(f, 8)));
    assert(first_code(f, 10) == 2 * (first_code(f, 9) + length_count(f, 9)));
    assert(first_code(f, 11) == 2 * (first_code(f, 10) + length_count(f, 10)));
    assert(first_code(f, 12) == 2 * (first_code(f, 11) + length_count(f, 11)));
    assert(first_code(f, 13) == 2 * (first_code(f, 12) + length_count(f, 12)));
    assert(first_code(f, 14) == 2 * (first_code(f, 13) + length_count(f, 13)));
    assert(first_code(f, 15) == 2 * (first_code(f, 14) + length_count(f, 14)));
    assert forall|b: int| 1 <= b <= 15 implies first_code(f, b) + length_count(f, b) <= pow2(
        b as nat,
    ) by {
        assert(length_count(f, b) == length_count(f, b));
    }
}

/// The fixed distance code lengths are valid.
pub proof fn lemma_fixed_dist_valid()
    ensures
        valid_code_lengths(fixed_dist_lens()),
{
    let f = fixed_dist_lens();
    assert forall|b: int| 1 <= b <= 15 implies #[trigger] length_count(f, b) == if b == 5 {
        32int
    } else {
        0
    } by {
        lemma_count_segment(f, 0, 32, b, 5);
    }
    lemma2_to64();
    assert(first_code(f, 1) == 0);
    assert(first_code(f, 2) == 2 * (first_code(f, 1) + length_count(f, 1)));
    assert(first_code(f, 3) == 2 * (first_code(f, 2) + length_count(f, 2)));
    assert(first_code(f, 4) == 2 * (first_code(f, 3) + length_count(f, 3)));
    assert(first_code(f, 5) == 2 * (first_code(f, 4) + length_count(f, 4)));
    assert(first_code(f, 6) == 2 * (first_code(f, 5) + length_count(f, 5)));
    assert(first_code(f, 7) == 2 * (first_code(f, 6) + length_count(f, 6)));
    assert(first_code(f, 8) == 2 * (first_code(f, 7) + length_count(f, 7)));
    assert(first_code(f, 9) == 2 * (first_code(f, 8) + length_count(f, 8)));
    assert(first_code(f, 10) == 2 * (first_code(f, 9) + length_count(f, 9)));
    assert(first_code(f, 11) == 2 * (first_code(f, 10) + length_count(f, 10)));
    assert(first_code(f, 12) == 2 * (first_code(f, 11) + length_count(f, 11)));
    assert(first_code(f, 13) == 2 * (first_code(f, 12) + length_count(f, 12)));
    assert(first_code(f, 14) == 2 * (first_code(f, 13) + length_count(f, 13)));
    assert(first_code(f, 15) == 2 * (first_code(f, 14) + length_count(f, 14)));
    assert forall|b: int| 1 <= b <= 15 implies first_code(f, b) + length_count(f, b) <= pow2(
        b as nat,
    ) by {
        assert(length_count(f, b) == length_count(f, b));
    }
}

/// A DEFLATE stream of one final stored block holding `payload`.
pub open spec fn stored_stream(payload: Seq<u8>) -> Seq<u8> {
    let n = payload.len();
    let lo = (n % 256) as u8;
    let hi = (n / 256) as u8;
    seq![1u8, lo, hi, (255 - lo) as u8, (255 - hi) as u8] + payload
}

/// The bytes of a stored block come out as they are, one step at a time.
proof fn lemma_stored_steps(payload: Seq<u8>, k: nat)
    requires
        payload.len() < 65536,
        k <= payload.len(),
    ensures
        run(
            stored_stream(payload),
            DecodeState {
                pos: 40 + 8 * k as int,
                last: true,
                phase: Phase::Stored { remaining: (payload.len() - k) as nat },
            },
            payload.subrange(0, k as int),
        ) == (payload, Ok::<(), ArchiveError>(())),
    decreases payload.len() - k,
{
    let data = stored_stream(payload);
    let n = payload.len();
    let st = DecodeState {
        pos: 40 + 8 * k as int,
        last: true,
        phase: Phase::Stored { remaining: (n - k) as nat },
    };
    let out = payload.subrange(0, k as int);
    lemma_run_unfold(data, st, out);
    if k == n {
        let done = block_end(st.pos, true);
        lemma_run_unfold(data, done, out);
        assert(out =~= payload);
    } else {
        let a = align_up(st.pos);
        assert(a == st.pos) by {
            assert((40 + 8 * k) % 8 == 0) by (nonlinear_arith);
        }
        assert(a / 8 == 5 + k) by (nonlinear_arith)
            requires
                a == 40 + 8 * k,
        ;
        assert(data[a / 8] == payload[k as int]);
        lemma_stored_steps(payload, k + 1);
        assert(out.push(payload[k as int]) =~= payload.subrange(0, k as int + 1));
        assert(40 + 8 * (k + 1) == a + 8);
    }
}

/// A stored block gives back exactly the bytes it holds: the stream made of
/// one final stored block decodes, without error, to its payload.
pub proof fn lemma_stored_block_round_trip(payload: Seq<u8>)
    requires
        payload.len() < 65536,
    ensures
        inflate_spec(stored_stream(payload)) == (payload, Ok::<(), ArchiveError>(())),
{
    reveal(header_step);
    let data = stored_stream(payload);
    let n = payload.len();
    let lo = (n % 256) as u8;
    let hi = (n / 256) as u8;
    assert(data[0] == 1u8);
    assert(data[1] == lo);
    assert(data[2] == hi);
    assert(data[3] == (255 - lo) as u8);
    assert(data[4] == (255 - hi) as u8);
    assert((1u8 >> 0u8) & 1u8 == 1u8) by (bit_vector);
    assert((1u8 >> 1u8) & 1u8 == 0u8) by (bit_vector);
    assert((1u8 >> 2u8) & 1u8 == 0u8) by (bit_vector);
    assert(bit_at(data, 0) == 1);
    assert(bit_at(data, 1) == 0);
    assert(bit_at(data, 2) == 0);
    lemma2_to64();
    assert(bits_value(data, 1, 0) == 0);
    assert(bits_value(data, 1, 1) == bits_value(data, 1, 0) + (bit_at(data, 1) as nat) * pow2(0));
    assert(bits_value(data, 1, 1) == 0);
    assert(bits_value(data, 1, 2) == bits_value(data, 1, 1) + (bit_at(data, 2) as nat) * pow2(1));
    assert(bits_value(data, 1, 2) == 0);
    assert(align_up(3) == 8);
    assert(lo + 256 * hi == n);
    assert(stored_header(data, 3) == Ok::<(nat, int), ArchiveError>((n, 40)));
    lemma_run_unfold(data, initial_state(), Seq::empty());
    lemma_stored_steps(payload, 0);
    assert(payload.subrange(0, 0) =~= Seq::<u8>::empty());
}

} // verus!
