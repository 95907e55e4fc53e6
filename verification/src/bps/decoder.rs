//! The decoder: from the bytes of a patch to its blocks.

use crate::bps::block::{blocks_view, BPSBlock, Block};
use crate::bps::error::FormatError;
use crate::bps::format::{
    after_blocks, lemma_read_block_span, magic, read_block, read_blocks, read_patch_parts,
    signed_offset, Cursors, TRAILER_LEN,
};
use crate::bps::number::{pow128, read_groups, read_number, MAX_GROUPS};
use vstd::prelude::*;

verus! {

/// Reads a patch front to back. It holds the bytes, a position in them, the
/// three cursors of the block records, and the blocks read so far.
pub struct BPSPatchDecoder {
    patch_bytes: Vec<u8>,
    patch_pos: usize,
    output_pos: usize,
    src_pos: usize,
    dst_pos: usize,
    blocks: Vec<BPSBlock>,
}

/// What a decoder holds, as a mathematical value.
pub struct DecoderState {
    /// The bytes of the patch.
    pub bytes: Seq<u8>,
    /// Position of the next byte to read.
    pub patch_pos: int,
    /// The cursors of the block records.
    pub cursors: Cursors,
    /// The blocks read so far.
    pub blocks: Seq<Block>,
}

impl DecoderState {
    /// The state of a decoder that has read nothing of `bytes` yet.
    pub open spec fn start(bytes: Seq<u8>) -> DecoderState {
        DecoderState { bytes, patch_pos: 0, cursors: Cursors::start(), blocks: Seq::empty() }
    }

    /// This state with the position moved to `patch_pos`.
    pub open spec fn at(self, patch_pos: int) -> DecoderState {
        DecoderState { patch_pos, ..self }
    }
}

/// The value read so far, `low`, joined with what the remaining groups give:
/// they count from the weight `shift` on.
pub open spec fn join_groups(low: nat, shift: nat, rest: Result<(nat, int), FormatError>) -> Result<
    (nat, int),
    FormatError,
> {
    match rest {
        Ok((v, next)) => Ok((low + shift * v, next)),
        Err(e) => Err(e),
    }
}

impl View for BPSPatchDecoder {
    type V = DecoderState;

    closed spec fn view(&self) -> DecoderState {
        DecoderState {
            bytes: self.patch_bytes@,
            patch_pos: self.patch_pos as int,
            cursors: Cursors {
                output_pos: self.output_pos as int,
                src_pos: self.src_pos as int,
                dst_pos: self.dst_pos as int,
            },
            blocks: blocks_view(self.blocks@),
        }
    }
}

impl BPSPatchDecoder {
    /// A decoder at the start of `patch_bytes`.
    pub fn new(patch_bytes: Vec<u8>) -> (decoder: Self)
        ensures
            decoder@ == DecoderState::start(patch_bytes@),
    {
        let decoder = BPSPatchDecoder {
            patch_bytes,
            patch_pos: 0,
            output_pos: 0,
            src_pos: 0,
            dst_pos: 0,
            blocks: Vec::new(),
        };
        assert(decoder@.blocks =~= Seq::empty());
        decoder
    }

    /// Reads one byte and moves behind it, or fails at the end of the bytes
    /// and stays.
    pub fn read(&mut self) -> (r: Result<u8, FormatError>)
        ensures
            match r {
                Ok(x) => {
                    &&& 0 <= old(self)@.patch_pos < old(self)@.bytes.len()
                    &&& x == old(self)@.bytes[old(self)@.patch_pos]
                    &&& final(self)@ == old(self)@.at(old(self)@.patch_pos + 1)
                },
                Err(e) => {
                    &&& e == FormatError::Truncated
                    &&& old(self)@.patch_pos >= old(self)@.bytes.len()
                    &&& final(self)@ == old(self)@
                },
            },
    {
        if self.patch_pos >= self.patch_bytes.len() {
            return Err(FormatError::Truncated);
        }
        let x: u8 = self.patch_bytes[self.patch_pos];
        self.patch_pos += 1;
        Ok(x)
    }

    /// Reads the next `n` bytes and moves behind them, or fails where fewer
    /// are left and stays.
    pub fn read_n(&mut self, n: usize) -> (r: Result<Vec<u8>, FormatError>)
        ensures
            match r {
                Ok(out) => {
                    &&& 0 <= old(self)@.patch_pos
                    &&& old(self)@.patch_pos + n <= old(self)@.bytes.len()
                    &&& out@ == old(self)@.bytes.subrange(
                        old(self)@.patch_pos,
                        old(self)@.patch_pos + n,
                    )
                    &&& final(self)@ == old(self)@.at(old(self)@.patch_pos + n)
                },
                Err(e) => {
                    &&& e == FormatError::Truncated
                    &&& old(self)@.patch_pos + n > old(self)@.bytes.len()
                    &&& final(self)@ == old(self)@
                },
            },
    {
        let len: usize = self.patch_bytes.len();
        if self.patch_pos > len || n > len - self.patch_pos {
            return Err(FormatError::Truncated);
        }
        let mut out: Vec<u8> = Vec::new();
        let mut i: usize = 0;
        while i < n
            invariant
                i <= n,
                self.patch_pos + n <= self.patch_bytes.len(),
                out@ == self.patch_bytes@.subrange(self.patch_pos as int, self.patch_pos + i),
                *self == *old(self),
            decreases n - i,
        {
            out.push(self.patch_bytes[self.patch_pos + i]);
            i += 1;
            assert(out@ =~= self.patch_bytes@.subrange(self.patch_pos as int, self.patch_pos + i));
        }
        self.patch_pos += n;
        Ok(out)
    }

    /// Reads one number and moves behind it, or fails and stays.
    pub fn decode_number(&mut self) -> (r: Result<usize, FormatError>)
        ensures
            match r {
                Ok(v) => {
                    &&& read_number(old(self)@.bytes, old(self)@.patch_pos) == Ok::<
                        (usize, int),
                        FormatError,
                    >((v, final(self)@.patch_pos))
                    &&& final(self)@ == old(self)@.at(final(self)@.patch_pos)
                },
                Err(e) => {
                    &&& read_number(old(self)@.bytes, old(self)@.patch_pos) == Err::<
                        (usize, int),
                        FormatError,
                    >(e)
                    &&& final(self)@ == old(self)@
                },
            },
    {
        let start: usize = self.patch_pos;
        let mut out: u128 = 0;
        let mut shift: u128 = 1;
        let mut i: usize = 0;
        while i < MAX_GROUPS
            invariant
                i <= MAX_GROUPS,
                shift == pow128(i as nat),
                out < 3 * shift,
                self@ == old(self)@.at(start + i),
                start == old(self)@.patch_pos,
                join_groups(
                    out as nat,
                    shift as nat,
                    read_groups(self@.bytes, start + i, (MAX_GROUPS - i) as nat),
                ) == read_groups(self@.bytes, start as int, MAX_GROUPS as nat),
            decreases MAX_GROUPS - i,
        {
            proof {
                lemma_pow128_bound(i as nat);
            }
            let x: u8 = match self.read() {
                Ok(x) => x,
                Err(e) => {
                    self.patch_pos = start;
                    return Err(e);
                },
            };
            let low: u8 = x & 0x7f;
            assert(low == x % 128 && (x & 0x80 != 0 <==> x >= 128)) by (bit_vector)
                requires
                    low == x & 0x7f,
            ;
            assert(low * shift <= 127 * shift) by (nonlinear_arith)
                requires
                    low <= 127,
                    shift >= 0,
            ;
            let ghost before = out;
            out += (low as u128) * shift;
            if x & 0x80 != 0 {
                assert(before + shift * (x - 128) == out) by (nonlinear_arith)
                    requires
                        out == before + low * shift,
                        low == x - 128,
                ;
                if out > usize::MAX as u128 {
                    self.patch_pos = start;
                    return Err(FormatError::NumberTooLarge);
                }
                return Ok(out as usize);
            }
            let ghost weight = shift;
            assert(shift << 7 == shift * 128) by (bit_vector)
                requires
                    shift <= 0x40_0000_0000_0000_0000,
            ;
            shift <<= 7;
            out += shift;
            i += 1;
            proof {
                let rest = read_groups(self@.bytes, start + i, (MAX_GROUPS - i) as nat);
                if let Ok((v, next)) = rest {
                    assert(before + weight * (x + 128 * (v + 1)) == out + shift * v)
                        by (nonlinear_arith)
                        requires
                            out == before + x * weight + shift,
                            shift == weight * 128,
                    ;
                }
            }
        }
        self.patch_pos = start;
        Err(FormatError::UnterminatedNumber)
    }

    /// Reads one block record, moves behind it and moves the cursors as the
    /// record says, or fails and stays. The block is handed out, not kept.
    pub fn decode_block(&mut self) -> (r: Result<BPSBlock, FormatError>)
        ensures
            match r {
                Ok(block) => {
                    &&& read_block(old(self)@.bytes, old(self)@.patch_pos, old(self)@.cursors)
                        == Ok::<(Block, int, Cursors), FormatError>(
                        (block@, final(self)@.patch_pos, final(self)@.cursors),
                    )
                    &&& final(self)@.bytes == old(self)@.bytes
                    &&& final(self)@.blocks == old(self)@.blocks
                },
                Err(e) => {
                    &&& read_block(old(self)@.bytes, old(self)@.patch_pos, old(self)@.cursors)
                        == Err::<(Block, int, Cursors), FormatError>(e)
                    &&& final(self)@ == old(self)@
                },
            },
    {
        let start: usize = self.patch_pos;
        let command: usize = self.decode_number()?;
        let action: usize = command & 3;
        assert(action == command % 4 && command >> 2 == command / 4) by (bit_vector)
            requires
                action == command & 3,
        ;
        let length: usize = (command >> 2) + 1;
        let dst_start: usize = self.output_pos;
        if length > usize::MAX - dst_start {
            self.patch_pos = start;
            return Err(FormatError::CursorOutOfRange);
        }
        match action {
            0 => {
                self.output_pos += length;
                Ok(BPSBlock::Unchanged { dst_start, length })
            },
            1 => {
                let data: Vec<u8> = match self.read_n(length) {
                    Ok(data) => data,
                    Err(e) => {
                        self.patch_pos = start;
                        return Err(e);
                    },
                };
                self.output_pos += length;
                Ok(BPSBlock::Data { dst_start, data })
            },
            2 => {
                let raw: usize = match self.decode_number() {
                    Ok(raw) => raw,
                    Err(e) => {
                        self.patch_pos = start;
                        return Err(e);
                    },
                };
                let src_start: usize = match moved_cursor(self.src_pos, raw, length) {
                    Some(src_start) => src_start,
                    None => {
                        self.patch_pos = start;
                        return Err(FormatError::CursorOutOfRange);
                    },
                };
                self.src_pos = src_start + length;
                self.output_pos += length;
                Ok(BPSBlock::SourceCopy { src_start, dst_start, length })
            },
            _ => {
                let raw: usize = match self.decode_number() {
                    Ok(raw) => raw,
                    Err(e) => {
                        self.patch_pos = start;
                        return Err(e);
                    },
                };
                let src_start: usize = match moved_cursor(self.dst_pos, raw, length) {
                    Some(src_start) => src_start,
                    None => {
                        self.patch_pos = start;
                        return Err(FormatError::CursorOutOfRange);
                    },
                };
                self.dst_pos = src_start + length;
                self.output_pos += length;
                Ok(BPSBlock::TargetCopy { src_start, dst_start, length })
            },
        }
    }

    /// Reads a whole patch: the header, then block records up to the
    /// checksums, which are not verified. The blocks that change the
    /// destination are kept, in order.
    pub fn decode(&mut self) -> (r: Result<(), FormatError>)
        requires
            old(self)@ == DecoderState::start(old(self)@.bytes),
        ensures
            match r {
                Ok(()) => {
                    &&& read_patch_parts(old(self)@.bytes) == Ok::<
                        (Seq<Block>, Cursors),
                        FormatError,
                    >((final(self)@.blocks, final(self)@.cursors))
                    &&& final(self)@.bytes == old(self)@.bytes
                    &&& final(self)@.patch_pos == old(self)@.bytes.len() - TRAILER_LEN
                },
                Err(e) => {
                    &&& read_patch_parts(old(self)@.bytes) == Err::<
                        (Seq<Block>, Cursors),
                        FormatError,
                    >(e)
                    &&& final(self)@ == old(self)@
                },
            },
    {
        let head: Vec<u8> = self.read_n(4)?;
        if !(head[0] == 0x42 && head[1] == 0x50 && head[2] == 0x53 && head[3] == 0x31) {
            assert(head@ != magic());
            self.patch_pos = 0;
            return Err(FormatError::BadMagic);
        }
        assert(head@ =~= magic());
        let _source_size: usize = match self.decode_number() {
            Ok(size) => size,
            Err(e) => {
                self.patch_pos = 0;
                return Err(e);
            },
        };
        let _target_size: usize = match self.decode_number() {
            Ok(size) => size,
            Err(e) => {
                self.patch_pos = 0;
                return Err(e);
            },
        };
        let metadata_size: usize = match self.decode_number() {
            Ok(size) => size,
            Err(e) => {
                self.patch_pos = 0;
                return Err(e);
            },
        };
        let len: usize = self.patch_bytes.len();
        if len < TRAILER_LEN {
            self.patch_pos = 0;
            return Err(FormatError::Truncated);
        }
        let end: usize = len - TRAILER_LEN;
        if self.patch_pos > end || metadata_size > end - self.patch_pos {
            self.patch_pos = 0;
            return Err(FormatError::Misaligned);
        }
        self.patch_pos += metadata_size;
        let ghost first = self@.patch_pos;
        let mut blocks: Vec<BPSBlock> = Vec::new();
        assert(blocks_view(blocks@) =~= Seq::empty());
        while self.patch_pos < end
            invariant
                self@.bytes == old(self)@.bytes,
                self@.blocks == old(self)@.blocks,
                old(self)@ == DecoderState::start(old(self)@.bytes),
                end == self@.bytes.len() - TRAILER_LEN,
                self@.patch_pos <= self@.bytes.len(),
                read_patch_parts(self@.bytes) == read_blocks(
                    self@.bytes,
                    first,
                    end as int,
                    Cursors::start(),
                ),
                after_blocks(
                    blocks_view(blocks@),
                    read_blocks(self@.bytes, self@.patch_pos, end as int, self@.cursors),
                ) == read_blocks(self@.bytes, first, end as int, Cursors::start()),
            decreases self@.bytes.len() - self@.patch_pos,
        {
            let ghost before = self@;
            let block: BPSBlock = match self.decode_block() {
                Ok(block) => block,
                Err(e) => {
                    self.reset();
                    return Err(e);
                },
            };
            proof {
                lemma_read_block_span(before.bytes, before.patch_pos, before.cursors);
            }
            if let BPSBlock::Unchanged { .. } = block {
            } else {
                let ghost kept = blocks@;
                blocks.push(block);
                assert(blocks_view(blocks@) =~= blocks_view(kept).push(block@));
                proof {
                    let rest = read_blocks(self@.bytes, self@.patch_pos, end as int, self@.cursors);
                    if let Ok((tail, _)) = rest {
                        assert(blocks_view(kept) + (seq![block@] + tail) =~= blocks_view(blocks@)
                            + tail);
                    }
                }
            }
        }
        if self.patch_pos != end {
            self.reset();
            return Err(FormatError::Misaligned);
        }
        proof {
            assert(blocks_view(blocks@) + Seq::<Block>::empty() =~= blocks_view(blocks@));
        }
        self.blocks = blocks;
        Ok(())
    }

    /// Puts the position and the cursors back to the start.
    fn reset(&mut self)
        ensures
            final(self)@ == (DecoderState {
                patch_pos: 0,
                cursors: Cursors::start(),
                ..old(self)@
            }),
    {
        self.patch_pos = 0;
        self.output_pos = 0;
        self.src_pos = 0;
        self.dst_pos = 0;
    }

    /// Gives up the decoder for the blocks it has read.
    pub fn into_blocks(self) -> (blocks: Vec<BPSBlock>)
        ensures
            blocks_view(blocks@) == self@.blocks,
    {
        self.blocks
    }
}

/// The cursor `from` moved by the relative offset that `raw` stands for, where
/// a span of `length` bytes from there on can still be addressed.
fn moved_cursor(from: usize, raw: usize, length: usize) -> (r: Option<usize>)
    ensures
        match r {
            Some(to) => to == from + signed_offset(raw) && to + length <= usize::MAX,
            None => from + signed_offset(raw) < 0 || from + signed_offset(raw) + length
                > usize::MAX,
        },
{
    let negative: bool = raw & 1 == 1;
    let magnitude: usize = raw >> 1;
    assert((raw & 1 == 1 <==> raw % 2 == 1) && raw >> 1 == raw / 2) by (bit_vector);
    if negative {
        if magnitude > from {
            return None;
        }
        let to: usize = from - magnitude;
        if length > usize::MAX - to {
            return None;
        }
        Some(to)
    } else {
        if magnitude > usize::MAX - from {
            return None;
        }
        let to: usize = from + magnitude;
        if length > usize::MAX - to {
            return None;
        }
        Some(to)
    }
}

/// No weight within a number exceeds `128^10`.
proof fn lemma_pow128_bound(k: nat)
    requires
        k <= 10,
    ensures
        1 <= pow128(k) <= 0x40_0000_0000_0000_0000,
{
    reveal_with_fuel(pow128, 11);
}

} // verus!
