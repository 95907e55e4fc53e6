//! The encoder: from a target and the ranges of it that differ from the
//! source to a patch.
//!
//! The encoder writes only where the caller says the target differs, and it
//! copies from the source alone, never from bytes that the patch itself has
//! written. Patches made this way can be laid over one another as long as
//! their ranges do not meet.

use crate::bps::block::{blocks_view, BPSBlock, Block};
use crate::bps::checksum::{compute_crc32, crc32, le_bytes};
use crate::bps::format::{
    block_record, command, cursors_after, cursors_after_block, header, read_patch, recordable,
    records, Cursors,
};
use crate::bps::index::LongestMatchIndex;
use crate::bps::number::number_bytes;
use crate::bps::theorems::{theorem_never_copies_from_target, theorem_writes_within_ranges};
use vstd::prelude::*;
use vstd::slice::slice_to_vec;

verus! {

/// The shortest match that is written as a copy from the source.
pub const MIN_MATCH: usize = 3;

/// Whether `ranges` are ranges of a target of `target_len` bytes, each with
/// its start no later than its end, in ascending order and apart from one
/// another.
pub open spec fn valid_ranges(ranges: Seq<(usize, usize)>, target_len: int) -> bool {
    &&& forall|i: int|
        0 <= i < ranges.len() ==> (#[trigger] ranges[i]).0 <= ranges[i].1 <= target_len
    &&& forall|i: int, j: int|
        0 <= i < j < ranges.len() ==> (#[trigger] ranges[i]).1 <= (#[trigger] ranges[j]).0
}

/// Whether a patch can be written at all: the ranges are valid, and the two
/// lengths leave room for the two bits that the format adds to a length and
/// the one it adds to an offset.
pub open spec fn encodable(source_len: int, target_len: int, ranges: Seq<(usize, usize)>) -> bool {
    &&& valid_ranges(ranges, target_len)
    &&& source_len <= usize::MAX / 2
    &&& target_len <= usize::MAX / 4
}

/// Whether position `i` lies in none of `ranges`.
pub open spec fn outside(ranges: Seq<(usize, usize)>, i: int) -> bool {
    forall|k: int| 0 <= k < ranges.len() ==> !((#[trigger] ranges[k]).0 <= i < ranges[k].1)
}

/// Whether the span of `block` lies in `range`.
pub open spec fn within(block: Block, range: (usize, usize)) -> bool {
    range.0 <= block.dst_start() && block.dst_end() <= range.1
}

/// Whether `block` keeps to `ranges`: a block that writes has its span in one
/// of them, and a block that leaves its span unchanged has it outside them all.
pub open spec fn keeps_to(block: Block, ranges: Seq<(usize, usize)>) -> bool {
    if block is Unchanged {
        forall|i: int| block.dst_start() <= i < block.dst_end() ==> #[trigger] outside(ranges, i)
    } else {
        exists|k: int| 0 <= k < ranges.len() && within(block, #[trigger] ranges[k])
    }
}

/// The block, if any, for target bytes that stay as they are: from `from` up
/// to `to`.
pub open spec fn gap(from: int, to: int) -> Seq<Block> {
    if from < to {
        seq![Block::Unchanged { dst_start: from, length: to - from }]
    } else {
        Seq::empty()
    }
}

/// The block, if any, for target bytes that are written out: from `from` up
/// to `to`.
pub open spec fn literal(target: Seq<u8>, from: int, to: int) -> Seq<Block> {
    if from < to {
        seq![Block::Data { dst_start: from, data: target.subrange(from, to) }]
    } else {
        Seq::empty()
    }
}

/// The blocks for the target from `pending` up to `end`, where the bytes from
/// `pending` up to `pos` found no match and wait to be written out. At each
/// position the index is asked for the rest of the range. A match of
/// `MIN_MATCH` bytes or more becomes a copy from the source, after the bytes
/// that wait.
pub open spec fn scan_blocks<I: LongestMatchIndex>(
    index: &I,
    target: Seq<u8>,
    pending: int,
    pos: int,
    end: int,
) -> Seq<Block>
    decreases end - pos,
    when 0 <= pos && end <= target.len()
    via scan_blocks_decreases::<I>
{
    if pos >= end {
        literal(target, pending, end)
    } else {
        let found = index.longest_match(target.subrange(pos, end));
        if found.1 >= MIN_MATCH {
            literal(target, pending, pos) + seq![
                Block::SourceCopy {
                    src_start: found.0 as int,
                    dst_start: pos,
                    length: found.1 as int,
                },
            ] + scan_blocks(index, target, pos + found.1, pos + found.1, end)
        } else {
            scan_blocks(index, target, pending, pos + 1, end)
        }
    }
}

#[via_fn]
proof fn scan_blocks_decreases<I: LongestMatchIndex>(
    index: &I,
    target: Seq<u8>,
    pending: int,
    pos: int,
    end: int,
) {
    if pos < end {
        index.lemma_longest_match(target.subrange(pos, end));
    }
}

/// The blocks for one range, `start` up to `end`, when the target is
/// accounted for up to `input_pos`: one for the bytes in between, which stay
/// as they are, then those for the range.
pub open spec fn range_blocks<I: LongestMatchIndex>(
    index: &I,
    target: Seq<u8>,
    input_pos: int,
    start: int,
    end: int,
) -> Seq<Block> {
    gap(input_pos, start) + scan_blocks(index, target, start, start, end)
}

/// The blocks for the ranges from the `k`-th on and for what follows the last
/// range, when the target is accounted for up to `input_pos`.
pub open spec fn ranges_blocks<I: LongestMatchIndex>(
    index: &I,
    target: Seq<u8>,
    ranges: Seq<(usize, usize)>,
    k: int,
    input_pos: int,
) -> Seq<Block>
    decreases ranges.len() - k,
{
    if k < 0 || k >= ranges.len() {
        gap(input_pos, target.len() as int)
    } else {
        range_blocks(index, target, input_pos, ranges[k].0 as int, ranges[k].1 as int)
            + ranges_blocks(index, target, ranges, k + 1, ranges[k].1 as int)
    }
}

/// The blocks of the patch that the encoder writes.
pub open spec fn encoded_blocks<I: LongestMatchIndex>(
    index: &I,
    target: Seq<u8>,
    ranges: Seq<(usize, usize)>,
) -> Seq<Block> {
    ranges_blocks(index, target, ranges, 0, 0)
}

/// `body` followed by the three checksums: of the source, of the target, and
/// of all the patch before the third checksum.
pub open spec fn with_checksums(body: Seq<u8>, source: Seq<u8>, target: Seq<u8>) -> Seq<u8> {
    let checked = body + le_bytes(crc32(source)) + le_bytes(crc32(target));
    checked + le_bytes(crc32(checked))
}

/// The bytes of the patch that holds `blocks`.
pub open spec fn serialized(source: Seq<u8>, target: Seq<u8>, blocks: Seq<Block>) -> Seq<u8> {
    with_checksums(
        header(source.len() as usize, target.len() as usize) + records(blocks, Cursors::start()),
        source,
        target,
    )
}

/// The bytes of the patch that the encoder writes.
pub open spec fn encoded_patch<I: LongestMatchIndex>(
    index: &I,
    target: Seq<u8>,
    ranges: Seq<(usize, usize)>,
) -> Seq<u8> {
    serialized(index.source(), target, encoded_blocks(index, target, ranges))
}

/// Writes a patch. It holds the index over the source, the target, the ranges
/// to encode, the bytes and the blocks written so far, and two cursors: up to
/// where the target is accounted for, and where the last copy from the source
/// stopped reading.
pub struct BPSPatchEncoder<'a, I: LongestMatchIndex> {
    index: &'a I,
    target: &'a [u8],
    modified_ranges: &'a [(usize, usize)],
    patch_bytes: Vec<u8>,
    blocks: Vec<BPSBlock>,
    src_pos: usize,
    input_pos: usize,
}

/// What an encoder has written, as a mathematical value.
pub struct EncoderState {
    /// The bytes written so far.
    pub patch_bytes: Seq<u8>,
    /// The blocks written so far.
    pub blocks: Seq<Block>,
    /// Up to where the target is accounted for, and where the last copy from
    /// the source stopped reading.
    pub cursors: Cursors,
}

impl EncoderState {
    /// The state of an encoder that has written nothing.
    pub open spec fn start() -> EncoderState {
        EncoderState { patch_bytes: Seq::empty(), blocks: Seq::empty(), cursors: Cursors::start() }
    }

    /// This state after `bytes` were written.
    pub open spec fn wrote(self, bytes: Seq<u8>) -> EncoderState {
        EncoderState { patch_bytes: self.patch_bytes + bytes, ..self }
    }

    /// This state after `block` was written.
    pub open spec fn wrote_block(self, block: Block) -> EncoderState {
        EncoderState {
            patch_bytes: self.patch_bytes + block_record(block, self.cursors),
            blocks: self.blocks.push(block),
            cursors: cursors_after_block(block, self.cursors),
        }
    }

    /// This state after `blocks` were written.
    pub open spec fn wrote_blocks(self, blocks: Seq<Block>) -> EncoderState {
        EncoderState {
            patch_bytes: self.patch_bytes + records(blocks, self.cursors),
            blocks: self.blocks + blocks,
            cursors: cursors_after(blocks, self.cursors),
        }
    }
}

impl<'a, I: LongestMatchIndex> View for BPSPatchEncoder<'a, I> {
    type V = EncoderState;

    closed spec fn view(&self) -> EncoderState {
        EncoderState {
            patch_bytes: self.patch_bytes@,
            blocks: blocks_view(self.blocks@),
            cursors: Cursors {
                output_pos: self.input_pos as int,
                src_pos: self.src_pos as int,
                dst_pos: 0,
            },
        }
    }
}

impl<'a, I: LongestMatchIndex> BPSPatchEncoder<'a, I> {
    /// The index that the encoder asks.
    pub closed spec fn index(&self) -> &I {
        self.index
    }

    /// The target to be encoded.
    pub closed spec fn target(&self) -> Seq<u8> {
        self.target@
    }

    /// The ranges to be encoded.
    pub closed spec fn ranges(&self) -> Seq<(usize, usize)> {
        self.modified_ranges@
    }

    /// Whether `other` encodes the same target and ranges with the same index.
    pub open spec fn same_task(&self, other: &Self) -> bool {
        &&& self.index() == other.index()
        &&& self.target() == other.target()
        &&& self.ranges() == other.ranges()
    }

    /// Whether the encoder can go on: the cursors are within the target and
    /// the source, and the two lengths leave room for what the format adds to
    /// a length and to an offset.
    pub open spec fn ready(&self) -> bool {
        &&& self@.cursors.output_pos <= self.target().len()
        &&& self@.cursors.src_pos <= self.index().source().len()
        &&& self@.cursors.dst_pos == 0
        &&& self.index().source().len() <= usize::MAX / 2
        &&& self.target().len() <= usize::MAX / 4
    }

    /// An encoder that has written nothing yet.
    pub fn new(index: &'a I, target: &'a [u8], modified_ranges: &'a [(usize, usize)]) -> (encoder:
        Self)
        ensures
            encoder@ == EncoderState::start(),
            encoder.index() == index,
            encoder.target() == target@,
            encoder.ranges() == modified_ranges@,
    {
        let encoder = Self {
            index,
            target,
            modified_ranges,
            patch_bytes: Vec::new(),
            blocks: Vec::new(),
            src_pos: 0,
            input_pos: 0,
        };
        assert(encoder@.blocks =~= Seq::empty());
        assert(encoder@.patch_bytes =~= Seq::empty());
        encoder
    }

    /// The bytes written so far.
    pub fn patch_bytes(&self) -> (bytes: &Vec<u8>)
        ensures
            bytes@ == self@.patch_bytes,
    {
        &self.patch_bytes
    }

    /// The blocks written so far.
    pub fn blocks(&self) -> (blocks: &Vec<BPSBlock>)
        ensures
            blocks_view(blocks@) == self@.blocks,
    {
        &self.blocks
    }

    /// Writes one byte.
    pub fn write(&mut self, b: u8)
        ensures
            final(self)@ == old(self)@.wrote(seq![b]),
            final(self).same_task(old(self)),
    {
        self.patch_bytes.push(b);
        assert(self.patch_bytes@ =~= old(self).patch_bytes@ + seq![b]);
    }

    /// Writes the bytes of `data`.
    pub fn write_n(&mut self, data: &[u8])
        ensures
            final(self)@ == old(self)@.wrote(data@),
            final(self).same_task(old(self)),
    {
        let mut i: usize = 0;
        while i < data.len()
            invariant
                i <= data@.len(),
                self@ == old(self)@.wrote(data@.subrange(0, i as int)),
                self.same_task(old(self)),
            decreases data@.len() - i,
        {
            self.patch_bytes.push(data[i]);
            i += 1;
            assert(self.patch_bytes@ =~= old(self).patch_bytes@ + data@.subrange(0, i as int));
        }
        assert(data@.subrange(0, i as int) =~= data@);
    }

    /// Writes the number `x`.
    pub fn encode_number(&mut self, x: usize)
        ensures
            final(self)@ == old(self)@.wrote(number_bytes(x as nat)),
            final(self).same_task(old(self)),
    {
        let mut x: usize = x;
        let ghost first = x;
        let ghost mut written: Seq<u8> = Seq::empty();
        assert(self.patch_bytes@ + written =~= self.patch_bytes@);
        loop
            invariant_except_break
                self@ == old(self)@.wrote(written),
                written + number_bytes(x as nat) == number_bytes(first as nat),
            invariant
                self.same_task(old(self)),
            ensures
                self@ == old(self)@.wrote(number_bytes(first as nat)),
            decreases x,
        {
            let ghost before = x;
            let b: u8 = (x & 0x7f) as u8;
            x >>= 7;
            assert(b == before % 128 && x == before / 128 && (0x80 | b) == b + 128) by (bit_vector)
                requires
                    b == (before & 0x7f) as u8,
                    x == before >> 7,
            ;
            if x == 0 {
                self.write(0x80 | b);
                assert(old(self)@.patch_bytes + written + seq![0x80 | b] =~= old(self)@.patch_bytes
                    + number_bytes(first as nat));
                break ;
            }
            self.write(b);
            x -= 1;
            proof {
                assert(written.push(b) + number_bytes(x as nat) =~= written + number_bytes(
                    before as nat,
                ));
                assert(old(self)@.patch_bytes + written + seq![b] =~= old(self)@.patch_bytes
                    + written.push(b));
                written = written.push(b);
            }
        }
    }

    /// Writes the number that opens a block record.
    pub fn encode_block_header(&mut self, action: usize, length: usize)
        requires
            action < 4,
            1 <= length,
            command(3, length as int) <= usize::MAX,
        ensures
            final(self)@ == old(self)@.wrote(number_bytes(command(action as int, length as int))),
            final(self).same_task(old(self)),
    {
        let x: usize = (length - 1) * 4 + action;
        self.encode_number(x);
    }

    /// Writes a block for the next `length` bytes of the target, which stay
    /// as they are.
    pub fn encode_unchanged(&mut self, length: usize)
        requires
            recordable(
                Block::Unchanged { dst_start: old(self)@.cursors.output_pos, length: length as int },
                old(self)@.cursors,
            ),
        ensures
            final(self)@ == old(self)@.wrote_block(
                Block::Unchanged { dst_start: old(self)@.cursors.output_pos, length: length as int },
            ),
            final(self).same_task(old(self)),
    {
        self.encode_block_header(0, length);
        let ghost kept = self.blocks@;
        let block = BPSBlock::Unchanged { dst_start: self.input_pos, length };
        self.blocks.push(block);
        assert(blocks_view(self.blocks@) =~= blocks_view(kept).push(block@));
        self.input_pos += length;
    }

    /// Writes a block that holds `data` for the next bytes of the target.
    pub fn encode_data(&mut self, data: &[u8])
        requires
            recordable(
                Block::Data { dst_start: old(self)@.cursors.output_pos, data: data@ },
                old(self)@.cursors,
            ),
        ensures
            final(self)@ == old(self)@.wrote_block(
                Block::Data { dst_start: old(self)@.cursors.output_pos, data: data@ },
            ),
            final(self).same_task(old(self)),
    {
        let length: usize = data.len();
        self.encode_block_header(1, length);
        self.write_n(data);
        let ghost kept = self.blocks@;
        let block = BPSBlock::Data { dst_start: self.input_pos, data: slice_to_vec(data) };
        self.blocks.push(block);
        assert(blocks_view(self.blocks@) =~= blocks_view(kept).push(block@));
        self.input_pos += length;
        assert(self@.patch_bytes =~= old(self)@.patch_bytes + block_record(
            block@,
            old(self)@.cursors,
        ));
    }

    /// Writes a block that copies the next `length` bytes of the target from
    /// the source at `idx`. The record holds `idx` relative to where the copy
    /// before this one stopped reading.
    pub fn encode_source_copy(&mut self, idx: usize, length: usize)
        requires
            recordable(
                Block::SourceCopy {
                    src_start: idx as int,
                    dst_start: old(self)@.cursors.output_pos,
                    length: length as int,
                },
                old(self)@.cursors,
            ),
        ensures
            final(self)@ == old(self)@.wrote_block(
                Block::SourceCopy {
                    src_start: idx as int,
                    dst_start: old(self)@.cursors.output_pos,
                    length: length as int,
                },
            ),
            final(self).same_task(old(self)),
    {
        self.encode_block_header(2, length);
        if idx < self.src_pos {
            let magnitude: usize = self.src_pos - idx;
            self.encode_number(magnitude * 2 + 1);
        } else {
            let magnitude: usize = idx - self.src_pos;
            self.encode_number(magnitude * 2);
        }
        self.src_pos = idx + length;
        let ghost kept = self.blocks@;
        let block = BPSBlock::SourceCopy { src_start: idx, dst_start: self.input_pos, length };
        self.blocks.push(block);
        assert(blocks_view(self.blocks@) =~= blocks_view(kept).push(block@));
        self.input_pos += length;
        assert(self@.patch_bytes =~= old(self)@.patch_bytes + block_record(
            block@,
            old(self)@.cursors,
        ));
    }

    /// Writes the blocks for the range from `start_addr` up to `end_addr`:
    /// first one for the bytes before the range, which stay as they are, then
    /// copies from the source where the index finds `MIN_MATCH` bytes or
    /// more, and the target's own bytes in between.
    pub fn encode_range(&mut self, start_addr: usize, end_addr: usize)
        requires
            old(self).ready(),
            old(self)@.cursors.output_pos <= start_addr <= end_addr <= old(self).target().len(),
        ensures
            final(self)@ == old(self)@.wrote_blocks(
                range_blocks(
                    old(self).index(),
                    old(self).target(),
                    old(self)@.cursors.output_pos,
                    start_addr as int,
                    end_addr as int,
                ),
            ),
            final(self)@.cursors.output_pos == end_addr,
            final(self).ready(),
            final(self).same_task(old(self)),
    {
        let target: &[u8] = self.target;
        let index: &I = self.index;
        let ghost all = range_blocks(
            self.index(),
            self.target(),
            self@.cursors.output_pos,
            start_addr as int,
            end_addr as int,
        );
        let ghost mut made: Seq<Block> = Seq::empty();
        proof {
            lemma_wrote_nothing(self@);
        }
        // Unchanged block:
        if self.input_pos < start_addr {
            let length: usize = start_addr - self.input_pos;
            let ghost block = Block::Unchanged {
                dst_start: self@.cursors.output_pos,
                length: length as int,
            };
            self.encode_unchanged(length);
            proof {
                lemma_wrote_one_more(old(self)@, made, block);
                made = made.push(block);
            }
        }
        assert(made =~= gap(old(self)@.cursors.output_pos, start_addr as int));
        // Data and source copy blocks:
        let mut pos: usize = start_addr;
        while pos < end_addr
            invariant
                target@ == self.target(),
                index == self.index(),
                self.ready(),
                self.same_task(old(self)),
                start_addr <= pos <= end_addr <= target@.len(),
                start_addr <= self@.cursors.output_pos <= pos,
                self@ == old(self)@.wrote_blocks(made),
                made + scan_blocks(
                    index,
                    target@,
                    self@.cursors.output_pos,
                    pos as int,
                    end_addr as int,
                ) == all,
            decreases end_addr - pos,
        {
            let query: &[u8] = &target[pos..end_addr];
            let (source_start, match_length) = index.lookup(query);
            proof {
                index.lemma_longest_match(query@);
            }
            if match_length >= MIN_MATCH {
                if pos > self.input_pos {
                    let data: &[u8] = &target[self.input_pos..pos];
                    let ghost block = Block::Data {
                        dst_start: self@.cursors.output_pos,
                        data: data@,
                    };
                    self.encode_data(data);
                    proof {
                        lemma_wrote_one_more(old(self)@, made, block);
                        made = made.push(block);
                    }
                }
                let ghost block = Block::SourceCopy {
                    src_start: source_start as int,
                    dst_start: pos as int,
                    length: match_length as int,
                };
                self.encode_source_copy(source_start, match_length);
                proof {
                    lemma_wrote_one_more(old(self)@, made, block);
                    assert(made.push(block) + scan_blocks(
                        index,
                        target@,
                        pos + match_length,
                        pos + match_length,
                        end_addr as int,
                    ) =~= made + (seq![block] + scan_blocks(
                        index,
                        target@,
                        pos + match_length,
                        pos + match_length,
                        end_addr as int,
                    )));
                    made = made.push(block);
                }
                pos += match_length;
            } else {
                pos += 1;
            }
        }
        if end_addr > self.input_pos {
            let data: &[u8] = &target[self.input_pos..end_addr];
            let ghost block = Block::Data { dst_start: self@.cursors.output_pos, data: data@ };
            self.encode_data(data);
            proof {
                lemma_wrote_one_more(old(self)@, made, block);
                made = made.push(block);
            }
        }
        assert(made =~= all);
    }

    /// Writes the four bytes of a checksum, lowest first.
    pub fn write_checksum(&mut self, sum: u32)
        ensures
            final(self)@ == old(self)@.wrote(le_bytes(sum)),
            final(self).same_task(old(self)),
    {
        let b0: u8 = (sum & 0xff) as u8;
        let b1: u8 = ((sum >> 8) & 0xff) as u8;
        let b2: u8 = ((sum >> 16) & 0xff) as u8;
        let b3: u8 = (sum >> 24) as u8;
        assert(b0 == sum % 0x100 && b1 == sum / 0x100 % 0x100 && b2 == sum / 0x1_0000 % 0x100 && b3
            == sum / 0x100_0000) by (bit_vector)
            requires
                b0 == (sum & 0xff) as u8,
                b1 == ((sum >> 8) & 0xff) as u8,
                b2 == ((sum >> 16) & 0xff) as u8,
                b3 == (sum >> 24) as u8,
        ;
        self.write(b0);
        self.write(b1);
        self.write(b2);
        self.write(b3);
        assert(self@.patch_bytes =~= old(self)@.patch_bytes + le_bytes(sum));
    }

    /// Writes the whole patch: the header, the blocks for every range and for
    /// what follows the last range, and the three checksums.
    pub fn encode(&mut self)
        requires
            old(self)@ == EncoderState::start(),
            encodable(
                old(self).index().source().len() as int,
                old(self).target().len() as int,
                old(self).ranges(),
            ),
        ensures
            final(self)@.blocks == encoded_blocks(
                old(self).index(),
                old(self).target(),
                old(self).ranges(),
            ),
            final(self)@.patch_bytes == encoded_patch(
                old(self).index(),
                old(self).target(),
                old(self).ranges(),
            ),
            final(self)@.cursors == cursors_after(final(self)@.blocks, Cursors::start()),
            final(self).same_task(old(self)),
            forall|i: int|
                0 <= i < final(self)@.blocks.len() ==> !(#[trigger] final(self)@.blocks[i]
                    is TargetCopy),
            forall|i: int|
                0 <= i < final(self)@.blocks.len() ==> keeps_to(
                    #[trigger] final(self)@.blocks[i],
                    old(self).ranges(),
                ),
    {
        let target: &[u8] = self.target;
        let index: &I = self.index;
        let ranges: &[(usize, usize)] = self.modified_ranges;
        let source: &[u8] = index.data();
        let head: [u8; 4] = [0x42, 0x50, 0x53, 0x31];
        self.write_n(&head);
        self.encode_number(source.len());
        self.encode_number(target.len());
        self.encode_number(0);
        let ghost opened = self@;
        assert(opened.patch_bytes =~= header(source@.len() as usize, target@.len() as usize));
        let ghost all = encoded_blocks(index, target@, ranges@);
        let ghost mut made: Seq<Block> = Seq::empty();
        proof {
            lemma_wrote_nothing(opened);
        }
        let mut k: usize = 0;
        while k < ranges.len()
            invariant
                target@ == self.target(),
                index == self.index(),
                ranges@ == self.ranges(),
                self.ready(),
                self.same_task(old(self)),
                valid_ranges(ranges@, target@.len() as int),
                k <= ranges@.len(),
                k > 0 ==> self@.cursors.output_pos == ranges@[k - 1].1,
                k == 0 ==> self@.cursors.output_pos == 0,
                self@ == opened.wrote_blocks(made),
                made + ranges_blocks(index, target@, ranges@, k as int, self@.cursors.output_pos)
                    == all,
            decreases ranges@.len() - k,
        {
            let r: (usize, usize) = ranges[k];
            let ghost part = range_blocks(
                index,
                target@,
                self@.cursors.output_pos,
                r.0 as int,
                r.1 as int,
            );
            proof {
                if k > 0 {
                    assert(ranges@[k - 1].1 <= ranges@[k as int].0);
                }
            }
            self.encode_range(r.0, r.1);
            proof {
                lemma_wrote_more(opened, made, part);
                assert((made + part) + ranges_blocks(index, target@, ranges@, k + 1, r.1 as int)
                    =~= made + (part + ranges_blocks(index, target@, ranges@, k + 1, r.1 as int)));
                made = made + part;
            }
            k += 1;
        }
        if self.input_pos < target.len() {
            let length: usize = target.len() - self.input_pos;
            let ghost block = Block::Unchanged {
                dst_start: self@.cursors.output_pos,
                length: length as int,
            };
            self.encode_unchanged(length);
            proof {
                lemma_wrote_one_more(opened, made, block);
                made = made.push(block);
            }
        }
        assert(made =~= all);
        assert(self@.patch_bytes =~= header(source@.len() as usize, target@.len() as usize)
            + records(all, Cursors::start()));
        let source_sum: u32 = compute_crc32(source);
        self.write_checksum(source_sum);
        let target_sum: u32 = compute_crc32(target);
        self.write_checksum(target_sum);
        let patch_sum: u32 = compute_crc32(self.patch_bytes.as_slice());
        self.write_checksum(patch_sum);
        proof {
            theorem_writes_within_ranges(index, target@, ranges@);
            theorem_never_copies_from_target(index, target@, ranges@);
        }
    }

    /// Gives up the encoder for the bytes it has written.
    pub fn into_bytes(self) -> (bytes: Vec<u8>)
        ensures
            bytes@ == self@.patch_bytes,
    {
        self.patch_bytes
    }
}

/// Writing no blocks changes nothing.
pub proof fn lemma_wrote_nothing(state: EncoderState)
    ensures
        state.wrote_blocks(Seq::empty()) == state,
{
    assert(state.patch_bytes + Seq::<u8>::empty() =~= state.patch_bytes);
    assert(state.blocks + Seq::<Block>::empty() =~= state.blocks);
}

/// Writing blocks and then one more is writing them all.
pub proof fn lemma_wrote_one_more(state: EncoderState, blocks: Seq<Block>, block: Block)
    ensures
        state.wrote_blocks(blocks).wrote_block(block) == state.wrote_blocks(blocks.push(block)),
{
    let all = blocks.push(block);
    assert(all.drop_last() =~= blocks);
    assert(state.patch_bytes + records(blocks, state.cursors) + block_record(
        block,
        cursors_after(blocks, state.cursors),
    ) =~= state.patch_bytes + records(all, state.cursors));
    assert((state.blocks + blocks).push(block) =~= state.blocks + all);
}

/// Writing blocks and then more blocks is writing them all.
pub proof fn lemma_wrote_more(state: EncoderState, first: Seq<Block>, second: Seq<Block>)
    ensures
        state.wrote_blocks(first).wrote_blocks(second) == state.wrote_blocks(first + second),
    decreases second.len(),
{
    if second.len() == 0 {
        lemma_wrote_nothing(state.wrote_blocks(first));
        assert(first + second =~= first);
    } else {
        let init = second.drop_last();
        lemma_wrote_more(state, first, init);
        lemma_wrote_one_more(state.wrote_blocks(first), init, second.last());
        lemma_wrote_one_more(state, first + init, second.last());
        assert(init.push(second.last()) =~= second);
        assert((first + init).push(second.last()) =~= first + second);
    }
}

/// Whether `ranges` are valid ranges of a target of `target_len` bytes.
pub fn ranges_valid(ranges: &[(usize, usize)], target_len: usize) -> (valid: bool)
    ensures
        valid == valid_ranges(ranges@, target_len as int),
{
    let mut last_end: usize = 0;
    let mut k: usize = 0;
    while k < ranges.len()
        invariant
            k <= ranges@.len(),
            valid_ranges(ranges@.take(k as int), target_len as int),
            k == 0 ==> last_end == 0,
            k > 0 ==> last_end == ranges@[k - 1].1,
        decreases ranges@.len() - k,
    {
        let r: (usize, usize) = ranges[k];
        if r.0 < last_end || r.0 > r.1 || r.1 > target_len {
            proof {
                if r.0 < last_end {
                    assert(ranges@[k - 1].1 > ranges@[k as int].0);
                } else {
                    assert(!(ranges@[k as int].0 <= ranges@[k as int].1 <= target_len));
                }
            }
            return false;
        }
        proof {
            let longer = ranges@.take(k + 1);
            assert forall|i: int, j: int| 0 <= i < j < longer.len() implies (#[trigger] longer[i]).1
                <= (#[trigger] longer[j]).0 by {
                if j < k {
                    assert(ranges@.take(k as int)[i].1 <= ranges@.take(k as int)[j].0);
                } else if i < k - 1 {
                    assert(ranges@.take(k as int)[i].1 <= ranges@.take(k as int)[k - 1].0);
                    assert(ranges@.take(k as int)[k - 1].0 <= ranges@.take(k as int)[k - 1].1);
                }
            }
            assert forall|i: int| 0 <= i < longer.len() implies (#[trigger] longer[i]).0
                <= longer[i].1 <= target_len by {
                if i < k {
                    assert(ranges@.take(k as int)[i].0 <= ranges@.take(k as int)[i].1);
                }
            }
        }
        last_end = r.1;
        k += 1;
    }
    assert(ranges@.take(k as int) =~= ranges@);
    true
}

/// Encodes `target` against the source that `index` was built from, writing
/// only within `modified_ranges`. Returns `None` where no patch can be
/// written: the ranges are not valid, or a length is too large.
pub fn encode_patch<I: LongestMatchIndex>(
    index: &I,
    target: &[u8],
    modified_ranges: &[(usize, usize)],
) -> (patch: Option<Vec<u8>>)
    ensures
        match patch {
            Some(bytes) => {
                &&& encodable(index.source().len() as int, target@.len() as int, modified_ranges@)
                &&& bytes@ == encoded_patch(index, target@, modified_ranges@)
                &&& read_patch(bytes@) is Ok
                &&& forall|i: int|
                    0 <= i < read_patch(bytes@)->Ok_0.len() ==> !(#[trigger] read_patch(
                        bytes@,
                    )->Ok_0[i] is TargetCopy)
                &&& forall|i: int|
                    0 <= i < read_patch(bytes@)->Ok_0.len() ==> exists|k: int|
                        0 <= k < modified_ranges@.len() && within(
                            #[trigger] read_patch(bytes@)->Ok_0[i],
                            #[trigger] modified_ranges@[k],
                        )
            },
            None => !encodable(
                index.source().len() as int,
                target@.len() as int,
                modified_ranges@,
            ),
        },
{
    if index.data().len() > usize::MAX / 2 || target.len() > usize::MAX / 4 || !ranges_valid(
        modified_ranges,
        target.len(),
    ) {
        return None;
    }
    let mut encoder = BPSPatchEncoder::new(index, target, modified_ranges);
    encoder.encode();
    proof {
        theorem_writes_within_ranges(index, target@, modified_ranges@);
        theorem_never_copies_from_target(index, target@, modified_ranges@);
    }
    Some(encoder.into_bytes())
}

} // verus!
