//! The serialized form of a patch, as functions on byte sequences.
//!
//! A patch is the magic, three numbers (source size, target size, metadata
//! size), the metadata, the block records, and twelve bytes of checksums.

use crate::bps::block::Block;
use crate::bps::error::FormatError;
use crate::bps::number::{
    lemma_read_groups_span, lemma_read_number_at, number_bytes, read_number, MAX_GROUPS,
};
use vstd::prelude::*;

verus! {

/// The four bytes every patch starts with: `BPS1`.
pub open spec fn magic() -> Seq<u8> {
    seq![0x42u8, 0x50u8, 0x53u8, 0x31u8]
}

/// Length of the three checksums that end a patch.
pub const TRAILER_LEN: usize = 12;

/// The three cursors that the block records move.
pub struct Cursors {
    /// Where the next block's span of the destination begins.
    pub output_pos: int,
    /// Where the previous source copy stopped reading.
    pub src_pos: int,
    /// Where the previous target copy stopped reading.
    pub dst_pos: int,
}

impl Cursors {
    /// The cursors before the first block.
    pub open spec fn start() -> Cursors {
        Cursors { output_pos: 0, src_pos: 0, dst_pos: 0 }
    }
}

/// The relative offset that a number stands for: its lowest bit is the sign
/// (set for negative), the rest the magnitude.
pub open spec fn signed_offset(raw: usize) -> int {
    if raw % 2 == 1 {
        -(raw / 2)
    } else {
        raw as int / 2
    }
}

/// A block record read at `pos`: the block, the position behind the record and
/// the cursors after it.
pub open spec fn read_block(bytes: Seq<u8>, pos: int, cur: Cursors) -> Result<
    (Block, int, Cursors),
    FormatError,
> {
    match read_number(bytes, pos) {
        Err(e) => Err(e),
        Ok((command, after_command)) => {
            let action = command % 4;
            let length = command / 4 + 1;
            let dst_start = cur.output_pos;
            let output_pos = dst_start + length;
            if output_pos > usize::MAX {
                Err(FormatError::CursorOutOfRange)
            } else if action == 0 {
                Ok(
                    (
                        Block::Unchanged { dst_start, length },
                        after_command,
                        Cursors { output_pos, ..cur },
                    ),
                )
            } else if action == 1 {
                if after_command + length > bytes.len() {
                    Err(FormatError::Truncated)
                } else {
                    Ok(
                        (
                            Block::Data {
                                dst_start,
                                data: bytes.subrange(after_command, after_command + length),
                            },
                            after_command + length,
                            Cursors { output_pos, ..cur },
                        ),
                    )
                }
            } else {
                match read_number(bytes, after_command) {
                    Err(e) => Err(e),
                    Ok((raw, after_offset)) => {
                        let from = if action == 2 {
                            cur.src_pos
                        } else {
                            cur.dst_pos
                        };
                        let src_start = from + signed_offset(raw);
                        if src_start < 0 || src_start + length > usize::MAX {
                            Err(FormatError::CursorOutOfRange)
                        } else if action == 2 {
                            Ok(
                                (
                                    Block::SourceCopy { src_start, dst_start, length },
                                    after_offset,
                                    Cursors { output_pos, src_pos: src_start + length, ..cur },
                                ),
                            )
                        } else {
                            Ok(
                                (
                                    Block::TargetCopy { src_start, dst_start, length },
                                    after_offset,
                                    Cursors { output_pos, dst_pos: src_start + length, ..cur },
                                ),
                            )
                        }
                    },
                }
            }
        },
    }
}

/// The block records from `pos` up to exactly `end`: the blocks without those
/// that leave the destination unchanged, and the cursors behind the last
/// record.
pub open spec fn read_blocks(bytes: Seq<u8>, pos: int, end: int, cur: Cursors) -> Result<
    (Seq<Block>, Cursors),
    FormatError,
>
    decreases end - pos,
    via read_blocks_decreases
{
    if pos > end {
        Err(FormatError::Misaligned)
    } else if pos == end {
        Ok((Seq::empty(), cur))
    } else {
        match read_block(bytes, pos, cur) {
            Err(e) => Err(e),
            Ok((block, next, after)) => if next > end {
                Err(FormatError::Misaligned)
            } else {
                match read_blocks(bytes, next, end, after) {
                    Err(e) => Err(e),
                    Ok((rest, last)) => if block is Unchanged {
                        Ok((rest, last))
                    } else {
                        Ok((seq![block] + rest, last))
                    },
                }
            },
        }
    }
}

#[via_fn]
proof fn read_blocks_decreases(bytes: Seq<u8>, pos: int, end: int, cur: Cursors) {
    if pos < end && read_block(bytes, pos, cur) is Ok {
        lemma_read_block_span(bytes, pos, cur);
    }
}

/// A block record that can be read is at least one byte long and lies within
/// the bytes.
pub proof fn lemma_read_block_span(bytes: Seq<u8>, pos: int, cur: Cursors)
    requires
        read_block(bytes, pos, cur) is Ok,
    ensures
        0 <= pos < read_block(bytes, pos, cur)->Ok_0.1 <= bytes.len(),
{
    lemma_read_groups_span(bytes, pos, MAX_GROUPS as nat);
    let (command, after_command) = read_number(bytes, pos)->Ok_0;
    if command % 4 >= 2 {
        lemma_read_groups_span(bytes, after_command, MAX_GROUPS as nat);
    }
}

/// A whole patch: its blocks and the cursors behind the last block record,
/// or why the bytes are no patch.
pub open spec fn read_patch_parts(bytes: Seq<u8>) -> Result<(Seq<Block>, Cursors), FormatError> {
    if bytes.len() < 4 {
        Err(FormatError::Truncated)
    } else if bytes.subrange(0, 4) != magic() {
        Err(FormatError::BadMagic)
    } else {
        match read_number(bytes, 4) {
            Err(e) => Err(e),
            Ok((_source_size, at_target_size)) => match read_number(bytes, at_target_size) {
                Err(e) => Err(e),
                Ok((_target_size, at_metadata_size)) => match read_number(bytes, at_metadata_size) {
                    Err(e) => Err(e),
                    Ok((metadata_size, at_metadata)) => if bytes.len() < TRAILER_LEN {
                        Err(FormatError::Truncated)
                    } else {
                        read_blocks(
                            bytes,
                            at_metadata + metadata_size,
                            bytes.len() - TRAILER_LEN,
                            Cursors::start(),
                        )
                    },
                },
            },
        }
    }
}

/// The blocks of a whole patch, or why the bytes are none.
pub open spec fn read_patch(bytes: Seq<u8>) -> Result<Seq<Block>, FormatError> {
    match read_patch_parts(bytes) {
        Ok((blocks, _)) => Ok(blocks),
        Err(e) => Err(e),
    }
}

/// Whether no cursor is below zero.
pub open spec fn cursors_valid(cur: Cursors) -> bool {
    0 <= cur.output_pos && 0 <= cur.src_pos && 0 <= cur.dst_pos
}

/// A block record that can be read gives a block whose spans a `usize` can
/// hold, and leaves no cursor below zero.
pub proof fn lemma_read_block_addressable(bytes: Seq<u8>, pos: int, cur: Cursors)
    requires
        cursors_valid(cur),
        read_block(bytes, pos, cur) is Ok,
    ensures
        read_block(bytes, pos, cur)->Ok_0.0.addressable(),
        cursors_valid(read_block(bytes, pos, cur)->Ok_0.2),
{
    lemma_read_groups_span(bytes, pos, MAX_GROUPS as nat);
}

/// All the blocks of a run of records have spans that a `usize` can hold.
pub proof fn lemma_read_blocks_addressable(bytes: Seq<u8>, pos: int, end: int, cur: Cursors)
    requires
        cursors_valid(cur),
        read_blocks(bytes, pos, end, cur) is Ok,
    ensures
        forall|i: int|
            0 <= i < read_blocks(bytes, pos, end, cur)->Ok_0.0.len() ==> (#[trigger] read_blocks(
                bytes,
                pos,
                end,
                cur,
            )->Ok_0.0[i]).addressable(),
    decreases end - pos,
{
    if pos < end {
        let (_block, next, after) = read_block(bytes, pos, cur)->Ok_0;
        lemma_read_block_span(bytes, pos, cur);
        lemma_read_block_addressable(bytes, pos, cur);
        lemma_read_blocks_addressable(bytes, next, end, after);
    }
}

/// All the blocks of a patch have spans that a `usize` can hold.
pub proof fn lemma_read_patch_addressable(bytes: Seq<u8>)
    requires
        read_patch(bytes) is Ok,
    ensures
        forall|i: int|
            0 <= i < read_patch(bytes)->Ok_0.len() ==> (#[trigger] read_patch(
                bytes,
            )->Ok_0[i]).addressable(),
{
    let at_target_size = read_number(bytes, 4)->Ok_0.1;
    let at_metadata_size = read_number(bytes, at_target_size)->Ok_0.1;
    let (metadata_size, at_metadata) = read_number(bytes, at_metadata_size)->Ok_0;
    lemma_read_blocks_addressable(
        bytes,
        at_metadata + metadata_size,
        bytes.len() - TRAILER_LEN,
        Cursors::start(),
    );
}

/// The blocks read so far followed by what reading the rest gives.
pub open spec fn after_blocks(
    done: Seq<Block>,
    rest: Result<(Seq<Block>, Cursors), FormatError>,
) -> Result<(Seq<Block>, Cursors), FormatError> {
    match rest {
        Ok((tail, last)) => Ok((done + tail, last)),
        Err(e) => Err(e),
    }
}

/// The number that stands for the relative offset `delta`: twice its
/// magnitude, plus one where it is negative.
pub open spec fn offset_number(delta: int) -> nat {
    if delta < 0 {
        (-delta * 2 + 1) as nat
    } else {
        (delta * 2) as nat
    }
}

/// The number that opens a block record: the action in its two lowest bits,
/// the length less one above them.
pub open spec fn command(action: int, length: int) -> nat {
    ((length - 1) * 4 + action) as nat
}

/// The record of `block`, written with the cursors at `cur`.
pub open spec fn block_record(block: Block, cur: Cursors) -> Seq<u8> {
    match block {
        Block::Unchanged { length, .. } => number_bytes(command(0, length)),
        Block::Data { data, .. } => number_bytes(command(1, data.len() as int)) + data,
        Block::SourceCopy { src_start, length, .. } => number_bytes(command(2, length))
            + number_bytes(offset_number(src_start - cur.src_pos)),
        Block::TargetCopy { src_start, length, .. } => number_bytes(command(3, length))
            + number_bytes(offset_number(src_start - cur.dst_pos)),
    }
}

/// The cursors behind `block`.
pub open spec fn cursors_after_block(block: Block, cur: Cursors) -> Cursors {
    let output_pos = cur.output_pos + block.length();
    match block {
        Block::Unchanged { .. } => Cursors { output_pos, ..cur },
        Block::Data { .. } => Cursors { output_pos, ..cur },
        Block::SourceCopy { src_start, length, .. } => Cursors {
            output_pos,
            src_pos: src_start + length,
            ..cur
        },
        Block::TargetCopy { src_start, length, .. } => Cursors {
            output_pos,
            dst_pos: src_start + length,
            ..cur
        },
    }
}

/// Whether `block` can be written with the cursors at `cur` and read back: it
/// begins where the block before it ended, it is not empty, and its numbers
/// fit a `usize`.
pub open spec fn recordable(block: Block, cur: Cursors) -> bool {
    &&& block.dst_start() == cur.output_pos
    &&& 1 <= block.length()
    &&& command(3, block.length()) <= usize::MAX
    &&& block.addressable()
    &&& match block {
        Block::SourceCopy { src_start, .. } => offset_number(src_start - cur.src_pos)
            <= usize::MAX,
        Block::TargetCopy { src_start, .. } => offset_number(src_start - cur.dst_pos)
            <= usize::MAX,
        _ => true,
    }
}

/// The cursors behind all of `blocks`.
pub open spec fn cursors_after(blocks: Seq<Block>, cur: Cursors) -> Cursors
    decreases blocks.len(),
{
    if blocks.len() == 0 {
        cur
    } else {
        cursors_after_block(blocks.last(), cursors_after(blocks.drop_last(), cur))
    }
}

/// Whether each of `blocks` can be written in its turn.
pub open spec fn all_recordable(blocks: Seq<Block>, cur: Cursors) -> bool
    decreases blocks.len(),
{
    blocks.len() > 0 ==> all_recordable(blocks.drop_last(), cur) && recordable(
        blocks.last(),
        cursors_after(blocks.drop_last(), cur),
    )
}

/// The records of `blocks`, one after the other.
pub open spec fn records(blocks: Seq<Block>, cur: Cursors) -> Seq<u8>
    decreases blocks.len(),
{
    if blocks.len() == 0 {
        Seq::empty()
    } else {
        records(blocks.drop_last(), cur) + block_record(
            blocks.last(),
            cursors_after(blocks.drop_last(), cur),
        )
    }
}

/// The blocks among `blocks` that do not leave the destination unchanged.
pub open spec fn kept(blocks: Seq<Block>) -> Seq<Block>
    decreases blocks.len(),
{
    if blocks.len() == 0 {
        Seq::empty()
    } else if blocks.last() is Unchanged {
        kept(blocks.drop_last())
    } else {
        kept(blocks.drop_last()).push(blocks.last())
    }
}

/// The magic and the three numbers that open a patch without metadata.
pub open spec fn header(source_size: usize, target_size: usize) -> Seq<u8> {
    magic() + number_bytes(source_size as nat) + number_bytes(target_size as nat) + number_bytes(0)
}

/// The offset that `offset_number` stands for is the one it was made from.
pub proof fn lemma_signed_offset(delta: int)
    requires
        offset_number(delta) <= usize::MAX,
    ensures
        signed_offset(offset_number(delta) as usize) == delta,
{
}

/// Where the bytes from `pos` on begin with the record of `block`, reading
/// there finds `block`.
pub proof fn lemma_read_record(bytes: Seq<u8>, pos: int, block: Block, cur: Cursors)
    requires
        cursors_valid(cur),
        recordable(block, cur),
        0 <= pos,
        pos + block_record(block, cur).len() <= bytes.len(),
        bytes.subrange(pos, pos + block_record(block, cur).len()) == block_record(block, cur),
    ensures
        read_block(bytes, pos, cur) == Ok::<(Block, int, Cursors), FormatError>(
            (block, pos + block_record(block, cur).len(), cursors_after_block(block, cur)),
        ),
{
    let record = block_record(block, cur);
    let length = block.length();
    let action: int = match block {
        Block::Unchanged { .. } => 0,
        Block::Data { .. } => 1,
        Block::SourceCopy { .. } => 2,
        Block::TargetCopy { .. } => 3,
    };
    let opening = command(action, length) as usize;
    let command_len = number_bytes(opening as nat).len() as int;
    assert(opening % 4 == action && opening / 4 + 1 == length);
    assert(bytes.subrange(pos, pos + command_len) =~= record.subrange(0, command_len));
    assert(record.subrange(0, command_len) =~= number_bytes(opening as nat));
    lemma_read_number_at(bytes, pos, opening);
    let after_command = pos + command_len;
    match block {
        Block::Unchanged { .. } => {},
        Block::Data { data, .. } => {
            assert(bytes.subrange(after_command, after_command + length) =~= record.subrange(
                command_len,
                command_len + length,
            ));
            assert(record.subrange(command_len, command_len + length) =~= data);
        },
        Block::SourceCopy { src_start, .. } => {
            let offset = offset_number(src_start - cur.src_pos) as usize;
            let offset_len = number_bytes(offset as nat).len() as int;
            assert(bytes.subrange(after_command, after_command + offset_len) =~= record.subrange(
                command_len,
                command_len + offset_len,
            ));
            assert(record.subrange(command_len, command_len + offset_len) =~= number_bytes(
                offset as nat,
            ));
            lemma_read_number_at(bytes, after_command, offset);
            lemma_signed_offset(src_start - cur.src_pos);
        },
        Block::TargetCopy { src_start, .. } => {
            let offset = offset_number(src_start - cur.dst_pos) as usize;
            let offset_len = number_bytes(offset as nat).len() as int;
            assert(bytes.subrange(after_command, after_command + offset_len) =~= record.subrange(
                command_len,
                command_len + offset_len,
            ));
            assert(record.subrange(command_len, command_len + offset_len) =~= number_bytes(
                offset as nat,
            ));
            lemma_read_number_at(bytes, after_command, offset);
            lemma_signed_offset(src_start - cur.dst_pos);
        },
    }
}

/// Writing blocks that can be written leaves no cursor below zero.
pub proof fn lemma_cursors_after_valid(blocks: Seq<Block>, cur: Cursors)
    requires
        cursors_valid(cur),
        all_recordable(blocks, cur),
    ensures
        cursors_valid(cursors_after(blocks, cur)),
    decreases blocks.len(),
{
    if blocks.len() > 0 {
        lemma_cursors_after_valid(blocks.drop_last(), cur);
    }
}

/// Where the bytes from `pos` on begin with the records of `blocks`, reading
/// there finds those of `blocks` that change the destination, and goes on
/// behind the records.
pub proof fn lemma_read_records(
    bytes: Seq<u8>,
    pos: int,
    end: int,
    blocks: Seq<Block>,
    cur: Cursors,
)
    requires
        cursors_valid(cur),
        all_recordable(blocks, cur),
        0 <= pos,
        pos + records(blocks, cur).len() <= end <= bytes.len(),
        bytes.subrange(pos, pos + records(blocks, cur).len()) == records(blocks, cur),
    ensures
        read_blocks(bytes, pos, end, cur) == after_blocks(
            kept(blocks),
            read_blocks(
                bytes,
                pos + records(blocks, cur).len(),
                end,
                cursors_after(blocks, cur),
            ),
        ),
    decreases blocks.len(),
{
    let here = read_blocks(bytes, pos, end, cur);
    if blocks.len() == 0 {
        if let Ok((tail, _)) = here {
            assert(Seq::<Block>::empty() + tail =~= tail);
        }
    } else {
        let init = blocks.drop_last();
        let block = blocks.last();
        let mid_cur = cursors_after(init, cur);
        let mid = pos + records(init, cur).len();
        let record = block_record(block, mid_cur);
        let next = mid + record.len();
        let all = records(blocks, cur);
        assert(bytes.subrange(pos, mid) =~= all.subrange(0, mid - pos));
        assert(all.subrange(0, mid - pos) =~= records(init, cur));
        assert(bytes.subrange(mid, next) =~= all.subrange(mid - pos, next - pos));
        assert(all.subrange(mid - pos, next - pos) =~= record);
        lemma_read_records(bytes, pos, end, init, cur);
        lemma_cursors_after_valid(init, cur);
        lemma_read_record(bytes, mid, block, mid_cur);
        lemma_read_block_span(bytes, mid, mid_cur);
        let rest = read_blocks(bytes, next, end, cursors_after(blocks, cur));
        if let Ok((tail, _)) = rest {
            if block is Unchanged {
            } else {
                assert(kept(init) + (seq![block] + tail) =~= kept(blocks) + tail);
            }
        }
    }
}

/// A patch made of a header, the records of `blocks` and any twelve bytes in
/// place of the checksums is read as those of `blocks` that change the
/// destination.
pub proof fn lemma_read_written(
    source_size: usize,
    target_size: usize,
    blocks: Seq<Block>,
    trailer: Seq<u8>,
)
    requires
        all_recordable(blocks, Cursors::start()),
        trailer.len() == TRAILER_LEN,
    ensures
        read_patch(
            header(source_size, target_size) + records(blocks, Cursors::start()) + trailer,
        ) == Ok::<Seq<Block>, FormatError>(kept(blocks)),
{
    let head = header(source_size, target_size);
    let body = records(blocks, Cursors::start());
    let bytes = head + body + trailer;
    let source_number = number_bytes(source_size as nat);
    let target_number = number_bytes(target_size as nat);
    let metadata_number = number_bytes(0);
    let at_target_size: int = 4 + source_number.len() as int;
    let at_metadata_size: int = at_target_size + target_number.len();
    let at_blocks: int = at_metadata_size + metadata_number.len();
    assert(bytes.subrange(0, 4) =~= magic());
    assert(bytes.subrange(4, at_target_size) =~= source_number);
    assert(bytes.subrange(at_target_size, at_metadata_size) =~= target_number);
    assert(bytes.subrange(at_metadata_size, at_blocks) =~= metadata_number);
    lemma_read_number_at(bytes, 4, source_size);
    lemma_read_number_at(bytes, at_target_size, target_size);
    lemma_read_number_at(bytes, at_metadata_size, 0);
    let end = bytes.len() - TRAILER_LEN;
    assert(bytes.subrange(at_blocks, at_blocks + body.len()) =~= body);
    lemma_read_records(bytes, at_blocks, end, blocks, Cursors::start());
    assert(kept(blocks) + Seq::<Block>::empty() =~= kept(blocks));
}

} // verus!
