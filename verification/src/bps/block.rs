//! The blocks of a patch and what each does to a destination buffer.

use vstd::prelude::*;

verus! {

/// One instruction of a patch: how a span of the destination comes about.
#[derive(Debug, Clone, PartialEq, Eq)]
pub enum BPSBlock {
    /// The destination already holds the right bytes here.
    Unchanged { dst_start: usize, length: usize },
    /// Copy `length` bytes from the source at `src_start`.
    SourceCopy { src_start: usize, dst_start: usize, length: usize },
    /// Copy `length` bytes, one at a time, from the destination itself at
    /// `src_start`.
    TargetCopy { src_start: usize, dst_start: usize, length: usize },
    /// Write `data`.
    Data { dst_start: usize, data: Vec<u8> },
}

/// A block as a mathematical value.
pub enum Block {
    Unchanged { dst_start: int, length: int },
    SourceCopy { src_start: int, dst_start: int, length: int },
    TargetCopy { src_start: int, dst_start: int, length: int },
    Data { dst_start: int, data: Seq<u8> },
}

impl Block {
    /// Where the block's span of the destination begins.
    pub open spec fn dst_start(self) -> int {
        match self {
            Block::Unchanged { dst_start, .. } => dst_start,
            Block::SourceCopy { dst_start, .. } => dst_start,
            Block::TargetCopy { dst_start, .. } => dst_start,
            Block::Data { dst_start, .. } => dst_start,
        }
    }

    /// How many bytes of the destination the block accounts for.
    pub open spec fn length(self) -> int {
        match self {
            Block::Unchanged { length, .. } => length,
            Block::SourceCopy { length, .. } => length,
            Block::TargetCopy { length, .. } => length,
            Block::Data { data, .. } => data.len() as int,
        }
    }

    /// Where the block's span of the destination ends.
    pub open spec fn dst_end(self) -> int {
        self.dst_start() + self.length()
    }

    /// Whether the ends of the block's spans can be held in a `usize`.
    pub open spec fn addressable(self) -> bool {
        match self {
            Block::Unchanged { dst_start, length } => 0 <= dst_start && 0 <= length && dst_start
                + length <= usize::MAX,
            Block::SourceCopy { src_start, dst_start, length } => 0 <= src_start && 0 <= dst_start
                && 0 <= length && src_start + length <= usize::MAX && dst_start + length
                <= usize::MAX,
            Block::TargetCopy { src_start, dst_start, length } => 0 <= src_start && 0 <= dst_start
                && 0 <= length && src_start + length <= usize::MAX && dst_start + length
                <= usize::MAX,
            Block::Data { dst_start, data } => 0 <= dst_start && dst_start + data.len()
                <= usize::MAX,
        }
    }

    /// Whether the block reads and writes only inside a source of
    /// `source_len` bytes and a destination of `out_len` bytes.
    pub open spec fn fits(self, source_len: int, out_len: int) -> bool {
        match self {
            Block::Unchanged { .. } => true,
            Block::SourceCopy { src_start, dst_start, length } => 0 <= src_start && 0 <= dst_start
                && 0 <= length && src_start + length <= source_len && dst_start + length
                <= out_len,
            Block::TargetCopy { src_start, dst_start, length } => 0 <= src_start && 0 <= dst_start
                && 0 <= length && src_start + length <= out_len && dst_start + length <= out_len,
            Block::Data { dst_start, data } => 0 <= dst_start && dst_start + data.len() <= out_len,
        }
    }

    /// The destination after the block was applied to `out`.
    pub open spec fn apply(self, source: Seq<u8>, out: Seq<u8>) -> Seq<u8> {
        match self {
            Block::Unchanged { .. } => out,
            Block::SourceCopy { src_start, dst_start, length } => overwrite(
                out,
                dst_start,
                source.subrange(src_start, src_start + length),
            ),
            Block::TargetCopy { src_start, dst_start, length } => forward_copy(
                out,
                src_start,
                dst_start,
                length as nat,
            ),
            Block::Data { dst_start, data } => overwrite(out, dst_start, data),
        }
    }
}

impl View for BPSBlock {
    type V = Block;

    open spec fn view(&self) -> Block {
        match *self {
            BPSBlock::Unchanged { dst_start, length } => Block::Unchanged {
                dst_start: dst_start as int,
                length: length as int,
            },
            BPSBlock::SourceCopy { src_start, dst_start, length } => Block::SourceCopy {
                src_start: src_start as int,
                dst_start: dst_start as int,
                length: length as int,
            },
            BPSBlock::TargetCopy { src_start, dst_start, length } => Block::TargetCopy {
                src_start: src_start as int,
                dst_start: dst_start as int,
                length: length as int,
            },
            BPSBlock::Data { dst_start, data } => Block::Data {
                dst_start: dst_start as int,
                data: data@,
            },
        }
    }
}

/// The blocks of a vector as mathematical values.
pub open spec fn blocks_view(blocks: Seq<BPSBlock>) -> Seq<Block> {
    blocks.map_values(|b: BPSBlock| b@)
}

/// `out` with `data` written over it from position `at` on.
pub open spec fn overwrite(out: Seq<u8>, at: int, data: Seq<u8>) -> Seq<u8> {
    Seq::new(
        out.len(),
        |i: int|
            if at <= i < at + data.len() {
                data[i - at]
            } else {
                out[i]
            },
    )
}

/// `out` after `n` bytes were copied within it, one at a time and lowest
/// first, from position `from` on to position `to` on. A byte written early
/// may be read again later in the same copy.
pub open spec fn forward_copy(out: Seq<u8>, from: int, to: int, n: nat) -> Seq<u8>
    decreases n,
{
    if n == 0 {
        out
    } else {
        let before = forward_copy(out, from, to, (n - 1) as nat);
        before.update(to + n - 1, before[from + n - 1])
    }
}

/// The destination after all of `blocks` were applied to `out`, first to last.
pub open spec fn apply_blocks(blocks: Seq<Block>, source: Seq<u8>, out: Seq<u8>) -> Seq<u8>
    decreases blocks.len(),
{
    if blocks.len() == 0 {
        out
    } else {
        blocks.last().apply(source, apply_blocks(blocks.drop_last(), source, out))
    }
}

/// Whether every one of `blocks` fits the two buffers.
pub open spec fn all_fit(blocks: Seq<Block>, source_len: int, out_len: int) -> bool {
    forall|i: int| 0 <= i < blocks.len() ==> (#[trigger] blocks[i]).fits(source_len, out_len)
}

/// Applying a block keeps the destination's length.
pub proof fn lemma_apply_len(b: Block, source: Seq<u8>, out: Seq<u8>)
    requires
        b.fits(source.len() as int, out.len() as int),
    ensures
        b.apply(source, out).len() == out.len(),
{
    if let Block::TargetCopy { src_start, dst_start, length } = b {
        lemma_forward_copy_len(out, src_start, dst_start, length as nat);
    }
}

/// A forward copy inside the buffer keeps its length.
pub proof fn lemma_forward_copy_len(out: Seq<u8>, from: int, to: int, n: nat)
    requires
        0 <= to,
        to + n <= out.len(),
    ensures
        forward_copy(out, from, to, n).len() == out.len(),
    decreases n,
{
    if n > 0 {
        lemma_forward_copy_len(out, from, to, (n - 1) as nat);
    }
}

/// Applying blocks that fit keeps the destination's length.
pub proof fn lemma_apply_blocks_len(blocks: Seq<Block>, source: Seq<u8>, out: Seq<u8>)
    requires
        all_fit(blocks, source.len() as int, out.len() as int),
    ensures
        apply_blocks(blocks, source, out).len() == out.len(),
    decreases blocks.len(),
{
    if blocks.len() > 0 {
        lemma_apply_blocks_len(blocks.drop_last(), source, out);
        lemma_apply_len(blocks.last(), source, apply_blocks(blocks.drop_last(), source, out));
    }
}

} // verus!
