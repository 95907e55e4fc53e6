//! A decoded patch and its application to a destination buffer.

use crate::bps::block::{
    all_fit, apply_blocks, blocks_view, forward_copy, overwrite, BPSBlock, Block,
};
use crate::bps::decoder::BPSPatchDecoder;
use crate::bps::error::{FormatError, RangeError};
use crate::bps::format::{lemma_read_patch_addressable, read_patch, read_patch_parts};
use vstd::prelude::*;

verus! {

/// The blocks of a patch that change the destination, in order.
#[derive(Debug)]
pub struct BPSPatch {
    blocks: Vec<BPSBlock>,
}

impl View for BPSPatch {
    type V = Seq<Block>;

    closed spec fn view(&self) -> Seq<Block> {
        blocks_view(self.blocks@)
    }
}

impl Block {
    /// Whether the block counts as a modification: any block that writes,
    /// but for a source copy that reads where it writes.
    pub open spec fn modifies(self) -> bool {
        match self {
            Block::Unchanged { .. } => false,
            Block::SourceCopy { src_start, dst_start, .. } => src_start != dst_start,
            Block::TargetCopy { .. } => true,
            Block::Data { .. } => true,
        }
    }
}

/// The destination spans of the blocks that modify, in order, each as its
/// first position and the position behind its last.
pub open spec fn modified_ranges(blocks: Seq<Block>) -> Seq<(int, int)>
    decreases blocks.len(),
{
    if blocks.len() == 0 {
        Seq::empty()
    } else {
        let before = modified_ranges(blocks.drop_last());
        let block = blocks.last();
        if block.modifies() {
            before.push((block.dst_start(), block.dst_end()))
        } else {
            before
        }
    }
}

/// Every modified range is the span of one of the blocks.
pub proof fn lemma_modified_ranges(blocks: Seq<Block>)
    ensures
        forall|i: int|
            0 <= i < modified_ranges(blocks).len() ==> exists|j: int|
                0 <= j < blocks.len() && #[trigger] modified_ranges(blocks)[i] == (
                    (#[trigger] blocks[j]).dst_start(),
                    blocks[j].dst_end(),
                ),
    decreases blocks.len(),
{
    if blocks.len() > 0 {
        let init = blocks.drop_last();
        lemma_modified_ranges(init);
        let all = modified_ranges(blocks);
        assert forall|i: int| 0 <= i < all.len() implies exists|j: int|
            0 <= j < blocks.len() && #[trigger] all[i] == (
                (#[trigger] blocks[j]).dst_start(),
                blocks[j].dst_end(),
            ) by {
            if i < modified_ranges(init).len() {
                let j = choose|j: int|
                    0 <= j < init.len() && modified_ranges(init)[i] == (
                        (#[trigger] init[j]).dst_start(),
                        init[j].dst_end(),
                    );
                assert(blocks[j] == init[j]);
            } else {
                let last = blocks[blocks.len() - 1];
                assert(all[i] == (last.dst_start(), last.dst_end()));
            }
        }
    }
}

/// Ranges of positions as pairs of integers.
pub open spec fn ranges_view(ranges: Seq<(usize, usize)>) -> Seq<(int, int)> {
    ranges.map_values(|r: (usize, usize)| (r.0 as int, r.1 as int))
}

impl BPSPatch {
    /// Every block of a patch has spans that a `usize` can hold.
    #[verifier::type_invariant]
    spec fn addressable(self) -> bool {
        forall|i: int| 0 <= i < self.blocks@.len() ==> (#[trigger] self.blocks@[i])@.addressable()
    }

    /// Decodes a serialized patch. The checksums at its end are not verified.
    pub fn new(data: Vec<u8>) -> (r: Result<Self, FormatError>)
        ensures
            match r {
                Ok(patch) => read_patch(data@) == Ok::<Seq<Block>, FormatError>(patch@),
                Err(e) => read_patch(data@) == Err::<Seq<Block>, FormatError>(e),
            },
    {
        let mut decoder = BPSPatchDecoder::new(data);
        decoder.decode()?;
        let blocks: Vec<BPSBlock> = decoder.into_blocks();
        proof {
            lemma_read_patch_addressable(data@);
            let read = read_patch(data@)->Ok_0;
            assert(read_patch_parts(data@) is Ok);
            assert(read == blocks_view(blocks@));
            assert forall|i: int| 0 <= i < blocks@.len() implies (
            #[trigger] blocks@[i])@.addressable() by {
                assert(read[i] == blocks@[i]@);
            }
        }
        Ok(BPSPatch { blocks })
    }

    /// The blocks of the patch.
    pub fn blocks(&self) -> (blocks: &Vec<BPSBlock>)
        ensures
            blocks_view(blocks@) == self@,
    {
        &self.blocks
    }

    /// Applies the blocks, first to last, to `output`, which the caller has
    /// sized to the target length and filled with what the patch leaves
    /// unchanged. Stops at the first block that reaches outside `source` or
    /// `output`: the blocks before it stay applied.
    pub fn apply(&self, source: &[u8], output: &mut [u8]) -> (r: Result<(), RangeError>)
        ensures
            final(output)@.len() == old(output)@.len(),
            match r {
                Ok(()) => {
                    &&& all_fit(self@, source@.len() as int, old(output)@.len() as int)
                    &&& final(output)@ == apply_blocks(self@, source@, old(output)@)
                },
                Err(e) => {
                    &&& e.block < self@.len()
                    &&& !self@[e.block as int].fits(source@.len() as int, old(output)@.len() as int)
                    &&& all_fit(
                        self@.take(e.block as int),
                        source@.len() as int,
                        old(output)@.len() as int,
                    )
                    &&& final(output)@ == apply_blocks(
                        self@.take(e.block as int),
                        source@,
                        old(output)@,
                    )
                },
            },
    {
        let source_len: usize = source.len();
        let out_len: usize = output.len();
        let mut i: usize = 0;
        while i < self.blocks.len()
            invariant
                i <= self.blocks@.len(),
                source_len == source@.len(),
                output@.len() == out_len,
                out_len == old(output)@.len(),
                all_fit(self@.take(i as int), source@.len() as int, out_len as int),
                output@ == apply_blocks(self@.take(i as int), source@, old(output)@),
            decreases self.blocks@.len() - i,
        {
            let ghost before = output@;
            assert(self@[i as int] == self.blocks@[i as int]@);
            assert(self@.take(i + 1).drop_last() =~= self@.take(i as int));
            match &self.blocks[i] {
                BPSBlock::Unchanged { .. } => {},
                BPSBlock::SourceCopy { src_start, dst_start, length } => {
                    let src_start: usize = *src_start;
                    let dst_start: usize = *dst_start;
                    let length: usize = *length;
                    if length > source_len || src_start > source_len - length || length
                        > out_len || dst_start > out_len - length {
                        return Err(RangeError { block: i });
                    }
                    let mut j: usize = 0;
                    while j < length
                        invariant
                            j <= length,
                            source_len == source@.len(),
                            src_start + length <= source_len,
                            dst_start + length <= out_len,
                            output@.len() == out_len,
                            output@ == overwrite(
                                before,
                                dst_start as int,
                                source@.subrange(src_start as int, src_start + j),
                            ),
                        decreases length - j,
                    {
                        output[dst_start + j] = source[src_start + j];
                        j += 1;
                        assert(output@ =~= overwrite(
                            before,
                            dst_start as int,
                            source@.subrange(src_start as int, src_start + j),
                        ));
                    }
                },
                BPSBlock::TargetCopy { src_start, dst_start, length } => {
                    let src_start: usize = *src_start;
                    let dst_start: usize = *dst_start;
                    let length: usize = *length;
                    if length > out_len || src_start > out_len - length || dst_start > out_len
                        - length {
                        return Err(RangeError { block: i });
                    }
                    let mut j: usize = 0;
                    while j < length
                        invariant
                            j <= length,
                            src_start + length <= out_len,
                            dst_start + length <= out_len,
                            output@.len() == out_len,
                            output@ == forward_copy(
                                before,
                                src_start as int,
                                dst_start as int,
                                j as nat,
                            ),
                        decreases length - j,
                    {
                        output[dst_start + j] = output[src_start + j];
                        j += 1;
                    }
                },
                BPSBlock::Data { dst_start, data } => {
                    let dst_start: usize = *dst_start;
                    let length: usize = data.len();
                    if length > out_len || dst_start > out_len - length {
                        return Err(RangeError { block: i });
                    }
                    let mut j: usize = 0;
                    while j < length
                        invariant
                            j <= length,
                            length == data@.len(),
                            dst_start + length <= out_len,
                            output@.len() == out_len,
                            output@ == overwrite(
                                before,
                                dst_start as int,
                                data@.subrange(0, j as int),
                            ),
                        decreases length - j,
                    {
                        output[dst_start + j] = data[j];
                        j += 1;
                        assert(output@ =~= overwrite(
                            before,
                            dst_start as int,
                            data@.subrange(0, j as int),
                        ));
                    }
                    assert(data@.subrange(0, length as int) =~= data@);
                },
            }
            i += 1;
        }
        assert(self@.take(i as int) =~= self@);
        Ok(())
    }

    /// The destination spans that the patch modifies, block by block.
    pub fn get_modified_ranges(&self) -> (out: Vec<(usize, usize)>)
        ensures
            ranges_view(out@) == modified_ranges(self@),
    {
        proof {
            use_type_invariant(self);
        }
        let mut out: Vec<(usize, usize)> = Vec::new();
        let mut i: usize = 0;
        while i < self.blocks.len()
            invariant
                i <= self.blocks@.len(),
                forall|k: int|
                    0 <= k < self.blocks@.len() ==> (#[trigger] self.blocks@[k])@.addressable(),
                ranges_view(out@) == modified_ranges(self@.take(i as int)),
            decreases self.blocks@.len() - i,
        {
            let ghost before = out@;
            assert(self@[i as int] == self.blocks@[i as int]@);
            assert(self@.take(i + 1).drop_last() =~= self@.take(i as int));
            match &self.blocks[i] {
                BPSBlock::Unchanged { .. } => {},
                BPSBlock::SourceCopy { src_start, dst_start, length } => {
                    if *src_start != *dst_start {
                        out.push((*dst_start, *dst_start + *length));
                    }
                },
                BPSBlock::TargetCopy { dst_start, length, .. } => {
                    out.push((*dst_start, *dst_start + *length));
                },
                BPSBlock::Data { dst_start, data } => {
                    out.push((*dst_start, *dst_start + data.len()));
                },
            }
            assert(out@ == before || ranges_view(out@) =~= ranges_view(before).push(
                (out@.last().0 as int, out@.last().1 as int),
            ));
            i += 1;
        }
        assert(self@.take(i as int) =~= self@);
        out
    }
}

} // verus!
