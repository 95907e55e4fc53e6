//! What holds of the codec as a whole: a patch that the encoder writes is read
//! back and applied to the target it was made for; it writes nowhere but in
//! the ranges it was given; and it never copies from its own output.

use crate::bps::block::{all_fit, apply_blocks, forward_copy, lemma_forward_copy_len, Block};
use crate::bps::checksum::{crc32, le_bytes};
use crate::bps::encoder::{
    encodable, encoded_blocks, encoded_patch, gap, keeps_to, literal, outside, range_blocks,
    ranges_blocks, scan_blocks, valid_ranges, within, MIN_MATCH,
};
use crate::bps::error::FormatError;
use crate::bps::format::{
    all_recordable, cursors_after, cursors_after_block, header, kept, lemma_read_block_span,
    lemma_read_written, magic, read_block, read_blocks, read_patch, recordable, records, Cursors,
    TRAILER_LEN,
};
use crate::bps::index::LongestMatchIndex;
use crate::bps::number::{lemma_read_groups_span, read_number, MAX_GROUPS};
use crate::bps::patch::{lemma_modified_ranges, modified_ranges};
use vstd::prelude::*;

verus! {

/// Whether applying `block` leaves the bytes of `target` in its span, given
/// that an unchanged span holds them already: written data are the target's
/// bytes there, and a copy reads from the source what the target holds there.
/// A copy from the destination itself never does.
pub open spec fn reproduces(block: Block, source: Seq<u8>, target: Seq<u8>) -> bool {
    &&& 0 <= block.dst_start()
    &&& 0 <= block.length()
    &&& block.dst_end() <= target.len()
    &&& match block {
        Block::Unchanged { .. } => true,
        Block::Data { dst_start, data } => data == target.subrange(
            dst_start,
            dst_start + data.len(),
        ),
        Block::SourceCopy { src_start, dst_start, length } => {
            &&& 0 <= src_start
            &&& src_start + length <= source.len()
            &&& source.subrange(src_start, src_start + length) == target.subrange(
                dst_start,
                dst_start + length,
            )
        },
        Block::TargetCopy { .. } => false,
    }
}

/// Whether every one of `blocks` reproduces the target and keeps to `ranges`.
pub open spec fn all_sound(
    blocks: Seq<Block>,
    source: Seq<u8>,
    target: Seq<u8>,
    ranges: Seq<(usize, usize)>,
) -> bool {
    forall|i: int|
        0 <= i < blocks.len() ==> reproduces(#[trigger] blocks[i], source, target) && keeps_to(
            blocks[i],
            ranges,
        )
}

/// Whether the cursors lie where an encoder's cursors can lie.
pub open spec fn encoder_cursors(cur: Cursors, source_len: int, target_len: int) -> bool {
    &&& 0 <= cur.output_pos <= target_len
    &&& 0 <= cur.src_pos <= source_len
    &&& 0 <= cur.dst_pos
}

/// Blocks that can be written, followed by blocks that can be written from
/// where the first ones end, can be written.
pub proof fn lemma_recordable_concat(first: Seq<Block>, second: Seq<Block>, cur: Cursors)
    requires
        all_recordable(first, cur),
        all_recordable(second, cursors_after(first, cur)),
    ensures
        all_recordable(first + second, cur),
        cursors_after(first + second, cur) == cursors_after(second, cursors_after(first, cur)),
    decreases second.len(),
{
    if second.len() == 0 {
        assert(first + second =~= first);
    } else {
        lemma_recordable_concat(first, second.drop_last(), cur);
        assert((first + second).drop_last() =~= first + second.drop_last());
        assert((first + second).last() == second.last());
    }
}

/// One block that can be written makes a sequence that can be written.
pub proof fn lemma_recordable_one(block: Block, cur: Cursors)
    requires
        recordable(block, cur),
    ensures
        all_recordable(seq![block], cur),
        cursors_after(seq![block], cur) == cursors_after_block(block, cur),
{
    let one = seq![block];
    assert(one.drop_last() =~= Seq::<Block>::empty());
    assert(one.last() == block);
    assert(all_recordable(one.drop_last(), cur));
    assert(cursors_after(one.drop_last(), cur) == cur);
}

/// Sequences of sound blocks make a sequence of sound blocks.
pub proof fn lemma_sound_concat(
    first: Seq<Block>,
    second: Seq<Block>,
    source: Seq<u8>,
    target: Seq<u8>,
    ranges: Seq<(usize, usize)>,
)
    requires
        all_sound(first, source, target, ranges),
        all_sound(second, source, target, ranges),
    ensures
        all_sound(first + second, source, target, ranges),
{
    let both = first + second;
    assert forall|i: int| 0 <= i < both.len() implies reproduces(
        #[trigger] both[i],
        source,
        target,
    ) && keeps_to(both[i], ranges) by {
        if i < first.len() {
            assert(both[i] == first[i]);
        } else {
            assert(both[i] == second[i - first.len()]);
        }
    }
}

/// The block for bytes that are written out from `pending` up to `to`, within
/// the `k`-th range, can be written and is sound.
pub proof fn lemma_literal(
    source: Seq<u8>,
    target: Seq<u8>,
    ranges: Seq<(usize, usize)>,
    k: int,
    to: int,
    cur: Cursors,
)
    requires
        target.len() <= usize::MAX / 4,
        encoder_cursors(cur, source.len() as int, target.len() as int),
        0 <= k < ranges.len(),
        ranges[k].0 <= cur.output_pos <= to <= ranges[k].1 <= target.len(),
    ensures
        ({
            let blocks = literal(target, cur.output_pos, to);
            let after = cursors_after(blocks, cur);
            &&& all_recordable(blocks, cur)
            &&& all_sound(blocks, source, target, ranges)
            &&& after == Cursors { output_pos: to, ..cur }
        }),
{
    if cur.output_pos < to {
        let block = Block::Data {
            dst_start: cur.output_pos,
            data: target.subrange(cur.output_pos, to),
        };
        lemma_recordable_one(block, cur);
        assert(within(block, ranges[k]));
    }
}

/// The blocks for the rest of the `k`-th range can be written, are sound, and
/// account for the target up to the end of the range.
pub proof fn lemma_scan_blocks<I: LongestMatchIndex>(
    index: &I,
    target: Seq<u8>,
    ranges: Seq<(usize, usize)>,
    k: int,
    pos: int,
    cur: Cursors,
)
    requires
        index.source().len() <= usize::MAX / 2,
        target.len() <= usize::MAX / 4,
        encoder_cursors(cur, index.source().len() as int, target.len() as int),
        0 <= k < ranges.len(),
        ranges[k].0 <= cur.output_pos <= pos <= ranges[k].1 <= target.len(),
    ensures
        ({
            let blocks = scan_blocks(index, target, cur.output_pos, pos, ranges[k].1 as int);
            let after = cursors_after(blocks, cur);
            &&& all_recordable(blocks, cur)
            &&& all_sound(blocks, index.source(), target, ranges)
            &&& encoder_cursors(after, index.source().len() as int, target.len() as int)
            &&& after.output_pos == ranges[k].1
        }),
    decreases ranges[k].1 - pos,
{
    let source = index.source();
    let end = ranges[k].1 as int;
    let pending = cur.output_pos;
    if pos >= end {
        lemma_literal(source, target, ranges, k, end, cur);
    } else {
        let query = target.subrange(pos, end);
        let found = index.longest_match(query);
        index.lemma_longest_match(query);
        if found.1 >= MIN_MATCH {
            let waiting = literal(target, pending, pos);
            lemma_literal(source, target, ranges, k, pos, cur);
            let cur1 = Cursors { output_pos: pos, ..cur };
            let copy = Block::SourceCopy {
                src_start: found.0 as int,
                dst_start: pos,
                length: found.1 as int,
            };
            assert(query.subrange(0, found.1 as int) =~= target.subrange(pos, pos + found.1));
            assert(recordable(copy, cur1));
            lemma_recordable_one(copy, cur1);
            assert(within(copy, ranges[k]));
            assert(all_sound(seq![copy], source, target, ranges));
            let cur2 = cursors_after_block(copy, cur1);
            let rest = scan_blocks(index, target, pos + found.1, pos + found.1, end);
            lemma_scan_blocks(index, target, ranges, k, pos + found.1, cur2);
            lemma_recordable_concat(waiting, seq![copy], cur);
            lemma_sound_concat(waiting, seq![copy], source, target, ranges);
            lemma_recordable_concat(waiting + seq![copy], rest, cur);
            lemma_sound_concat(waiting + seq![copy], rest, source, target, ranges);
        } else {
            lemma_scan_blocks(index, target, ranges, k, pos + 1, cur);
        }
    }
}

/// Positions between the end of the range before the `k`-th and the start of
/// the `k`-th, or behind the last range, lie outside all ranges.
pub proof fn lemma_between_ranges(ranges: Seq<(usize, usize)>, target_len: int, k: int, i: int)
    requires
        valid_ranges(ranges, target_len),
        0 <= k <= ranges.len(),
        k > 0 ==> ranges[k - 1].1 <= i,
        k < ranges.len() ==> i < ranges[k].0,
    ensures
        outside(ranges, i),
{
    assert forall|j: int| 0 <= j < ranges.len() implies !((#[trigger] ranges[j]).0 <= i
        < ranges[j].1) by {
        if j < k - 1 {
            assert(ranges[j].1 <= ranges[k - 1].0);
            assert(ranges[k - 1].0 <= ranges[k - 1].1);
        } else if j > k {
            assert(ranges[k].1 <= ranges[j].0);
            assert(ranges[k].0 <= ranges[k].1);
        }
    }
}

/// The block for bytes that stay as they are, before the `k`-th range or
/// behind the last, can be written and is sound.
pub proof fn lemma_gap(
    source: Seq<u8>,
    target: Seq<u8>,
    ranges: Seq<(usize, usize)>,
    k: int,
    to: int,
    cur: Cursors,
)
    requires
        target.len() <= usize::MAX / 4,
        valid_ranges(ranges, target.len() as int),
        encoder_cursors(cur, source.len() as int, target.len() as int),
        0 <= k <= ranges.len(),
        k > 0 ==> ranges[k - 1].1 <= cur.output_pos,
        cur.output_pos <= to <= target.len(),
        k < ranges.len() ==> to <= ranges[k].0,
    ensures
        ({
            let blocks = gap(cur.output_pos, to);
            let after = cursors_after(blocks, cur);
            &&& all_recordable(blocks, cur)
            &&& all_sound(blocks, source, target, ranges)
            &&& after == Cursors { output_pos: to, ..cur }
        }),
{
    if cur.output_pos < to {
        let block = Block::Unchanged { dst_start: cur.output_pos, length: to - cur.output_pos };
        lemma_recordable_one(block, cur);
        assert forall|i: int| block.dst_start() <= i < block.dst_end() implies #[trigger] outside(
            ranges,
            i,
        ) by {
            lemma_between_ranges(ranges, target.len() as int, k, i);
        }
    }
}

/// The blocks for the ranges from the `k`-th on can be written, are sound,
/// and account for the target up to its end.
pub proof fn lemma_ranges_blocks<I: LongestMatchIndex>(
    index: &I,
    target: Seq<u8>,
    ranges: Seq<(usize, usize)>,
    k: int,
    cur: Cursors,
)
    requires
        encodable(index.source().len() as int, target.len() as int, ranges),
        encoder_cursors(cur, index.source().len() as int, target.len() as int),
        0 <= k <= ranges.len(),
        k > 0 ==> ranges[k - 1].1 == cur.output_pos,
        k == 0 ==> cur.output_pos == 0,
    ensures
        ({
            let blocks = ranges_blocks(index, target, ranges, k, cur.output_pos);
            let after = cursors_after(blocks, cur);
            &&& all_recordable(blocks, cur)
            &&& all_sound(blocks, index.source(), target, ranges)
            &&& after.output_pos == target.len()
        }),
    decreases ranges.len() - k,
{
    let source = index.source();
    if k >= ranges.len() {
        lemma_gap(source, target, ranges, k, target.len() as int, cur);
    } else {
        let start = ranges[k].0 as int;
        let end = ranges[k].1 as int;
        if k > 0 {
            assert(ranges[k - 1].1 <= ranges[k].0);
        }
        let before = gap(cur.output_pos, start);
        lemma_gap(source, target, ranges, k, start, cur);
        let cur1 = Cursors { output_pos: start, ..cur };
        let scanned = scan_blocks(index, target, start, start, end);
        lemma_scan_blocks(index, target, ranges, k, start, cur1);
        lemma_recordable_concat(before, scanned, cur);
        lemma_sound_concat(before, scanned, source, target, ranges);
        let here = before + scanned;
        assert(here == range_blocks(index, target, cur.output_pos, start, end));
        let cur2 = cursors_after(here, cur);
        let rest = ranges_blocks(index, target, ranges, k + 1, end);
        lemma_ranges_blocks(index, target, ranges, k + 1, cur2);
        lemma_recordable_concat(here, rest, cur);
        lemma_sound_concat(here, rest, source, target, ranges);
    }
}

/// Whether `dest` holds the bytes of `target` wherever `ranges` do not reach.
pub open spec fn agrees_outside(
    dest: Seq<u8>,
    target: Seq<u8>,
    ranges: Seq<(usize, usize)>,
) -> bool {
    &&& dest.len() == target.len()
    &&& forall|i: int|
        0 <= i < target.len() && #[trigger] outside(ranges, i) ==> dest[i] == target[i]
}

/// Sound blocks fit a source and a destination of the right lengths.
pub proof fn lemma_sound_fit(
    blocks: Seq<Block>,
    source: Seq<u8>,
    target: Seq<u8>,
    ranges: Seq<(usize, usize)>,
)
    requires
        all_sound(blocks, source, target, ranges),
    ensures
        all_fit(blocks, source.len() as int, target.len() as int),
{
    assert forall|i: int| 0 <= i < blocks.len() implies (#[trigger] blocks[i]).fits(
        source.len() as int,
        target.len() as int,
    ) by {
        assert(reproduces(blocks[i], source, target));
    }
}

/// `dest` with the bytes of `target` laid over it inside `ranges`.
pub open spec fn overlaid(dest: Seq<u8>, target: Seq<u8>, ranges: Seq<(usize, usize)>) -> Seq<u8> {
    Seq::new(
        target.len(),
        |i: int|
            if outside(ranges, i) {
                dest[i]
            } else {
                target[i]
            },
    )
}

/// Sound blocks that account for the target from its start on, applied to a
/// destination of the target's length, lay the target's bytes over it inside
/// the ranges as far as they account for the target, and leave all else.
pub proof fn lemma_apply_sound(
    blocks: Seq<Block>,
    source: Seq<u8>,
    target: Seq<u8>,
    ranges: Seq<(usize, usize)>,
    dest: Seq<u8>,
)
    requires
        all_recordable(blocks, Cursors::start()),
        all_sound(blocks, source, target, ranges),
        dest.len() == target.len(),
    ensures
        ({
            let out = apply_blocks(blocks, source, dest);
            let done = cursors_after(blocks, Cursors::start()).output_pos;
            &&& out.len() == dest.len()
            &&& 0 <= done <= target.len()
            &&& forall|i: int|
                0 <= i < done ==> #[trigger] out[i] == overlaid(dest, target, ranges)[i]
            &&& forall|i: int| done <= i < out.len() ==> #[trigger] out[i] == dest[i]
        }),
    decreases blocks.len(),
{
    if blocks.len() > 0 {
        let init = blocks.drop_last();
        let block = blocks.last();
        assert forall|i: int| 0 <= i < init.len() implies reproduces(
            #[trigger] init[i],
            source,
            target,
        ) && keeps_to(init[i], ranges) by {
            assert(init[i] == blocks[i]);
        }
        lemma_apply_sound(init, source, target, ranges, dest);
        let before = apply_blocks(init, source, dest);
        let from = cursors_after(init, Cursors::start()).output_pos;
        let out = block.apply(source, before);
        let wanted = overlaid(dest, target, ranges);
        assert(reproduces(block, source, target) && keeps_to(block, ranges));
        assert(block.dst_start() == from);
        let done = block.dst_end();
        if block is Unchanged {
            assert forall|i: int| 0 <= i < done implies #[trigger] out[i] == wanted[i] by {
                if i >= from {
                    assert(outside(ranges, i));
                }
            }
        } else {
            let k = choose|k: int| 0 <= k < ranges.len() && within(block, #[trigger] ranges[k]);
            assert forall|i: int| 0 <= i < done implies #[trigger] out[i] == wanted[i] by {
                if i >= from {
                    assert(ranges[k].0 <= i < ranges[k].1);
                    assert(!outside(ranges, i));
                    match block {
                        Block::Data { data, .. } => {
                            assert(data[i - from] == target.subrange(from, done)[i - from]);
                        },
                        Block::SourceCopy { src_start, length, .. } => {
                            assert(source.subrange(src_start, src_start + length)[i - from]
                                == target.subrange(from, done)[i - from]);
                        },
                        _ => {},
                    }
                }
            }
        }
    }
}

/// Blocks that leave the destination unchanged can be left out.
pub proof fn lemma_apply_kept(blocks: Seq<Block>, source: Seq<u8>, dest: Seq<u8>)
    ensures
        apply_blocks(kept(blocks), source, dest) == apply_blocks(blocks, source, dest),
        forall|i: int|
            0 <= i < kept(blocks).len() ==> exists|j: int|
                0 <= j < blocks.len() && #[trigger] kept(blocks)[i] == #[trigger] blocks[j],
    decreases blocks.len(),
{
    if blocks.len() > 0 {
        let init = blocks.drop_last();
        lemma_apply_kept(init, source, dest);
        if !(blocks.last() is Unchanged) {
            assert(kept(blocks).drop_last() =~= kept(init));
        }
        assert forall|i: int| 0 <= i < kept(blocks).len() implies exists|j: int|
            0 <= j < blocks.len() && #[trigger] kept(blocks)[i] == #[trigger] blocks[j] by {
            if i < kept(init).len() {
                let j = choose|j: int| 0 <= j < init.len() && kept(init)[i] == init[j];
                assert(kept(blocks)[i] == blocks[j]);
            } else {
                assert(kept(blocks)[i] == blocks[blocks.len() - 1]);
            }
        }
    }
}

/// The patch that the encoder writes is read back as those of its blocks that
/// change the destination.
pub proof fn lemma_read_encoded<I: LongestMatchIndex>(
    index: &I,
    target: Seq<u8>,
    ranges: Seq<(usize, usize)>,
)
    requires
        encodable(index.source().len() as int, target.len() as int, ranges),
    ensures
        read_patch(encoded_patch(index, target, ranges)) == Ok::<Seq<Block>, FormatError>(
            kept(encoded_blocks(index, target, ranges)),
        ),
{
    let source = index.source();
    let blocks = encoded_blocks(index, target, ranges);
    lemma_ranges_blocks(index, target, ranges, 0, Cursors::start());
    let body = header(source.len() as usize, target.len() as usize) + records(
        blocks,
        Cursors::start(),
    );
    let checked = body + le_bytes(crc32(source)) + le_bytes(crc32(target));
    let trailer = le_bytes(crc32(source)) + le_bytes(crc32(target)) + le_bytes(crc32(checked));
    assert(encoded_patch(index, target, ranges) =~= body + trailer);
    lemma_read_written(source.len() as usize, target.len() as usize, blocks, trailer);
}

/// What an encoded patch does. Take any target, any valid ranges of it, and
/// any destination of the target's length. Then the patch that the encoder
/// writes can be decoded, each of its blocks fits the source and the
/// destination, and applying them lays the target's bytes over the
/// destination inside the ranges and leaves every other byte as it was.
pub proof fn theorem_effect<I: LongestMatchIndex>(
    index: &I,
    target: Seq<u8>,
    ranges: Seq<(usize, usize)>,
    dest: Seq<u8>,
)
    requires
        encodable(index.source().len() as int, target.len() as int, ranges),
        dest.len() == target.len(),
    ensures
        read_patch(encoded_patch(index, target, ranges)) is Ok,
        all_fit(
            read_patch(encoded_patch(index, target, ranges))->Ok_0,
            index.source().len() as int,
            dest.len() as int,
        ),
        apply_blocks(read_patch(encoded_patch(index, target, ranges))->Ok_0, index.source(), dest)
            == overlaid(dest, target, ranges),
{
    let source = index.source();
    let blocks = encoded_blocks(index, target, ranges);
    lemma_read_encoded(index, target, ranges);
    lemma_ranges_blocks(index, target, ranges, 0, Cursors::start());
    lemma_apply_sound(blocks, source, target, ranges, dest);
    lemma_sound_fit(blocks, source, target, ranges);
    lemma_apply_kept(blocks, source, dest);
    assert(apply_blocks(blocks, source, dest) =~= overlaid(dest, target, ranges));
    let read = kept(blocks);
    assert forall|i: int| 0 <= i < read.len() implies (#[trigger] read[i]).fits(
        source.len() as int,
        dest.len() as int,
    ) by {
        let j = choose|j: int| 0 <= j < blocks.len() && read[i] == blocks[j];
        assert(blocks[j].fits(source.len() as int, target.len() as int));
    }
}

/// Encoding, decoding and applying lead to the target. Take any target, any
/// valid ranges of it, and any destination of the target's length that holds
/// the target's bytes wherever the ranges do not reach (the source, cut or
/// padded to that length, is one if the ranges cover every byte in which it
/// differs from the target). Then the patch that the encoder writes can be
/// decoded, each of its blocks fits the source and the destination, and
/// applying them yields the target.
pub proof fn theorem_round_trip<I: LongestMatchIndex>(
    index: &I,
    target: Seq<u8>,
    ranges: Seq<(usize, usize)>,
    dest: Seq<u8>,
)
    requires
        encodable(index.source().len() as int, target.len() as int, ranges),
        agrees_outside(dest, target, ranges),
    ensures
        read_patch(encoded_patch(index, target, ranges)) is Ok,
        all_fit(
            read_patch(encoded_patch(index, target, ranges))->Ok_0,
            index.source().len() as int,
            dest.len() as int,
        ),
        apply_blocks(read_patch(encoded_patch(index, target, ranges))->Ok_0, index.source(), dest)
            == target,
{
    theorem_effect(index, target, ranges, dest);
    assert(overlaid(dest, target, ranges) =~= target);
}

/// Patches over ranges that do not meet can be laid over one another, in
/// either order: the result holds the first target's bytes inside the first
/// ranges, the second target's bytes inside the second ranges, and the
/// destination's own bytes everywhere else.
pub proof fn theorem_layering<I: LongestMatchIndex>(
    index: &I,
    first_target: Seq<u8>,
    first_ranges: Seq<(usize, usize)>,
    second_target: Seq<u8>,
    second_ranges: Seq<(usize, usize)>,
    dest: Seq<u8>,
)
    requires
        encodable(index.source().len() as int, first_target.len() as int, first_ranges),
        encodable(index.source().len() as int, second_target.len() as int, second_ranges),
        dest.len() == first_target.len(),
        dest.len() == second_target.len(),
        forall|i: int|
            0 <= i < dest.len() ==> #[trigger] outside(first_ranges, i) || outside(
                second_ranges,
                i,
            ),
    ensures
        ({
            let source = index.source();
            let first = read_patch(encoded_patch(index, first_target, first_ranges))->Ok_0;
            let second = read_patch(encoded_patch(index, second_target, second_ranges))->Ok_0;
            let one_way = apply_blocks(second, source, apply_blocks(first, source, dest));
            let other_way = apply_blocks(first, source, apply_blocks(second, source, dest));
            &&& one_way == other_way
            &&& one_way.len() == dest.len()
            &&& forall|i: int|
                0 <= i < dest.len() ==> #[trigger] one_way[i] == if !outside(first_ranges, i) {
                    first_target[i]
                } else if !outside(second_ranges, i) {
                    second_target[i]
                } else {
                    dest[i]
                }
        }),
{
    let source = index.source();
    let first = read_patch(encoded_patch(index, first_target, first_ranges))->Ok_0;
    let second = read_patch(encoded_patch(index, second_target, second_ranges))->Ok_0;
    theorem_effect(index, first_target, first_ranges, dest);
    theorem_effect(index, second_target, second_ranges, dest);
    let after_first = apply_blocks(first, source, dest);
    let after_second = apply_blocks(second, source, dest);
    theorem_effect(index, second_target, second_ranges, after_first);
    theorem_effect(index, first_target, first_ranges, after_second);
    let one_way = apply_blocks(second, source, after_first);
    let other_way = apply_blocks(first, source, after_second);
    assert forall|i: int| 0 <= i < dest.len() implies #[trigger] one_way[i] == if !outside(
        first_ranges,
        i,
    ) {
        first_target[i]
    } else if !outside(second_ranges, i) {
        second_target[i]
    } else {
        dest[i]
    } by {
        assert(outside(first_ranges, i) || outside(second_ranges, i));
    }
    assert forall|i: int| 0 <= i < dest.len() implies one_way[i] == other_way[i] by {
        assert(outside(first_ranges, i) || outside(second_ranges, i));
    }
    assert(one_way =~= other_way);
}

/// `source` cut, or padded with `fill`, to `len` bytes.
pub open spec fn fitted(source: Seq<u8>, len: nat, fill: u8) -> Seq<u8> {
    Seq::new(
        len,
        |i: int|
            if i < source.len() {
                source[i]
            } else {
                fill
            },
    )
}

/// Where the ranges cover every byte in which the source, cut or padded to
/// the length of the target, differs from the target, the patch that the
/// encoder writes, decoded and applied to the source so cut or padded,
/// yields the target.
pub proof fn theorem_round_trip_from_source<I: LongestMatchIndex>(
    index: &I,
    target: Seq<u8>,
    ranges: Seq<(usize, usize)>,
    fill: u8,
)
    requires
        encodable(index.source().len() as int, target.len() as int, ranges),
        forall|i: int|
            0 <= i < target.len() && fitted(index.source(), target.len(), fill)[i] != target[i]
                ==> !#[trigger] outside(ranges, i),
    ensures
        read_patch(encoded_patch(index, target, ranges)) is Ok,
        all_fit(
            read_patch(encoded_patch(index, target, ranges))->Ok_0,
            index.source().len() as int,
            target.len() as int,
        ),
        apply_blocks(
            read_patch(encoded_patch(index, target, ranges))->Ok_0,
            index.source(),
            fitted(index.source(), target.len(), fill),
        ) == target,
{
    theorem_round_trip(index, target, ranges, fitted(index.source(), target.len(), fill));
}

/// The encoder writes only within the ranges. Every block that it writes and
/// that changes the destination has its span in one of the ranges; every
/// block that it writes and that leaves its span unchanged has it outside
/// them all; and every block that the decoder finds in the written patch has
/// its span in one of the ranges.
pub proof fn theorem_writes_within_ranges<I: LongestMatchIndex>(
    index: &I,
    target: Seq<u8>,
    ranges: Seq<(usize, usize)>,
)
    requires
        encodable(index.source().len() as int, target.len() as int, ranges),
    ensures
        forall|i: int|
            0 <= i < encoded_blocks(index, target, ranges).len() ==> keeps_to(
                #[trigger] encoded_blocks(index, target, ranges)[i],
                ranges,
            ),
        read_patch(encoded_patch(index, target, ranges)) is Ok,
        forall|i: int|
            0 <= i < read_patch(encoded_patch(index, target, ranges))->Ok_0.len() ==> exists|
                k: int,
            |
                0 <= k < ranges.len() && within(
                    #[trigger] read_patch(encoded_patch(index, target, ranges))->Ok_0[i],
                    #[trigger] ranges[k],
                ),
{
    let blocks = encoded_blocks(index, target, ranges);
    lemma_ranges_blocks(index, target, ranges, 0, Cursors::start());
    lemma_read_encoded(index, target, ranges);
    assert forall|i: int| 0 <= i < blocks.len() implies keeps_to(#[trigger] blocks[i], ranges) by {
        assert(reproduces(blocks[i], index.source(), target));
    }
    let read = kept(blocks);
    lemma_kept_changes(blocks);
    assert forall|i: int| 0 <= i < read.len() implies exists|k: int|
        0 <= k < ranges.len() && within(#[trigger] read[i], #[trigger] ranges[k]) by {
        let j = choose|j: int| 0 <= j < blocks.len() && read[i] == blocks[j];
        assert(keeps_to(blocks[j], ranges));
        assert(!(read[i] is Unchanged));
    }
}

/// The ranges that the decoded patch reports as modified lie within the
/// ranges that the encoder was given.
pub proof fn theorem_modified_within_ranges<I: LongestMatchIndex>(
    index: &I,
    target: Seq<u8>,
    ranges: Seq<(usize, usize)>,
)
    requires
        encodable(index.source().len() as int, target.len() as int, ranges),
    ensures
        read_patch(encoded_patch(index, target, ranges)) is Ok,
        forall|i: int|
            0 <= i < modified_ranges(read_patch(encoded_patch(index, target, ranges))->Ok_0).len()
                ==> exists|k: int|
                0 <= k < ranges.len() && (#[trigger] ranges[k]).0 <= (#[trigger] modified_ranges(
                    read_patch(encoded_patch(index, target, ranges))->Ok_0,
                )[i]).0 && modified_ranges(
                    read_patch(encoded_patch(index, target, ranges))->Ok_0,
                )[i].1 <= ranges[k].1,
{
    theorem_writes_within_ranges(index, target, ranges);
    let read = read_patch(encoded_patch(index, target, ranges))->Ok_0;
    let modified = modified_ranges(read);
    lemma_modified_ranges(read);
    assert forall|i: int| 0 <= i < modified.len() implies exists|k: int|
        0 <= k < ranges.len() && (#[trigger] ranges[k]).0 <= (#[trigger] modified[i]).0
            && modified[i].1 <= ranges[k].1 by {
        let j = choose|j: int|
            0 <= j < read.len() && modified[i] == (
                (#[trigger] read[j]).dst_start(),
                read[j].dst_end(),
            );
        let k = choose|k: int| 0 <= k < ranges.len() && within(read[j], #[trigger] ranges[k]);
        assert(ranges[k].0 <= modified[i].0 && modified[i].1 <= ranges[k].1);
    }
}

/// The blocks that are kept are blocks of the sequence, and none of them
/// leaves the destination unchanged.
pub proof fn lemma_kept_changes(blocks: Seq<Block>)
    ensures
        forall|i: int| 0 <= i < kept(blocks).len() ==> !(#[trigger] kept(blocks)[i] is Unchanged),
        forall|i: int|
            0 <= i < kept(blocks).len() ==> exists|j: int|
                0 <= j < blocks.len() && #[trigger] kept(blocks)[i] == #[trigger] blocks[j],
    decreases blocks.len(),
{
    lemma_apply_kept(blocks, Seq::empty(), Seq::empty());
    if blocks.len() > 0 {
        lemma_kept_changes(blocks.drop_last());
    }
}

/// Blocks that keep to the ranges, as far as they fit, leave every byte
/// outside the ranges as it was, whatever the source and the destination.
pub proof fn lemma_apply_keeps_outside(
    blocks: Seq<Block>,
    ranges: Seq<(usize, usize)>,
    source: Seq<u8>,
    dest: Seq<u8>,
)
    requires
        forall|i: int| 0 <= i < blocks.len() ==> keeps_to(#[trigger] blocks[i], ranges),
        forall|i: int| 0 <= i < blocks.len() ==> !(#[trigger] blocks[i] is TargetCopy),
        all_fit(blocks, source.len() as int, dest.len() as int),
    ensures
        apply_blocks(blocks, source, dest).len() == dest.len(),
        forall|i: int|
            0 <= i < dest.len() && outside(ranges, i) ==> #[trigger] apply_blocks(
                blocks,
                source,
                dest,
            )[i] == dest[i],
    decreases blocks.len(),
{
    if blocks.len() > 0 {
        let init = blocks.drop_last();
        let block = blocks.last();
        assert forall|i: int| 0 <= i < init.len() implies keeps_to(#[trigger] init[i], ranges)
            && !(init[i] is TargetCopy) && init[i].fits(source.len() as int, dest.len() as int) by {
            assert(init[i] == blocks[i]);
        }
        lemma_apply_keeps_outside(init, ranges, source, dest);
        let before = apply_blocks(init, source, dest);
        let out = block.apply(source, before);
        assert(keeps_to(block, ranges) && block.fits(source.len() as int, dest.len() as int));
        if !(block is Unchanged) {
            let k = choose|k: int| 0 <= k < ranges.len() && within(block, #[trigger] ranges[k]);
            assert forall|i: int| 0 <= i < dest.len() && outside(ranges, i) implies #[trigger] out[i]
                == dest[i] by {
                assert(!(ranges[k].0 <= i < ranges[k].1));
            }
        }
    }
}

/// Bytes outside the ranges are left alone. Apply the patch that the encoder
/// writes, or any number of its first blocks, to any source and any
/// destination that they fit: every byte of the destination outside the
/// ranges stays as it was. So a source that differs only inside the ranges
/// yields the same bytes outside them.
pub proof fn theorem_leaves_outside_alone<I: LongestMatchIndex>(
    index: &I,
    target: Seq<u8>,
    ranges: Seq<(usize, usize)>,
    other_source: Seq<u8>,
    dest: Seq<u8>,
    n: int,
)
    requires
        encodable(index.source().len() as int, target.len() as int, ranges),
        read_patch(encoded_patch(index, target, ranges)) is Ok,
        0 <= n <= read_patch(encoded_patch(index, target, ranges))->Ok_0.len(),
        all_fit(
            read_patch(encoded_patch(index, target, ranges))->Ok_0.take(n),
            other_source.len() as int,
            dest.len() as int,
        ),
    ensures
        forall|i: int|
            0 <= i < dest.len() && outside(ranges, i) ==> #[trigger] apply_blocks(
                read_patch(encoded_patch(index, target, ranges))->Ok_0.take(n),
                other_source,
                dest,
            )[i] == dest[i],
{
    let read = read_patch(encoded_patch(index, target, ranges))->Ok_0;
    theorem_writes_within_ranges(index, target, ranges);
    theorem_never_copies_from_target(index, target, ranges);
    let first = read.take(n);
    assert forall|i: int| 0 <= i < first.len() implies keeps_to(#[trigger] first[i], ranges) && !(
    first[i] is TargetCopy) by {
        assert(first[i] == read[i]);
        let k = choose|k: int| 0 <= k < ranges.len() && within(read[i], #[trigger] ranges[k]);
        lemma_kept_changes(encoded_blocks(index, target, ranges));
        lemma_read_encoded(index, target, ranges);
        assert(!(read[i] is Unchanged));
    }
    lemma_apply_keeps_outside(first, ranges, other_source, dest);
}

/// A patch applied to another source than the one it was made for still
/// yields the target outside the ranges, as long as that source, or whatever
/// destination the patch is applied to, holds the target's bytes there.
pub proof fn theorem_other_source<I: LongestMatchIndex>(
    index: &I,
    target: Seq<u8>,
    ranges: Seq<(usize, usize)>,
    other_source: Seq<u8>,
    dest: Seq<u8>,
)
    requires
        encodable(index.source().len() as int, target.len() as int, ranges),
        agrees_outside(dest, target, ranges),
        read_patch(encoded_patch(index, target, ranges)) is Ok,
        all_fit(
            read_patch(encoded_patch(index, target, ranges))->Ok_0,
            other_source.len() as int,
            dest.len() as int,
        ),
    ensures
        forall|i: int|
            0 <= i < target.len() && outside(ranges, i) ==> #[trigger] apply_blocks(
                read_patch(encoded_patch(index, target, ranges))->Ok_0,
                other_source,
                dest,
            )[i] == target[i],
{
    let read = read_patch(encoded_patch(index, target, ranges))->Ok_0;
    assert(read.take(read.len() as int) =~= read);
    theorem_leaves_outside_alone(index, target, ranges, other_source, dest, read.len() as int);
}

/// The encoder never writes a block that copies from the destination, and the
/// decoder finds none in the written patch.
pub proof fn theorem_never_copies_from_target<I: LongestMatchIndex>(
    index: &I,
    target: Seq<u8>,
    ranges: Seq<(usize, usize)>,
)
    requires
        encodable(index.source().len() as int, target.len() as int, ranges),
    ensures
        forall|i: int|
            0 <= i < encoded_blocks(index, target, ranges).len() ==> !(#[trigger] encoded_blocks(
                index,
                target,
                ranges,
            )[i] is TargetCopy),
        read_patch(encoded_patch(index, target, ranges)) is Ok,
        forall|i: int|
            0 <= i < read_patch(encoded_patch(index, target, ranges))->Ok_0.len() ==> !(
            #[trigger] read_patch(encoded_patch(index, target, ranges))->Ok_0[i] is TargetCopy),
{
    let blocks = encoded_blocks(index, target, ranges);
    lemma_ranges_blocks(index, target, ranges, 0, Cursors::start());
    lemma_read_encoded(index, target, ranges);
    assert forall|i: int| 0 <= i < blocks.len() implies !(#[trigger] blocks[i] is TargetCopy) by {
        assert(reproduces(blocks[i], index.source(), target));
    }
    let read = kept(blocks);
    lemma_kept_changes(blocks);
    assert forall|i: int| 0 <= i < read.len() implies !(#[trigger] read[i] is TargetCopy) by {
        let j = choose|j: int| 0 <= j < blocks.len() && read[i] == blocks[j];
        assert(!(blocks[j] is TargetCopy));
    }
}

/// A forward copy leaves alone what lies outside the span it writes.
pub proof fn lemma_forward_copy_elsewhere(out: Seq<u8>, from: int, to: int, n: nat, i: int)
    requires
        0 <= to,
        to + n <= out.len(),
        0 <= i < out.len(),
        i < to || i >= to + n,
    ensures
        forward_copy(out, from, to, n).len() == out.len(),
        forward_copy(out, from, to, n)[i] == out[i],
    decreases n,
{
    if n > 0 {
        lemma_forward_copy_elsewhere(out, from, to, (n - 1) as nat, i);
    }
}

/// A forward copy from ahead of where it writes reads only bytes that it has
/// not written: it moves the span down as it was.
pub proof fn theorem_forward_copy_from_ahead(out: Seq<u8>, from: int, to: int, n: nat, i: int)
    requires
        0 <= to <= from,
        from + n <= out.len(),
        0 <= i < n,
    ensures
        forward_copy(out, from, to, n)[to + i] == out[from + i],
    decreases n,
{
    lemma_forward_copy_len(out, from, to, (n - 1) as nat);
    if i < n - 1 {
        theorem_forward_copy_from_ahead(out, from, to, (n - 1) as nat, i);
    } else {
        lemma_forward_copy_elsewhere(out, from, to, (n - 1) as nat, from + i);
    }
}

/// A forward copy from behind where it writes reads its own output as soon
/// as it has passed the gap: the bytes between `from` and `to` are repeated
/// over and over, as in the expansion of a run.
pub proof fn theorem_forward_copy_repeats(out: Seq<u8>, from: int, to: int, n: nat, i: int)
    requires
        0 <= from < to,
        to + n <= out.len(),
        0 <= i < n,
    ensures
        forward_copy(out, from, to, n)[to + i] == out[from + i % (to - from)],
    decreases n, i,
{
    let period = to - from;
    lemma_forward_copy_len(out, from, to, (n - 1) as nat);
    if i < n - 1 {
        theorem_forward_copy_repeats(out, from, to, (n - 1) as nat, i);
    } else if i < period {
        lemma_forward_copy_elsewhere(out, from, to, (n - 1) as nat, from + i);
        assert(i % period == i) by (nonlinear_arith)
            requires
                0 <= i < period,
        ;
    } else {
        theorem_forward_copy_repeats(out, from, to, (n - 1) as nat, i - period);
        assert((i - period) % period == i % period) by (nonlinear_arith)
            requires
                0 < period <= i,
        ;
    }
}

/// Blocks that can be written lie one behind the other: each is at least one
/// byte long and begins where the one before it ends.
pub proof fn lemma_recordable_consecutive(blocks: Seq<Block>, cur: Cursors)
    requires
        all_recordable(blocks, cur),
    ensures
        forall|i: int| 0 <= i < blocks.len() ==> (#[trigger] blocks[i]).length() >= 1,
        forall|i: int| 0 < i < blocks.len() ==> (#[trigger] blocks[i]).dst_start() == blocks[i
            - 1].dst_end(),
        blocks.len() > 0 ==> blocks[0].dst_start() == cur.output_pos,
        blocks.len() > 0 ==> cursors_after(blocks, cur).output_pos == blocks.last().dst_end(),
        blocks.len() == 0 ==> cursors_after(blocks, cur).output_pos == cur.output_pos,
    decreases blocks.len(),
{
    if blocks.len() > 0 {
        let init = blocks.drop_last();
        lemma_recordable_consecutive(init, cur);
        assert forall|i: int| 0 <= i < blocks.len() implies (#[trigger] blocks[i]).length()
            >= 1 by {
            if i < init.len() {
                assert(blocks[i] == init[i]);
            }
        }
        assert forall|i: int| 0 < i < blocks.len() implies (#[trigger] blocks[i]).dst_start()
            == blocks[i - 1].dst_end() by {
            assert(blocks[i - 1] == init[i - 1]);
            if i < init.len() {
                assert(blocks[i] == init[i]);
            }
        }
        if init.len() > 0 {
            assert(blocks[0] == init[0]);
        }
    }
}

/// The blocks that the encoder writes account for every byte of the target
/// exactly once: the first begins at the start of the target, each of the
/// others where the one before it ends, and the last ends with the target.
pub proof fn theorem_encoded_blocks_cover_target<I: LongestMatchIndex>(
    index: &I,
    target: Seq<u8>,
    ranges: Seq<(usize, usize)>,
)
    requires
        encodable(index.source().len() as int, target.len() as int, ranges),
    ensures
        ({
            let blocks = encoded_blocks(index, target, ranges);
            &&& forall|i: int| 0 <= i < blocks.len() ==> (#[trigger] blocks[i]).length() >= 1
            &&& forall|i: int|
                0 < i < blocks.len() ==> (#[trigger] blocks[i]).dst_start() == blocks[i
                    - 1].dst_end()
            &&& blocks.len() > 0 ==> blocks[0].dst_start() == 0 && blocks.last().dst_end()
                == target.len()
            &&& blocks.len() == 0 ==> target.len() == 0
        }),
{
    lemma_ranges_blocks(index, target, ranges, 0, Cursors::start());
    lemma_recordable_consecutive(encoded_blocks(index, target, ranges), Cursors::start());
}

/// The blocks that are read from block records lie in ascending order and
/// apart from one another, none before the output cursor, and none is empty.
pub proof fn lemma_read_blocks_ordered(bytes: Seq<u8>, pos: int, end: int, cur: Cursors)
    requires
        read_blocks(bytes, pos, end, cur) is Ok,
    ensures
        ({
            let blocks = read_blocks(bytes, pos, end, cur)->Ok_0.0;
            &&& forall|i: int|
                0 <= i < blocks.len() ==> cur.output_pos <= (#[trigger] blocks[i]).dst_start()
                    && blocks[i].length() >= 1
            &&& forall|i: int, j: int|
                0 <= i < j < blocks.len() ==> (#[trigger] blocks[i]).dst_end() <= (
                #[trigger] blocks[j]).dst_start()
        }),
    decreases end - pos,
{
    if pos < end {
        let (block, next, after) = read_block(bytes, pos, cur)->Ok_0;
        lemma_read_block_span(bytes, pos, cur);
        lemma_read_groups_span(bytes, pos, MAX_GROUPS as nat);
        lemma_read_blocks_ordered(bytes, next, end, after);
        let rest = read_blocks(bytes, next, end, after)->Ok_0.0;
        let blocks = read_blocks(bytes, pos, end, cur)->Ok_0.0;
        assert(block.dst_start() == cur.output_pos);
        assert(after.output_pos == block.dst_end());
        assert(block.length() >= 1);
        if !(block is Unchanged) {
            assert(blocks =~= seq![block] + rest);
            assert forall|i: int| 0 <= i < blocks.len() implies cur.output_pos <= (
            #[trigger] blocks[i]).dst_start() && blocks[i].length() >= 1 by {
                if i > 0 {
                    assert(blocks[i] == rest[i - 1]);
                }
            }
            assert forall|i: int, j: int| 0 <= i < j < blocks.len() implies (
            #[trigger] blocks[i]).dst_end() <= (#[trigger] blocks[j]).dst_start() by {
                assert(blocks[j] == rest[j - 1]);
                if i > 0 {
                    assert(blocks[i] == rest[i - 1]);
                }
            }
        }
    }
}

/// The blocks of a decoded patch lie in ascending order and apart from one
/// another, and none is empty.
pub proof fn theorem_decoded_blocks_ordered(bytes: Seq<u8>)
    requires
        read_patch(bytes) is Ok,
    ensures
        forall|i: int|
            0 <= i < read_patch(bytes)->Ok_0.len() ==> 0 <= (#[trigger] read_patch(
                bytes,
            )->Ok_0[i]).dst_start() && read_patch(bytes)->Ok_0[i].length() >= 1,
        forall|i: int, j: int|
            0 <= i < j < read_patch(bytes)->Ok_0.len() ==> (#[trigger] read_patch(
                bytes,
            )->Ok_0[i]).dst_end() <= (#[trigger] read_patch(bytes)->Ok_0[j]).dst_start(),
{
    let at_target_size = read_number(bytes, 4)->Ok_0.1;
    let at_metadata_size = read_number(bytes, at_target_size)->Ok_0.1;
    let (metadata_size, at_metadata) = read_number(bytes, at_metadata_size)->Ok_0;
    lemma_read_blocks_ordered(
        bytes,
        at_metadata + metadata_size,
        bytes.len() - TRAILER_LEN,
        Cursors::start(),
    );
}

/// Bytes too few for a header and the checksums are no patch.
pub proof fn theorem_short_input_rejected(bytes: Seq<u8>)
    requires
        bytes.len() < 7 + TRAILER_LEN,
    ensures
        read_patch(bytes) is Err,
{
    if bytes.len() >= 4 && bytes.subrange(0, 4) == magic() {
        if let Ok((_, at_target_size)) = read_number(bytes, 4) {
            lemma_read_groups_span(bytes, 4, MAX_GROUPS as nat);
            if let Ok((_, at_metadata_size)) = read_number(bytes, at_target_size) {
                lemma_read_groups_span(bytes, at_target_size, MAX_GROUPS as nat);
                if read_number(bytes, at_metadata_size) is Ok {
                    lemma_read_groups_span(bytes, at_metadata_size, MAX_GROUPS as nat);
                }
            }
        }
    }
}

/// Bytes that do not begin with the magic are no patch.
pub proof fn theorem_bad_magic_rejected(bytes: Seq<u8>)
    requires
        bytes.len() >= 4,
        bytes.subrange(0, 4) != magic(),
    ensures
        read_patch(bytes) == Err::<Seq<Block>, FormatError>(FormatError::BadMagic),
{
}

/// Block records that end behind the place where the checksums begin are
/// rejected, and so are records that leave bytes over before it: a run of
/// records is read only if they end exactly there.
pub proof fn theorem_misaligned_rejected(bytes: Seq<u8>, pos: int, end: int, cur: Cursors)
    requires
        pos < end,
        read_block(bytes, pos, cur) is Ok,
    ensures
        read_block(bytes, pos, cur)->Ok_0.1 > end ==> read_blocks(bytes, pos, end, cur) == Err::<
            (Seq<Block>, Cursors),
            FormatError,
        >(FormatError::Misaligned),
        read_blocks(bytes, pos, end, cur) is Ok ==> read_blocks(
            bytes,
            read_block(bytes, pos, cur)->Ok_0.1,
            end,
            read_block(bytes, pos, cur)->Ok_0.2,
        ) is Ok,
{
}

/// A read that would go past the end of the bytes is rejected: a number cut
/// short, or data of which not all is there.
pub proof fn theorem_truncated_rejected(bytes: Seq<u8>, pos: int, cur: Cursors)
    requires
        0 <= pos <= bytes.len(),
    ensures
        read_number(bytes, bytes.len() as int) == Err::<(usize, int), FormatError>(
            FormatError::Truncated,
        ),
        read_number(bytes, pos) is Ok ==> read_number(bytes, pos)->Ok_0.1 <= bytes.len(),
        read_block(bytes, pos, cur) is Ok ==> read_block(bytes, pos, cur)->Ok_0.1 <= bytes.len(),
{
    if read_number(bytes, pos) is Ok {
        lemma_read_groups_span(bytes, pos, MAX_GROUPS as nat);
    }
    if read_block(bytes, pos, cur) is Ok {
        lemma_read_block_span(bytes, pos, cur);
    }
}

} // verus!
