//! The variable-length integers of the patch format.
//!
//! A number is a run of 7-bit groups, low-order first. The last group has its
//! high bit set. Every group but the last also adds one at the next position,
//! so that each number has exactly one byte sequence.

use crate::bps::error::FormatError;
use vstd::prelude::*;

verus! {

/// The most groups a number may have.
pub const MAX_GROUPS: usize = 10;

/// The byte sequence of `n`.
pub open spec fn number_bytes(n: nat) -> Seq<u8>
    decreases n,
{
    if n < 128 {
        seq![(n + 128) as u8]
    } else {
        seq![(n % 128) as u8] + number_bytes((n / 128 - 1) as nat)
    }
}

/// Reads the number that starts at `pos`, looking at no more than `groups`
/// groups: its value and the position behind it.
pub open spec fn read_groups(bytes: Seq<u8>, pos: int, groups: nat) -> Result<
    (nat, int),
    FormatError,
>
    decreases groups,
{
    if groups == 0 {
        Err(FormatError::UnterminatedNumber)
    } else if pos < 0 || pos >= bytes.len() {
        Err(FormatError::Truncated)
    } else if bytes[pos] >= 128 {
        Ok(((bytes[pos] - 128) as nat, pos + 1))
    } else {
        match read_groups(bytes, pos + 1, (groups - 1) as nat) {
            Ok((v, next)) => Ok((bytes[pos] as nat + 128 * (v + 1), next)),
            Err(e) => Err(e),
        }
    }
}

/// Reads the number that starts at `pos` as the decoder does: at most
/// `MAX_GROUPS` groups, and a value that fits a `usize`.
pub open spec fn read_number(bytes: Seq<u8>, pos: int) -> Result<(usize, int), FormatError> {
    match read_groups(bytes, pos, MAX_GROUPS as nat) {
        Ok((v, next)) => if v <= usize::MAX {
            Ok((v as usize, next))
        } else {
            Err(FormatError::NumberTooLarge)
        },
        Err(e) => Err(e),
    }
}

/// 128 to the power `k`.
pub open spec fn pow128(k: nat) -> nat
    decreases k,
{
    if k == 0 {
        1
    } else {
        128 * pow128((k - 1) as nat)
    }
}

/// A number below `128^k` takes at most `k` bytes, and at least one.
pub proof fn lemma_number_bytes_len(n: nat, k: nat)
    requires
        k >= 1,
        n < pow128(k),
    ensures
        1 <= number_bytes(n).len() <= k,
    decreases k,
{
    if n >= 128 {
        assert(pow128(1) == 128) by {
            reveal_with_fuel(pow128, 2);
        }
        lemma_number_bytes_len((n / 128 - 1) as nat, (k - 1) as nat);
    }
}

/// Every `usize` takes at most `MAX_GROUPS` bytes.
pub proof fn lemma_number_bytes_len_usize(n: usize)
    ensures
        1 <= number_bytes(n as nat).len() <= MAX_GROUPS,
{
    assert(pow128(10) == 0x40_0000_0000_0000_0000) by {
        reveal_with_fuel(pow128, 11);
    }
    lemma_number_bytes_len(n as nat, 10);
}

/// A successful read ends behind where it began, within the bytes, and looks
/// at nothing but the bytes in between.
pub proof fn lemma_read_groups_span(bytes: Seq<u8>, pos: int, groups: nat)
    requires
        read_groups(bytes, pos, groups) is Ok,
    ensures
        0 <= pos < read_groups(bytes, pos, groups)->Ok_0.1 <= bytes.len(),
        read_groups(bytes, pos, groups)->Ok_0.1 <= pos + groups,
    decreases groups,
{
    if bytes[pos] < 128 {
        lemma_read_groups_span(bytes, pos + 1, (groups - 1) as nat);
    }
}

/// Reading what `number_bytes` wrote gives the number back, whatever stands
/// before and behind it.
pub proof fn lemma_read_number_bytes(n: nat, before: Seq<u8>, after: Seq<u8>, groups: nat)
    requires
        groups >= number_bytes(n).len(),
    ensures
        read_groups(before + number_bytes(n) + after, before.len() as int, groups) == Ok::<
            (nat, int),
            FormatError,
        >((n, (before.len() + number_bytes(n).len()) as int)),
    decreases n,
{
    let bytes = before + number_bytes(n) + after;
    let pos = before.len() as int;
    assert(bytes[pos] == number_bytes(n)[0]);
    if n >= 128 {
        let rest = (n / 128 - 1) as nat;
        let before2 = before.push((n % 128) as u8);
        assert(before2 + number_bytes(rest) + after =~= bytes);
        lemma_read_number_bytes(rest, before2, after, (groups - 1) as nat);
    }
}

/// The bytes that a successful read looked at are the byte sequence of the
/// value it found.
pub proof fn lemma_number_bytes_of_read(bytes: Seq<u8>, pos: int, groups: nat)
    requires
        read_groups(bytes, pos, groups) is Ok,
    ensures
        ({
            let (v, next) = read_groups(bytes, pos, groups)->Ok_0;
            0 <= pos < next <= bytes.len() && bytes.subrange(pos, next) == number_bytes(v)
        }),
    decreases groups,
{
    lemma_read_groups_span(bytes, pos, groups);
    let (v, next) = read_groups(bytes, pos, groups)->Ok_0;
    if bytes[pos] >= 128 {
        assert(bytes.subrange(pos, next) =~= number_bytes(v));
    } else {
        lemma_number_bytes_of_read(bytes, pos + 1, (groups - 1) as nat);
        let (w, _) = read_groups(bytes, pos + 1, (groups - 1) as nat)->Ok_0;
        assert(v == bytes[pos] + 128 * (w + 1));
        assert(v >= 128 && v % 128 == bytes[pos] && v / 128 - 1 == w);
        assert(bytes.subrange(pos, next) =~= seq![bytes[pos]] + bytes.subrange(pos + 1, next));
    }
}

/// Every `usize` survives being written and read again.
pub proof fn theorem_number_round_trip(n: usize, before: Seq<u8>, after: Seq<u8>)
    ensures
        read_number(before + number_bytes(n as nat) + after, before.len() as int) == Ok::<
            (usize, int),
            FormatError,
        >((n, (before.len() + number_bytes(n as nat).len()) as int)),
{
    lemma_number_bytes_len_usize(n);
    lemma_read_number_bytes(n as nat, before, after, MAX_GROUPS as nat);
}

/// No number has two encodings: where two reads find the same value, they
/// looked at the same bytes.
pub proof fn theorem_number_unique(a: Seq<u8>, pos_a: int, b: Seq<u8>, pos_b: int)
    requires
        read_number(a, pos_a) is Ok,
        read_number(b, pos_b) is Ok,
        read_number(a, pos_a)->Ok_0.0 == read_number(b, pos_b)->Ok_0.0,
    ensures
        a.subrange(pos_a, read_number(a, pos_a)->Ok_0.1) == b.subrange(
            pos_b,
            read_number(b, pos_b)->Ok_0.1,
        ),
{
    lemma_number_bytes_of_read(a, pos_a, MAX_GROUPS as nat);
    lemma_number_bytes_of_read(b, pos_b, MAX_GROUPS as nat);
}

/// Where the bytes from `pos` on begin with the byte sequence of `n`, reading
/// there finds `n`.
pub proof fn lemma_read_number_at(bytes: Seq<u8>, pos: int, n: usize)
    requires
        0 <= pos,
        pos + number_bytes(n as nat).len() <= bytes.len(),
        bytes.subrange(pos, pos + number_bytes(n as nat).len()) == number_bytes(n as nat),
    ensures
        read_number(bytes, pos) == Ok::<(usize, int), FormatError>(
            (n, pos + number_bytes(n as nat).len()),
        ),
{
    let len = number_bytes(n as nat).len() as int;
    let before = bytes.subrange(0, pos);
    let after = bytes.subrange(pos + len, bytes.len() as int);
    assert(before + number_bytes(n as nat) + after =~= bytes);
    theorem_number_round_trip(n, before, after);
}

} // verus!
