//! The longest-match index: where in the source does the longest start of a
//! query occur? The encoder asks this at every position it has to rewrite.

use vstd::prelude::*;

verus! {

/// Whether `source` holds, from `offset` on, the first `length` bytes of
/// `query`.
pub open spec fn is_match(source: Seq<u8>, query: Seq<u8>, offset: int, length: int) -> bool {
    &&& 0 <= offset
    &&& 0 <= length <= query.len()
    &&& offset + length <= source.len()
    &&& source.subrange(offset, offset + length) == query.subrange(0, length)
}

/// Whether `found`, an offset and a length, answers `query`: either no match
/// is reported, or the reported one is a match and no match is longer.
pub open spec fn answers(source: Seq<u8>, query: Seq<u8>, found: (usize, usize)) -> bool {
    found.1 > 0 ==> {
        &&& is_match(source, query, found.0 as int, found.1 as int)
        &&& forall|offset: int, length: int| #[trigger]
            is_match(source, query, offset, length) ==> length <= found.1
    }
}

/// An index over a source buffer. It is built once and then only read.
pub trait LongestMatchIndex {
    /// The source that the index was built from.
    spec fn source(&self) -> Seq<u8>;

    /// What `lookup` returns for `query`: an offset into the source and a
    /// length, with length 0 where the index reports no match.
    spec fn longest_match(&self, query: Seq<u8>) -> (usize, usize);

    /// What the index reports is a longest match.
    proof fn lemma_longest_match(&self, query: Seq<u8>)
        ensures
            answers(self.source(), query, self.longest_match(query)),
    ;

    /// The source bytes.
    fn data(&self) -> (data: &[u8])
        ensures
            data@ == self.source(),
    ;

    /// The longest start of `query` that occurs in the source, as its offset
    /// there and its length.
    fn lookup(&self, query: &[u8]) -> (found: (usize, usize))
        ensures
            found == self.longest_match(query@),
    ;
}

/// How far `source` from `offset` on and `query` agree, counted from the
/// start of `query`, given that they agree on the first `k` bytes.
pub open spec fn agreement(source: Seq<u8>, offset: int, query: Seq<u8>, k: int) -> int
    decreases query.len() - k,
{
    if 0 <= k < query.len() && 0 <= offset + k < source.len() && source[offset + k] == query[k] {
        agreement(source, offset, query, k + 1)
    } else {
        k
    }
}

/// The best of the offsets below `upto`: the first offset among them at which
/// `source` agrees longest with `query`, and how long. Length 0 comes with
/// offset 0.
pub open spec fn best_below(source: Seq<u8>, query: Seq<u8>, upto: int) -> (int, int)
    decreases upto,
{
    if upto <= 0 {
        (0, 0)
    } else {
        let best = best_below(source, query, upto - 1);
        let here = agreement(source, upto - 1, query, 0);
        if here > best.1 {
            (upto - 1, here)
        } else {
            best
        }
    }
}

/// The agreement from `offset` is a match, and no match there is longer.
pub proof fn lemma_agreement(source: Seq<u8>, offset: int, query: Seq<u8>, k: int)
    requires
        0 <= offset,
        is_match(source, query, offset, k),
    ensures
        is_match(source, query, offset, agreement(source, offset, query, k)),
        forall|length: int| #[trigger]
            is_match(source, query, offset, length) ==> length <= agreement(
                source,
                offset,
                query,
                k,
            ),
    decreases query.len() - k,
{
    if k < query.len() && offset + k < source.len() && source[offset + k] == query[k] {
        assert(source.subrange(offset, offset + k + 1) =~= source.subrange(offset, offset + k).push(
            source[offset + k],
        ));
        assert(query.subrange(0, k + 1) =~= query.subrange(0, k).push(query[k]));
        lemma_agreement(source, offset, query, k + 1);
    } else {
        assert forall|length: int| #[trigger]
            is_match(source, query, offset, length) implies length <= k by {
            if length > k {
                assert(source.subrange(offset, offset + length)[k] == query.subrange(0, length)[k]);
            }
        }
    }
}

/// The best below `upto` is a match, and no match at an offset below `upto`
/// is longer.
pub proof fn lemma_best_below(source: Seq<u8>, query: Seq<u8>, upto: int)
    requires
        0 <= upto <= source.len(),
    ensures
        ({
            let best = best_below(source, query, upto);
            &&& 0 <= best.0 <= source.len()
            &&& is_match(source, query, best.0, best.1)
            &&& forall|offset: int, length: int|
                offset < upto && #[trigger] is_match(source, query, offset, length) ==> length
                    <= best.1
        }),
    decreases upto,
{
    if upto <= 0 {
        assert(source.subrange(0, 0) =~= query.subrange(0, 0));
    } else {
        lemma_best_below(source, query, upto - 1);
        assert(source.subrange(upto - 1, upto - 1) =~= query.subrange(0, 0));
        lemma_agreement(source, upto - 1, query, 0);
    }
}

/// The plainest index: it keeps the source and compares the query with it at
/// every offset.
pub struct ScanIndex {
    data: Vec<u8>,
}

impl ScanIndex {
    /// An index over `data`.
    pub fn new(data: Vec<u8>) -> (index: Self)
        ensures
            index.source() == data@,
    {
        ScanIndex { data }
    }
}

impl LongestMatchIndex for ScanIndex {
    closed spec fn source(&self) -> Seq<u8> {
        self.data@
    }

    open spec fn longest_match(&self, query: Seq<u8>) -> (usize, usize) {
        let best = best_below(self.source(), query, self.source().len() as int);
        (best.0 as usize, best.1 as usize)
    }

    proof fn lemma_longest_match(&self, query: Seq<u8>) {
        assert(self.data.len() == self.data@.len());
        lemma_best_below(self.source(), query, self.source().len() as int);
    }

    fn data(&self) -> (data: &[u8]) {
        self.data.as_slice()
    }

    fn lookup(&self, query: &[u8]) -> (found: (usize, usize)) {
        let mut best_offset: usize = 0;
        let mut best_length: usize = 0;
        let mut offset: usize = 0;
        while offset < self.data.len()
            invariant
                offset <= self.data.len(),
                best_below(self.data@, query@, offset as int) == (
                    best_offset as int,
                    best_length as int,
                ),
            decreases self.data.len() - offset,
        {
            let mut k: usize = 0;
            while k < query.len() && offset + k < self.data.len() && self.data[offset + k]
                == query[k]
                invariant
                    k <= query@.len(),
                    offset + k <= self.data.len(),
                    agreement(self.data@, offset as int, query@, k as int) == agreement(
                        self.data@,
                        offset as int,
                        query@,
                        0,
                    ),
                decreases query@.len() - k,
            {
                k += 1;
            }
            if k > best_length {
                best_offset = offset;
                best_length = k;
            }
            offset += 1;
        }
        (best_offset, best_length)
    }
}

} // verus!
