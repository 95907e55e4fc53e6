//! An index that finds matches by their first three bytes.
//!
//! Every offset of the source is filed under the three bytes that stand
//! there. The offsets under one key form a chain, the last offset first. A
//! query is compared only with the offsets in the chain of its own first three
//! bytes, so a match shorter than three bytes is never reported.

use crate::bps::index::{agreement, is_match, lemma_agreement, LongestMatchIndex};
use std::collections::HashMap;
use vstd::prelude::*;

verus! {

/// How many bytes make a key.
pub const KEY_LEN: usize = 3;

/// The key of three bytes.
pub open spec fn key_of(a: u8, b: u8, c: u8) -> u32 {
    (a + 256 * b + 65536 * c) as u32
}

/// The key of the three bytes of `s` from `p` on.
pub open spec fn key_at(s: Seq<u8>, p: int) -> u32 {
    key_of(s[p], s[p + 1], s[p + 2])
}

/// How many offsets of a sequence of `len` bytes have three bytes from there.
pub open spec fn keyed(len: int) -> int {
    if len >= KEY_LEN {
        len - KEY_LEN + 1
    } else {
        0
    }
}

/// The last offset below `upto` at which `s` has the key `key`.
pub open spec fn last_with_key(s: Seq<u8>, key: u32, upto: int) -> Option<usize>
    decreases upto,
{
    if upto <= 0 {
        None
    } else if key_at(s, upto - 1) == key {
        Some((upto - 1) as usize)
    } else {
        last_with_key(s, key, upto - 1)
    }
}

/// The best of the offsets from `from` on at which `source` begins with the
/// first three bytes of `query`: the last offset among them at which `source`
/// agrees longest with `query`, and how long. Length 0, with offset 0, where
/// there is no such offset.
pub open spec fn best_from(source: Seq<u8>, query: Seq<u8>, from: int) -> (usize, usize)
    decreases keyed(source.len() as int) - from,
{
    if from < 0 || from >= keyed(source.len() as int) {
        (0, 0)
    } else {
        let rest = best_from(source, query, from + 1);
        let here = if key_at(source, from) == key_at(query, 0) {
            agreement(source, from, query, 0)
        } else {
            0
        };
        if here > rest.1 {
            (from as usize, here as usize)
        } else {
            rest
        }
    }
}

/// Three bytes have the key of three others only if they are the same.
pub proof fn lemma_key_of(a: u8, b: u8, c: u8, x: u8, y: u8, z: u8)
    requires
        key_of(a, b, c) == key_of(x, y, z),
    ensures
        a == x,
        b == y,
        c == z,
{
}

/// Where no offset from `from` up to `to` has the key of the query, the best
/// from `from` on is the best from `to` on.
pub proof fn lemma_best_from_skips(source: Seq<u8>, query: Seq<u8>, from: int, to: int)
    requires
        source.len() <= usize::MAX,
        0 <= from <= to <= keyed(source.len() as int),
        last_with_key(source, key_at(query, 0), to) == last_with_key(
            source,
            key_at(query, 0),
            from,
        ),
    ensures
        best_from(source, query, from) == best_from(source, query, to),
    decreases to - from,
{
    if from < to {
        lemma_last_with_key(source, key_at(query, 0), from);
        lemma_last_with_key(source, key_at(query, 0), to - 1);
        lemma_last_with_key(source, key_at(query, 0), to);
        if key_at(source, to - 1) == key_at(query, 0) {
            assert(false);
        }
        lemma_best_from_skips(source, query, from, to - 1);
        lemma_best_from_step(source, query, to - 1);
    }
}

/// The best from an offset on whose key is not that of the query is the best
/// from the next offset on.
pub proof fn lemma_best_from_step(source: Seq<u8>, query: Seq<u8>, from: int)
    requires
        0 <= from < keyed(source.len() as int),
        key_at(source, from) != key_at(query, 0),
    ensures
        best_from(source, query, from) == best_from(source, query, from + 1),
{
}

/// The last offset with a key lies below the bound and has the key.
pub proof fn lemma_last_with_key(s: Seq<u8>, key: u32, upto: int)
    requires
        upto <= usize::MAX,
    ensures
        match last_with_key(s, key, upto) {
            Some(p) => p < upto && key_at(s, p as int) == key && forall|q: int|
                p < q < upto ==> key_at(s, q) != key,
            None => forall|q: int| 0 <= q < upto ==> key_at(s, q) != key,
        },
    decreases upto,
{
    if upto > 0 && key_at(s, upto - 1) != key {
        lemma_last_with_key(s, key, upto - 1);
    }
}

/// The best from `from` on is a match, and no match at an offset from `from`
/// on that is three bytes long or longer is longer than it.
pub proof fn lemma_best_from(source: Seq<u8>, query: Seq<u8>, from: int)
    requires
        0 <= from,
        query.len() >= KEY_LEN,
        source.len() <= usize::MAX,
    ensures
        ({
            let best = best_from(source, query, from);
            &&& best.1 > 0 ==> best.1 >= KEY_LEN && is_match(
                source,
                query,
                best.0 as int,
                best.1 as int,
            )
            &&& forall|offset: int, length: int|
                from <= offset && length >= KEY_LEN && #[trigger] is_match(
                    source,
                    query,
                    offset,
                    length,
                ) ==> length <= best.1
        }),
    decreases keyed(source.len() as int) - from,
{
    let best = best_from(source, query, from);
    if from >= keyed(source.len() as int) {
        assert forall|offset: int, length: int|
            from <= offset && length >= KEY_LEN && #[trigger] is_match(
                source,
                query,
                offset,
                length,
            ) implies length <= best.1 by {
            assert(offset + length <= source.len());
        }
    } else {
        lemma_best_from(source, query, from + 1);
        assert(source.subrange(from, from) =~= query.subrange(0, 0));
        lemma_agreement(source, from, query, 0);
        if key_at(source, from) == key_at(query, 0) {
            lemma_key_of(
                source[from],
                source[from + 1],
                source[from + 2],
                query[0],
                query[1],
                query[2],
            );
            assert(source.subrange(from, from + 3) =~= query.subrange(0, 3));
            assert(is_match(source, query, from, 3));
        }
        assert forall|offset: int, length: int|
            from <= offset && length >= KEY_LEN && #[trigger] is_match(
                source,
                query,
                offset,
                length,
            ) implies length <= best.1 by {
            if offset == from {
                assert(source.subrange(from, from + length)[0] == query.subrange(0, length)[0]);
                assert(source.subrange(from, from + length)[1] == query.subrange(0, length)[1]);
                assert(source.subrange(from, from + length)[2] == query.subrange(0, length)[2]);
            }
        }
    }
}

/// An index that files every offset of the source under the three bytes that
/// stand there.
pub struct TrigramIndex {
    data: Vec<u8>,
    /// For each key, the last offset that has it.
    heads: HashMap<u32, usize>,
    /// For each offset, the offset before it that has the same key.
    links: Vec<Option<usize>>,
}

impl TrigramIndex {
    /// Every offset is linked to the last offset before it that has the same
    /// key, and every key to the last offset that has it.
    #[verifier::type_invariant]
    spec fn wf(self) -> bool {
        &&& self.links@.len() == keyed(self.data@.len() as int)
        &&& forall|p: int|
            0 <= p < self.links@.len() ==> #[trigger] self.links@[p] == last_with_key(
                self.data@,
                key_at(self.data@, p),
                p,
            )
        &&& forall|key: u32|
            #![trigger self.heads@.contains_key(key)]
            #![trigger last_with_key(self.data@, key, self.links@.len() as int)]
            head_of(self.heads@, key) == last_with_key(self.data@, key, self.links@.len() as int)
    }

    /// An index over `data`.
    pub fn new(data: Vec<u8>) -> (index: Self)
        ensures
            index.source() == data@,
    {
        broadcast use vstd::std_specs::hash::group_hash_axioms;

        let n: usize = data.len();
        let count: usize = if n >= KEY_LEN {
            n - KEY_LEN + 1
        } else {
            0
        };
        let mut heads: HashMap<u32, usize> = HashMap::new();
        let mut links: Vec<Option<usize>> = Vec::new();
        let mut p: usize = 0;
        while p < count
            invariant
                p <= count,
                n == data@.len(),
                count == keyed(n as int),
                links@.len() == p,
                forall|q: int|
                    0 <= q < p ==> #[trigger] links@[q] == last_with_key(
                        data@,
                        key_at(data@, q),
                        q,
                    ),
                forall|key: u32|
                    #![trigger heads@.contains_key(key)]
                    #![trigger last_with_key(data@, key, p as int)]
                    head_of(heads@, key) == last_with_key(data@, key, p as int),
            decreases count - p,
        {
            let key: u32 = key_from(data[p], data[p + 1], data[p + 2]);
            let ghost before = heads@;
            let link: Option<usize> = match heads.get(&key) {
                Some(q) => Some(*q),
                None => None,
            };
            assert(link == head_of(before, key));
            links.push(link);
            heads.insert(key, p);
            assert forall|other: u32|
                #![trigger heads@.contains_key(other)]
                #![trigger last_with_key(data@, other, p + 1)]
                head_of(heads@, other) == last_with_key(data@, other, p + 1) by {
                if other != key {
                    assert(head_of(before, other) == last_with_key(data@, other, p as int));
                }
            }
            p += 1;
        }
        TrigramIndex { data, heads, links }
    }
}

/// The offset that `heads` hold for `key`, if any.
pub open spec fn head_of(heads: Map<u32, usize>, key: u32) -> Option<usize> {
    if heads.contains_key(key) {
        Some(heads[key])
    } else {
        None
    }
}

/// The key of three bytes.
fn key_from(a: u8, b: u8, c: u8) -> (key: u32)
    ensures
        key == key_of(a, b, c),
{
    a as u32 + 256 * (b as u32) + 65536 * (c as u32)
}

impl LongestMatchIndex for TrigramIndex {
    closed spec fn source(&self) -> Seq<u8> {
        self.data@
    }

    open spec fn longest_match(&self, query: Seq<u8>) -> (usize, usize) {
        if query.len() < KEY_LEN {
            (0, 0)
        } else {
            best_from(self.source(), query, 0)
        }
    }

    proof fn lemma_longest_match(&self, query: Seq<u8>) {
        let source = self.source();
        let found = self.longest_match(query);
        assert(self.data.len() == self.data@.len());
        if query.len() >= KEY_LEN && found.1 > 0 {
            lemma_best_from(source, query, 0);
        }
    }

    fn data(&self) -> (data: &[u8]) {
        self.data.as_slice()
    }

    fn lookup(&self, query: &[u8]) -> (found: (usize, usize)) {
        broadcast use vstd::std_specs::hash::group_hash_axioms;

        proof {
            use_type_invariant(self);
        }
        if query.len() < KEY_LEN {
            return (0, 0);
        }
        let n: usize = self.data.len();
        let key: u32 = key_from(query[0], query[1], query[2]);
        let mut candidate: Option<usize> = match self.heads.get(&key) {
            Some(p) => Some(*p),
            None => None,
        };
        let mut best_offset: usize = 0;
        let mut best_length: usize = 0;
        let ghost mut bound: int = self.links@.len() as int;
        assert(best_from(self.data@, query@, bound) == (0usize, 0usize));
        loop
            invariant_except_break
                0 <= bound <= self.links@.len(),
                candidate == last_with_key(self.data@, key, bound),
                (best_offset, best_length) == best_from(self.data@, query@, bound),
            invariant
                n == self.data@.len(),
                query@.len() >= KEY_LEN,
                key == key_at(query@, 0),
                self.wf(),
            ensures
                (best_offset, best_length) == best_from(self.data@, query@, 0),
            decreases bound,
        {
            proof {
                lemma_last_with_key(self.data@, key, bound);
            }
            let p: usize = match candidate {
                Some(p) => p,
                None => {
                    proof {
                        lemma_last_with_key(self.data@, key, 0);
                        lemma_best_from_skips(self.data@, query@, 0, bound);
                    }
                    break ;
                },
            };
            proof {
                lemma_last_with_key(self.data@, key, p + 1);
                lemma_best_from_skips(self.data@, query@, p + 1, bound);
            }
            let mut k: usize = 0;
            while k < query.len() && p + k < n && self.data[p + k] == query[k]
                invariant
                    k <= query@.len(),
                    p + k <= n,
                    n == self.data@.len(),
                    agreement(self.data@, p as int, query@, k as int) == agreement(
                        self.data@,
                        p as int,
                        query@,
                        0,
                    ),
                decreases query@.len() - k,
            {
                k += 1;
            }
            if k > best_length {
                best_offset = p;
                best_length = k;
            }
            candidate = self.links[p];
            proof {
                bound = p as int;
            }
        }
        (best_offset, best_length)
    }
}

} // verus!
