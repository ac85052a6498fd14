//! The chunk partitioner: the deterministic division of a file of `size`
//! bytes into indexed chunks of `chunk_size` bytes each, the last chunk
//! holding the remainder when `size` is not a multiple of `chunk_size`.
//! Client and server both recompute this partition from the same pair of
//! numbers, and gap detection is correct because they agree exactly.

use vstd::prelude::*;

verus! {

/// How many chunks the partition of `size` bytes into pieces of `chunk_size`
/// bytes has: the integer ceiling of `size / chunk_size`.
pub open spec fn chunk_count_spec(size: u64, chunk_size: u64) -> int
    recommends
        chunk_size > 0,
{
    if size % chunk_size == 0 {
        size as int / chunk_size as int
    } else {
        size as int / chunk_size as int + 1
    }
}

/// First byte of chunk `index`.
pub open spec fn chunk_start_spec(chunk_size: u64, index: int) -> int {
    index * chunk_size
}

/// One past the last byte of chunk `index`: the chunk is cut short at the
/// end of the file.
pub open spec fn chunk_end_spec(size: u64, chunk_size: u64, index: int) -> int {
    if (index + 1) * chunk_size <= size {
        (index + 1) * chunk_size
    } else {
        size as int
    }
}

/// Length of chunk `index`.
pub open spec fn chunk_len_spec(size: u64, chunk_size: u64, index: int) -> int {
    chunk_end_spec(size, chunk_size, index) - chunk_start_spec(chunk_size, index)
}

/// A half-open range of bytes `[start, end)` within the file.
#[derive(Clone, Copy, Debug, PartialEq, Eq, Structural)]
pub struct ByteRange {
    pub start: u64,
    pub end: u64,
}

/// Bounds of the range of any chunk of the partition: it lies inside the
/// file, is non-empty, no longer than `chunk_size`, exactly `chunk_size`
/// long except for the last chunk, and the last chunk ends at `size`.
pub proof fn lemma_chunk_range(size: u64, chunk_size: u64, index: int)
    requires
        chunk_size > 0,
        0 <= index < chunk_count_spec(size, chunk_size),
    ensures
        0 <= chunk_start_spec(chunk_size, index),
        chunk_start_spec(chunk_size, index) < chunk_end_spec(size, chunk_size, index),
        chunk_end_spec(size, chunk_size, index) <= size,
        chunk_len_spec(size, chunk_size, index) <= chunk_size,
        index < chunk_count_spec(size, chunk_size) - 1 ==> chunk_len_spec(
            size,
            chunk_size,
            index,
        ) == chunk_size,
        index == chunk_count_spec(size, chunk_size) - 1 ==> chunk_end_spec(
            size,
            chunk_size,
            index,
        ) == size,
        index == chunk_count_spec(size, chunk_size) - 1 ==> chunk_len_spec(
            size,
            chunk_size,
            index,
        ) == (if size % chunk_size == 0 {
            chunk_size as int
        } else {
            (size % chunk_size) as int
        }),
{
    let s = size as int;
    let c = chunk_size as int;
    let q = s / c;
    let r = s % c;
    vstd::arithmetic::div_mod::lemma_fundamental_div_mod(s, c);
    vstd::arithmetic::div_mod::lemma_mod_division_less_than_divisor(s, c);
    assert(s == q * c + r);
    let count = chunk_count_spec(size, chunk_size);
    assert((index + 1) * c == index * c + c && 0 <= index * c && index * c < s && (index < count
        - 1 ==> (index + 1) * c <= s) && (index == count - 1 ==> s <= index * c + c) && (index
        == count - 1 ==> s - index * c == (if r == 0 {
        c
    } else {
        r
    }))) by (nonlinear_arith)
        requires
            c > 0,
            s == q * c + r,
            0 <= r < c,
            count == (if r == 0 {
                q
            } else {
                q + 1
            }),
            0 <= index < count,
    ;
}

/// How the chunk count relates to the file size: at most one chunk per
/// byte, no chunks exactly for an empty file, and enough chunks to cover
/// the whole file.
pub proof fn lemma_chunk_count_bounds(size: u64, chunk_size: u64)
    requires
        chunk_size > 0,
    ensures
        0 <= chunk_count_spec(size, chunk_size) <= size,
        (chunk_count_spec(size, chunk_size) == 0) <==> (size == 0),
        size <= chunk_count_spec(size, chunk_size) * chunk_size,
{
    let s = size as int;
    let c = chunk_size as int;
    let q = s / c;
    let r = s % c;
    vstd::arithmetic::div_mod::lemma_fundamental_div_mod(s, c);
    vstd::arithmetic::div_mod::lemma_mod_division_less_than_divisor(s, c);
    let count = chunk_count_spec(size, chunk_size);
    assert(0 <= count <= s && (count == 0 <==> s == 0) && s <= count * c) by (nonlinear_arith)
        requires
            c > 0,
            s == q * c + r,
            0 <= r < c,
            0 <= s,
            count == (if r == 0 {
                q
            } else {
                q + 1
            }),
    ;
}

/// Total of the lengths of chunks `0..k`.
pub open spec fn sum_chunk_lens(size: u64, chunk_size: u64, k: int) -> int
    decreases k,
{
    if k <= 0 {
        0
    } else {
        sum_chunk_lens(size, chunk_size, k - 1) + chunk_len_spec(size, chunk_size, k - 1)
    }
}

proof fn lemma_sum_chunk_lens(size: u64, chunk_size: u64, k: int)
    requires
        chunk_size > 0,
        0 <= k <= chunk_count_spec(size, chunk_size),
    ensures
        sum_chunk_lens(size, chunk_size, k) == chunk_end_spec(size, chunk_size, k - 1),
    decreases k,
{
    if k > 0 {
        lemma_sum_chunk_lens(size, chunk_size, k - 1);
        lemma_chunk_range(size, chunk_size, k - 1);
        assert((k - 1) * (chunk_size as int) + chunk_size == k * (chunk_size as int))
            by (nonlinear_arith);
    }
}

/// The chunks of the partition cover the file exactly: their lengths sum
/// to `size`, and their number is the ceiling of `size / chunk_size`.
pub proof fn lemma_partition_covers_size(size: u64, chunk_size: u64)
    requires
        chunk_size > 0,
    ensures
        sum_chunk_lens(size, chunk_size, chunk_count_spec(size, chunk_size)) == size,
        chunk_count_spec(size, chunk_size) == (size + chunk_size - 1) / (chunk_size as int),
{
    let s = size as int;
    let c = chunk_size as int;
    let q = s / c;
    let r = s % c;
    vstd::arithmetic::div_mod::lemma_fundamental_div_mod(s, c);
    vstd::arithmetic::div_mod::lemma_mod_division_less_than_divisor(s, c);
    assert(s == q * c + r);
    let count = chunk_count_spec(size, chunk_size);
    lemma_sum_chunk_lens(size, chunk_size, count);
    lemma_chunk_count_bounds(size, chunk_size);
    if count > 0 {
        lemma_chunk_range(size, chunk_size, count - 1);
    }
    if r == 0 {
        assert(s + c - 1 == q * c + (c - 1)) by (nonlinear_arith)
            requires
                s == q * c + r,
                r == 0,
        ;
        vstd::arithmetic::div_mod::lemma_fundamental_div_mod_converse(s + c - 1, c, q, c - 1);
    } else {
        assert(s + c - 1 == (q + 1) * c + (r - 1)) by (nonlinear_arith)
            requires
                s == q * c + r,
        ;
        vstd::arithmetic::div_mod::lemma_fundamental_div_mod_converse(s + c - 1, c, q + 1, r - 1);
    }
}

/// What it is for a sequence to be the partition of `size` bytes into
/// `chunk_size`-byte chunks: one entry per chunk, in index order, each
/// carrying its own index and byte range.
pub open spec fn is_partition(s: Seq<(usize, ByteRange)>, size: u64, chunk_size: u64) -> bool {
    &&& s.len() == chunk_count_spec(size, chunk_size)
    &&& forall|i: int|
        0 <= i < s.len() ==> {
            &&& (#[trigger] s[i]).0 == i
            &&& s[i].1.start == chunk_start_spec(chunk_size, i)
            &&& s[i].1.end == chunk_end_spec(size, chunk_size, i)
        }
}

/// The partition is a function of `(size, chunk_size)` alone: any two
/// sequences that both are the partition of the same pair are identical,
/// so client and server agree on the index-to-range mapping bit for bit.
pub proof fn lemma_partition_deterministic(
    a: Seq<(usize, ByteRange)>,
    b: Seq<(usize, ByteRange)>,
    size: u64,
    chunk_size: u64,
)
    requires
        is_partition(a, size, chunk_size),
        is_partition(b, size, chunk_size),
    ensures
        a == b,
{
    assert forall|i: int| 0 <= i < a.len() implies a[i] == b[i] by {
        assert(a[i].1 == b[i].1);
    }
    assert(a =~= b);
}

/// The cursor that walks the partition in index order, yielding each
/// chunk's index and byte range exactly once.  Client and server both
/// rebuild it from the same `(size, chunk_size)` pair.
pub struct ChunkIterator {
    chunk_count: usize,
    chunk_size: u64,
    remainder: u64,
    // current chunk index
    index: usize,
    size: Ghost<u64>,
}

impl ChunkIterator {
    /// The file size this iterator partitions.
    pub closed spec fn size_spec(self) -> u64 {
        self.size@
    }

    /// The chunk size this iterator partitions by.
    pub closed spec fn chunk_size_spec(self) -> u64 {
        self.chunk_size
    }

    /// The index of the next chunk to be yielded.
    pub closed spec fn index_spec(self) -> int {
        self.index as int
    }

    /// The fields agree with the `(size, chunk_size)` pair the iterator was
    /// built from, and the cursor has not run past the end.
    pub closed spec fn wf(self) -> bool {
        &&& self.chunk_size > 0
        &&& self.remainder == self.size@ % self.chunk_size
        &&& self.chunk_count == chunk_count_spec(self.size@, self.chunk_size)
        &&& self.index <= self.chunk_count
    }

    pub fn new(size: u64, chunk_size: u64) -> (r: Self)
        requires
            chunk_size > 0,
            chunk_count_spec(size, chunk_size) <= usize::MAX,
        ensures
            r.wf(),
            r.size_spec() == size,
            r.chunk_size_spec() == chunk_size,
            r.index_spec() == 0,
    {
        let remainder = size % chunk_size;

        let chunk_count = (size / chunk_size) as usize + if remainder > 0 {
            1
        } else {
            0
        };

        Self { chunk_count, chunk_size, remainder, index: 0, size: Ghost(size) }
    }

    /// Yield the next chunk of the partition, or `None` once every chunk
    /// has been handed out.  Each index comes out exactly once, in
    /// ascending order, with its byte range.
    pub fn next(&mut self) -> (r: Option<(usize, ByteRange)>)
        requires
            old(self).wf(),
        ensures
            final(self).wf(),
            final(self).size_spec() == old(self).size_spec(),
            final(self).chunk_size_spec() == old(self).chunk_size_spec(),
            old(self).index_spec() < chunk_count_spec(
                old(self).size_spec(),
                old(self).chunk_size_spec(),
            ) ==> {
                &&& final(self).index_spec() == old(self).index_spec() + 1
                &&& r matches Some(c) && c.0 == old(self).index_spec() && c.1.start
                    == chunk_start_spec(old(self).chunk_size_spec(), old(self).index_spec())
                    && c.1.end == chunk_end_spec(
                    old(self).size_spec(),
                    old(self).chunk_size_spec(),
                    old(self).index_spec(),
                )
            },
            old(self).index_spec() >= chunk_count_spec(
                old(self).size_spec(),
                old(self).chunk_size_spec(),
            ) ==> r is None && *final(self) == *old(self),
    {
        let cur = self.index;

        if cur < self.chunk_count {
            proof {
                lemma_chunk_range(self.size@, self.chunk_size, cur as int);
            }
            let start = cur as u64 * self.chunk_size;

            let result = if self.remainder > 0 && cur == self.chunk_count - 1 {
                (cur, ByteRange { start, end: start + self.remainder })
            } else {
                (cur, ByteRange { start, end: start + self.chunk_size })
            };

            // increase before return
            self.index = cur + 1;

            Some(result)
        } else {
            None
        }
    }

    /// The total file size, recovered from the partition's parameters: the
    /// full chunks plus the tail chunk, whose length is the remainder when
    /// that is non-zero and a whole chunk otherwise.
    pub fn file_len(&self) -> (r: u64)
        requires
            self.wf(),
        ensures
            r == self.size_spec(),
    {
        proof {
            lemma_chunk_count_bounds(self.size@, self.chunk_size);
            if self.chunk_count > 0 {
                lemma_chunk_range(self.size@, self.chunk_size, self.chunk_count - 1);
            }
        }
        if self.chunk_count == 0 {
            0
        } else {
            let tail = if self.remainder > 0 {
                self.remainder
            } else {
                self.chunk_size
            };
            (self.chunk_count as u64 - 1) * self.chunk_size + tail
        }
    }
}

/// Compute the number of chunks of the partition.
pub fn compute_chunk_count(size: u64, chunk_size: u64) -> (r: usize)
    requires
        chunk_size > 0,
        chunk_count_spec(size, chunk_size) <= usize::MAX,
    ensures
        r == chunk_count_spec(size, chunk_size),
{
    let remainder = size % chunk_size;

    (size / chunk_size) as usize + if remainder > 0 {
        1
    } else {
        0
    }
}

/// Compute the whole partition at once, in index order.
pub fn partition(size: u64, chunk_size: u64) -> (r: Vec<(usize, ByteRange)>)
    requires
        chunk_size > 0,
        chunk_count_spec(size, chunk_size) <= usize::MAX,
    ensures
        is_partition(r@, size, chunk_size),
{
    let mut it = ChunkIterator::new(size, chunk_size);
    let mut out: Vec<(usize, ByteRange)> = Vec::new();

    loop
        invariant
            it.wf(),
            it.size_spec() == size,
            it.chunk_size_spec() == chunk_size,
            out@.len() == it.index_spec(),
            forall|i: int|
                0 <= i < out@.len() ==> {
                    &&& (#[trigger] out@[i]).0 == i
                    &&& out@[i].1.start == chunk_start_spec(chunk_size, i)
                    &&& out@[i].1.end == chunk_end_spec(size, chunk_size, i)
                },
        ensures
            is_partition(out@, size, chunk_size),
        decreases chunk_count_spec(size, chunk_size) - it.index_spec(),
    {
        match it.next() {
            Some(entry) => out.push(entry),
            None => {
                break ;
            },
        }
    }

    out
}

} // verus!
