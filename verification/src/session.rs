//! The server side of the protocol: validation of upload parameters at
//! initialization, the per-index length check for stored chunks, the
//! completeness checker that reports coalesced missing index ranges, and
//! the in-memory session state with its assembler.

use crate::plan::chunk_count_spec;
use crate::plan::chunk_end_spec;
use crate::plan::chunk_len_spec;
use crate::plan::chunk_start_spec;
use crate::plan::compute_chunk_count;
use crate::plan::lemma_chunk_count_bounds;
use crate::plan::lemma_chunk_range;
use crate::plan::lemma_partition_covers_size;
use crate::plan::sum_chunk_lens;
use crate::protocol::CompleteError;
use crate::protocol::CompleteResult;
use crate::protocol::IndexRange;
use crate::protocol::InitializeError;
use crate::protocol::InitializeResult;
use crate::protocol::UploadChunkError;
use crate::protocol::UploadChunkResult;
use crate::protocol::UploadParam;
use vstd::prelude::*;

verus! {

/// Whether an upload with the given sizes is accepted under the
/// configured bounds.
pub open spec fn param_acceptable(
    size: u64,
    chunk_size: u64,
    max_file_size: u64,
    max_chunk_size: u64,
) -> bool {
    &&& 0 < size <= max_file_size
    &&& 0 < chunk_size <= max_chunk_size
}

/// Accept or reject the parameters of a new upload: the file size must be
/// positive and within `max_file_size`, and then the chunk size positive
/// and within `max_chunk_size`.  An empty upload is an error, not a
/// trivial success.
pub fn validate_param(size: u64, chunk_size: u64, max_file_size: u64, max_chunk_size: u64) -> (r:
    Result<(), InitializeError>)
    ensures
        r is Ok <==> param_acceptable(size, chunk_size, max_file_size, max_chunk_size),
        !(0 < size <= max_file_size) ==> {
            &&& r matches Err(InitializeError::Size { max })
            &&& max == max_file_size
        },
        (0 < size <= max_file_size && !(0 < chunk_size <= max_chunk_size)) ==> {
            &&& r matches Err(InitializeError::ChunkSize { max })
            &&& max == max_chunk_size
        },
{
    if size == 0 || size > max_file_size {
        return Err(InitializeError::Size { max: max_file_size });
    }
    if chunk_size == 0 || chunk_size > max_chunk_size {
        return Err(InitializeError::ChunkSize { max: max_chunk_size });
    }
    Ok(())
}

/// Relies on `uuid::Uuid::new_v4`, which draws a random 128-bit value and
/// then forces the version nibble to 4 and the variant bits to the
/// standard variant, and on `uuid::Uuid::as_u128`, which packs the bytes
/// back into that same value.  Nothing more can be promised of a random
/// identifier.
#[verifier::external_body]
fn fresh_session_id() -> (r: u128)
    ensures
        r & 0xF000_0000_0000_0000_0000u128 == 0x4000_0000_0000_0000_0000u128,
        r & 0xC000_0000_0000_0000u128 == 0x8000_0000_0000_0000u128,
{
    uuid::Uuid::new_v4().as_u128()
}

/// Decide a new upload's initialization: reject parameters out of bounds
/// with the error naming the exceeded bound, otherwise allocate a fresh
/// session identifier.  `duplicated` is always false: content-based
/// deduplication is a placeholder in this design.
pub fn initialize_session(param: &UploadParam, max_file_size: u64, max_chunk_size: u64) -> (r:
    InitializeResult)
    ensures
        param_acceptable(param.size, param.chunk_size, max_file_size, max_chunk_size) ==> {
            &&& r matches InitializeResult::Accepted { id, duplicated }
            &&& !duplicated
            &&& id & 0xF000_0000_0000_0000_0000u128 == 0x4000_0000_0000_0000_0000u128
            &&& id & 0xC000_0000_0000_0000u128 == 0x8000_0000_0000_0000u128
        },
        !(0 < param.size <= max_file_size) ==> {
            &&& r matches InitializeResult::Rejected { error: InitializeError::Size { max } }
            &&& max == max_file_size
        },
        (0 < param.size <= max_file_size && !(0 < param.chunk_size <= max_chunk_size)) ==> {
            &&& r matches InitializeResult::Rejected { error: InitializeError::ChunkSize { max } }
            &&& max == max_chunk_size
        },
{
    match validate_param(param.size, param.chunk_size, max_file_size, max_chunk_size) {
        Ok(()) => InitializeResult::Accepted { id: fresh_session_id(), duplicated: false },
        Err(error) => InitializeResult::Rejected { error },
    }
}

/// The length the chunk at `index` must have: `chunk_size` everywhere but
/// the last index, whose chunk holds the remainder when that is non-zero.
pub fn expected_chunk_len(size: u64, chunk_size: u64, index: usize) -> (r: u64)
    requires
        chunk_size > 0,
        index < chunk_count_spec(size, chunk_size),
    ensures
        r == chunk_len_spec(size, chunk_size, index as int),
{
    proof {
        lemma_chunk_range(size, chunk_size, index as int);
    }
    let remainder = size % chunk_size;

    if remainder > 0 && index as u64 == size / chunk_size {
        remainder
    } else {
        chunk_size
    }
}

/// Judge one stored chunk by its length, the sole validity signal: accept
/// exactly when the stored length equals the expected length for that
/// index, and otherwise name both lengths so the client can re-upload.
pub fn check_stored_chunk(size: u64, chunk_size: u64, index: usize, actual: u64) -> (r:
    UploadChunkResult)
    requires
        chunk_size > 0,
        index < chunk_count_spec(size, chunk_size),
    ensures
        actual == chunk_len_spec(size, chunk_size, index as int) ==> r is Accepted,
        actual != chunk_len_spec(size, chunk_size, index as int) ==> {
            &&& r matches UploadChunkResult::Rejected {
                error: UploadChunkError::Size { expected, actual: a },
            }
            &&& expected == chunk_len_spec(size, chunk_size, index as int)
            &&& a == actual
        },
{
    let expected = expected_chunk_len(size, chunk_size, index);

    if actual == expected {
        UploadChunkResult::Accepted
    } else {
        UploadChunkResult::Rejected { error: UploadChunkError::Size { expected, actual } }
    }
}

/// Whether the record scanned at `index` is a validly stored chunk:
/// present, with exactly the expected length for that index.
pub open spec fn record_len_ok(
    size: u64,
    chunk_size: u64,
    lengths: Seq<Option<u64>>,
    index: int,
) -> bool {
    lengths[index] matches Some(l) && l == chunk_len_spec(size, chunk_size, index)
}

/// Whether chunk index `index` falls inside one of the ranges.
pub open spec fn in_ranges(ranges: Seq<IndexRange>, index: int) -> bool {
    exists|k: int|
        0 <= k < ranges.len() && (#[trigger] ranges[k]).start <= index < ranges[k].end
}

/// The shape of a report of missing indices: non-empty ranges within
/// `[0, count)`, in ascending order, coalesced (a present index separates
/// any two of them).
pub open spec fn ranges_well_formed(ranges: Seq<IndexRange>, count: int) -> bool {
    &&& forall|k: int|
        0 <= k < ranges.len() ==> (#[trigger] ranges[k]).start < ranges[k].end <= count
    &&& forall|k: int|
        0 < k < ranges.len() ==> (#[trigger] ranges[k]).start > ranges[k - 1].end
}

/// What the completeness checker reports: a well-formed list of ranges
/// covering exactly the indices whose record is absent or has the wrong
/// length — the coalesced complement of the validly stored set.
pub open spec fn missing_ranges_exact(
    ranges: Seq<IndexRange>,
    size: u64,
    chunk_size: u64,
    lengths: Seq<Option<u64>>,
) -> bool {
    &&& ranges_well_formed(ranges, chunk_count_spec(size, chunk_size))
    &&& forall|i: int|
        0 <= i < chunk_count_spec(size, chunk_size) ==> (#[trigger] in_ranges(ranges, i)
            <==> !record_len_ok(size, chunk_size, lengths, i))
}

proof fn lemma_not_in_ranges_beyond(rs: Seq<IndexRange>, bound: int, j: int)
    requires
        forall|k: int| 0 <= k < rs.len() ==> (#[trigger] rs[k]).end <= bound,
        bound <= j,
    ensures
        !in_ranges(rs, j),
{
    if in_ranges(rs, j) {
        let k = choose|k: int|
            0 <= k < rs.len() && (#[trigger] rs[k]).start <= j < rs[k].end;
        assert(false);
    }
}

proof fn lemma_coverage_after_push(
    prev: Seq<IndexRange>,
    rng: IndexRange,
    size: u64,
    chunk_size: u64,
    lengths: Seq<Option<u64>>,
)
    requires
        forall|k: int|
            0 <= k < prev.len() ==> (#[trigger] prev[k]).start < prev[k].end && prev[k].end
                < rng.start,
        forall|j: int|
            0 <= j < rng.start ==> (#[trigger] in_ranges(prev, j) <==> !record_len_ok(
                size,
                chunk_size,
                lengths,
                j,
            )),
        forall|j: int|
            rng.start <= j < rng.end ==> !record_len_ok(size, chunk_size, lengths, j),
        rng.start < rng.end,
    ensures
        forall|j: int|
            0 <= j < rng.end ==> (#[trigger] in_ranges(prev.push(rng), j) <==> !record_len_ok(
                size,
                chunk_size,
                lengths,
                j,
            )),
{
    let cur = prev.push(rng);
    assert forall|j: int| 0 <= j < rng.end implies (in_ranges(cur, j) <==> !record_len_ok(
        size,
        chunk_size,
        lengths,
        j,
    )) by {
        if j < rng.start {
            if in_ranges(prev, j) {
                let k = choose|k: int|
                    0 <= k < prev.len() && (#[trigger] prev[k]).start <= j < prev[k].end;
                assert(cur[k].start <= j < cur[k].end);
                assert(in_ranges(cur, j));
            }
            if in_ranges(cur, j) {
                let k = choose|k: int|
                    0 <= k < cur.len() && (#[trigger] cur[k]).start <= j < cur[k].end;
                if k < prev.len() {
                    assert(in_ranges(prev, j));
                }
            }
        } else {
            assert(cur[cur.len() - 1].start <= j < cur[cur.len() - 1].end);
            assert(in_ranges(cur, j));
        }
    }
}

/// Scan the records of a session, one observed length per index of the
/// partition, and report the coalesced, ascending list of index ranges
/// whose chunks are missing or mis-sized.  An empty report means the
/// session is complete.
pub fn missing_ranges(size: u64, chunk_size: u64, lengths: &Vec<Option<u64>>) -> (r: Vec<
    IndexRange,
>)
    requires
        chunk_size > 0,
        lengths@.len() == chunk_count_spec(size, chunk_size),
    ensures
        missing_ranges_exact(r@, size, chunk_size, lengths@),
{
    let count = lengths.len();
    let mut ranges: Vec<IndexRange> = Vec::new();
    // start of the run of missing indices that has not been flushed yet
    let mut start: usize = 0;
    let mut i: usize = 0;

    while i < count
        invariant
            chunk_size > 0,
            lengths@.len() == count,
            count == chunk_count_spec(size, chunk_size),
            start <= i <= count,
            forall|k: int|
                0 <= k < ranges@.len() ==> (#[trigger] ranges@[k]).start < ranges@[k].end
                    && ranges@[k].end < start,
            forall|k: int|
                0 < k < ranges@.len() ==> (#[trigger] ranges@[k]).start > ranges@[k - 1].end,
            forall|j: int|
                0 <= j < start ==> (#[trigger] in_ranges(ranges@, j) <==> !record_len_ok(
                    size,
                    chunk_size,
                    lengths@,
                    j,
                )),
            forall|j: int| start <= j < i ==> !record_len_ok(size, chunk_size, lengths@, j),
        decreases count - i,
    {
        let ok = match lengths[i] {
            Some(l) => l == expected_chunk_len(size, chunk_size, i),
            None => false,
        };

        if ok {
            let ghost prev = ranges@;
            if start < i {
                let rng = IndexRange { start, end: i };
                ranges.push(rng);
                proof {
                    lemma_coverage_after_push(prev, rng, size, chunk_size, lengths@);
                }
            }
            proof {
                lemma_not_in_ranges_beyond(ranges@, i as int, i as int);
            }
            start = i + 1;
        }
        i += 1;
    }

    if start < count {
        let ghost prev = ranges@;
        let rng = IndexRange { start, end: count };
        ranges.push(rng);
        proof {
            lemma_coverage_after_push(prev, rng, size, chunk_size, lengths@);
        }
    }

    ranges
}

/// Decide a completion request from the scanned record lengths: accept
/// when every chunk of the partition is validly stored, and otherwise
/// return the missing ranges together with the session's parameters, so
/// the client can recompute byte offsets for what it must resend.
pub fn check_complete(param: UploadParam, lengths: &Vec<Option<u64>>) -> (r: CompleteResult)
    requires
        param.chunk_size > 0,
        lengths@.len() == chunk_count_spec(param.size, param.chunk_size),
    ensures
        (forall|i: int|
            0 <= i < chunk_count_spec(param.size, param.chunk_size) ==> #[trigger] record_len_ok(
                param.size,
                param.chunk_size,
                lengths@,
                i,
            )) ==> r is Accepted,
        !(forall|i: int|
            0 <= i < chunk_count_spec(param.size, param.chunk_size) ==> #[trigger] record_len_ok(
                param.size,
                param.chunk_size,
                lengths@,
                i,
            )) ==> {
            &&& r matches CompleteResult::Rejected {
                error: CompleteError::Incomplete { param: p, ranges },
            }
            &&& p == param
            &&& missing_ranges_exact(ranges@, param.size, param.chunk_size, lengths@)
            &&& ranges@.len() > 0
        },
{
    let ranges = missing_ranges(param.size, param.chunk_size, lengths);

    if ranges.len() == 0 {
        proof {
            assert forall|i: int|
                0 <= i < chunk_count_spec(param.size, param.chunk_size) implies #[trigger] record_len_ok(
                param.size,
                param.chunk_size,
                lengths@,
                i,
            ) by {
                lemma_not_in_ranges_beyond(ranges@, 0, i);
            }
        }
        CompleteResult::Accepted
    } else {
        proof {
            let s = ranges@[0].start as int;
            assert(in_ranges(ranges@, s));
            assert(!record_len_ok(param.size, param.chunk_size, lengths@, s));
        }
        CompleteResult::Rejected { error: CompleteError::Incomplete { param, ranges } }
    }
}

/// The server's state for one session: its immutable parameters and one
/// record slot per chunk of the partition.  Chunk bytes arrive in any
/// order, any number of times per index; completeness and assembly are
/// judged from this state alone.
pub struct SessionState {
    param: UploadParam,
    records: Vec<Option<Vec<u8>>>,
}

impl SessionState {
    /// The parameters the session was created with.
    pub closed spec fn param_spec(self) -> UploadParam {
        self.param
    }

    /// The stored chunk records, as an abstract sequence of optional byte
    /// sequences indexed by chunk index.
    pub closed spec fn records_spec(self) -> Seq<Option<Seq<u8>>> {
        Seq::new(
            self.records@.len() as nat,
            |i: int|
                match self.records@[i] {
                    Option::Some(v) => Some(v@),
                    Option::None => None,
                },
        )
    }

    /// Number of chunks of this session's partition.
    pub open spec fn chunk_count(self) -> int {
        chunk_count_spec(self.param_spec().size, self.param_spec().chunk_size)
    }

    /// The session's invariant: a positive chunk size and one record slot
    /// per chunk.
    pub closed spec fn wf(self) -> bool {
        &&& self.param.chunk_size > 0
        &&& self.records@.len() == chunk_count_spec(self.param.size, self.param.chunk_size)
    }

    /// Whether the chunk at `index` is validly stored: present, with
    /// exactly the expected length.
    pub open spec fn record_ok(self, index: int) -> bool {
        &&& self.records_spec()[index] matches Some(d)
        &&& d.len() == chunk_len_spec(self.param_spec().size, self.param_spec().chunk_size, index)
    }

    /// Whether every chunk of the partition is validly stored.
    pub open spec fn complete_spec(self) -> bool {
        forall|i: int| 0 <= i < self.chunk_count() ==> #[trigger] self.record_ok(i)
    }

    /// Create the session's storage with every record absent.
    pub fn new(param: UploadParam) -> (r: Self)
        requires
            param.chunk_size > 0,
            chunk_count_spec(param.size, param.chunk_size) <= usize::MAX,
        ensures
            r.wf(),
            r.param_spec() == param,
            r.records_spec().len() == chunk_count_spec(param.size, param.chunk_size),
            forall|i: int| 0 <= i < r.records_spec().len() ==> r.records_spec()[i] is None,
    {
        let count = compute_chunk_count(param.size, param.chunk_size);
        let mut records: Vec<Option<Vec<u8>>> = Vec::new();

        while records.len() < count
            invariant
                records@.len() <= count,
                forall|i: int| 0 <= i < records@.len() ==> records@[i] is None,
            decreases count - records@.len(),
        {
            records.push(None);
        }

        SessionState { param, records }
    }

    /// Store the bytes of one chunk, overwriting any earlier record for
    /// that index, and return how many bytes were written.  Re-uploading
    /// an index is always safe: this is how resumption replays chunks.
    /// An index outside the partition belongs to no expected chunk and
    /// leaves the state unchanged.
    pub fn store_chunk(&mut self, index: usize, data: Vec<u8>) -> (r: u64)
        requires
            old(self).wf(),
        ensures
            final(self).wf(),
            final(self).param_spec() == old(self).param_spec(),
            r == data@.len(),
            index < old(self).records_spec().len() ==> final(self).records_spec() == old(
                self,
            ).records_spec().update(index as int, Some(data@)),
            index >= old(self).records_spec().len() ==> final(self).records_spec() == old(
                self,
            ).records_spec(),
    {
        let len = data.len() as u64;

        if index < self.records.len() {
            let ghost prev = self.records_spec();
            self.records.set(index, Some(data));
            proof {
                assert(self.records_spec() =~= prev.update(index as int, Some(data@)));
            }
        }
        len
    }

    /// Observe each record's presence and length, in index order: the
    /// same scan the checker makes over a persisted session.
    pub fn record_lengths(&self) -> (r: Vec<Option<u64>>)
        requires
            self.wf(),
        ensures
            r@.len() == self.records_spec().len(),
            forall|i: int|
                0 <= i < r@.len() ==> ((#[trigger] r@[i]) is None <==> self.records_spec()[i]
                    is None),
            forall|i: int|
                0 <= i < r@.len() ==> (self.records_spec()[i] matches Some(d) ==> {
                    &&& (#[trigger] r@[i]) matches Some(l)
                    &&& l == d.len()
                }),
            forall|i: int|
                0 <= i < r@.len() ==> (record_len_ok(
                    self.param_spec().size,
                    self.param_spec().chunk_size,
                    r@,
                    i,
                ) <==> self.record_ok(i)),
    {
        let mut out: Vec<Option<u64>> = Vec::new();
        let mut i: usize = 0;

        while i < self.records.len()
            invariant
                i == out@.len() <= self.records@.len(),
                forall|j: int|
                    0 <= j < out@.len() ==> ((#[trigger] out@[j]) is None <==> self.records_spec()[j]
                        is None),
                forall|j: int|
                    0 <= j < out@.len() ==> (self.records_spec()[j] matches Some(d) ==> {
                        &&& (#[trigger] out@[j]) matches Some(l)
                        &&& l == d.len()
                    }),
            decreases self.records@.len() - i,
        {
            match &self.records[i] {
                Some(v) => out.push(Some(v.len() as u64)),
                None => out.push(None),
            }
            i += 1;
        }

        out
    }

    /// Report the session's missing index ranges: ascending, coalesced,
    /// and covering exactly the chunks not validly stored.
    pub fn missing_ranges(&self) -> (r: Vec<IndexRange>)
        requires
            self.wf(),
        ensures
            ranges_well_formed(r@, self.chunk_count()),
            forall|i: int|
                0 <= i < self.chunk_count() ==> (#[trigger] in_ranges(r@, i)
                    <==> !self.record_ok(i)),
    {
        let lengths = self.record_lengths();
        missing_ranges(self.param.size, self.param.chunk_size, &lengths)
    }

    /// Whether the session is complete: every chunk validly stored.
    pub fn is_complete(&self) -> (r: bool)
        requires
            self.wf(),
        ensures
            r == self.complete_spec(),
    {
        let ranges = self.missing_ranges();

        if ranges.len() == 0 {
            proof {
                assert forall|i: int| 0 <= i < self.chunk_count() implies #[trigger] self.record_ok(
                    i,
                ) by {
                    lemma_not_in_ranges_beyond(ranges@, 0, i);
                }
            }
            true
        } else {
            proof {
                let s = ranges@[0].start as int;
                assert(in_ranges(ranges@, s));
            }
            false
        }
    }
}

proof fn lemma_ranges_order(rs: Seq<IndexRange>, count: int, k: int)
    requires
        ranges_well_formed(rs, count),
        0 <= k < rs.len(),
    ensures
        rs[k].start >= rs[0].start,
        k > 0 ==> rs[k].start > rs[0].end,
    decreases k,
{
    if k > 0 {
        lemma_ranges_order(rs, count, k - 1);
    }
}

/// The coalesced report of missing indices is unique: two well-formed
/// range lists that cover exactly the same indices are identical.  With
/// the contract of `missing_ranges`, the checker's answer is therefore
/// exactly the coalesced complement of the validly stored set, however it
/// might be computed.
#[verifier::rlimit(60)]
pub proof fn lemma_missing_ranges_unique(a: Seq<IndexRange>, b: Seq<IndexRange>, count: int)
    requires
        ranges_well_formed(a, count),
        ranges_well_formed(b, count),
        forall|i: int|
            #![trigger in_ranges(a, i)]
            #![trigger in_ranges(b, i)]
            in_ranges(a, i) <==> in_ranges(b, i),
    ensures
        a == b,
    decreases a.len(),
{
    if a.len() == 0 {
        if b.len() > 0 {
            assert(b[0].start <= b[0].start < b[0].end);
            assert(in_ranges(b, b[0].start as int));
            let k = choose|k: int|
                0 <= k < a.len() && (#[trigger] a[k]).start <= b[0].start < a[k].end;
            assert(false);
        }
        assert(a =~= b);
    } else if b.len() == 0 {
        assert(a[0].start <= a[0].start < a[0].end);
        assert(in_ranges(a, a[0].start as int));
        let k = choose|k: int|
            0 <= k < b.len() && (#[trigger] b[k]).start <= a[0].start < b[k].end;
        assert(false);
    } else {
        let a0 = a[0];
        let b0 = b[0];

        // the least covered index opens both lists: the starts agree
        assert(a0.start <= a0.start < a0.end);
        assert(in_ranges(a, a0.start as int));
        assert(in_ranges(b, a0.start as int));
        let kb = choose|k: int|
            0 <= k < b.len() && (#[trigger] b[k]).start <= a0.start < b[k].end;
        lemma_ranges_order(b, count, kb);

        assert(b0.start <= b0.start < b0.end);
        assert(in_ranges(b, b0.start as int));
        assert(in_ranges(a, b0.start as int));
        let ka = choose|k: int|
            0 <= k < a.len() && (#[trigger] a[k]).start <= b0.start < a[k].end;
        lemma_ranges_order(a, count, ka);
        assert(a0.start == b0.start);

        // the first index past either head range is uncovered: the ends agree
        if a0.end < b0.end {
            assert(b0.start <= a0.end < b0.end);
            assert(in_ranges(b, a0.end as int));
            assert(in_ranges(a, a0.end as int));
            let k = choose|k: int|
                0 <= k < a.len() && (#[trigger] a[k]).start <= a0.end < a[k].end;
            lemma_ranges_order(a, count, k);
            assert(false);
        }
        if b0.end < a0.end {
            assert(a0.start <= b0.end < a0.end);
            assert(in_ranges(a, b0.end as int));
            assert(in_ranges(b, b0.end as int));
            let k = choose|k: int|
                0 <= k < b.len() && (#[trigger] b[k]).start <= b0.end < b[k].end;
            lemma_ranges_order(b, count, k);
            assert(false);
        }
        assert(a0 == b0);

        // the tails cover the same indices, all past the shared head
        let ta = a.subrange(1, a.len() as int);
        let tb = b.subrange(1, b.len() as int);
        assert(ranges_well_formed(ta, count));
        assert(ranges_well_formed(tb, count));
        assert forall|i: int| in_ranges(ta, i) <==> in_ranges(tb, i) by {
            if in_ranges(ta, i) {
                let k = choose|k: int|
                    0 <= k < ta.len() && (#[trigger] ta[k]).start <= i < ta[k].end;
                assert(a[k + 1].start <= i < a[k + 1].end);
                assert(in_ranges(a, i));
                lemma_ranges_order(a, count, k + 1);
                assert(i > a0.end);
                assert(in_ranges(b, i));
                let m = choose|m: int|
                    0 <= m < b.len() && (#[trigger] b[m]).start <= i < b[m].end;
                assert(m > 0);
                assert(tb[m - 1].start <= i < tb[m - 1].end);
                assert(in_ranges(tb, i));
            }
            if in_ranges(tb, i) {
                let k = choose|k: int|
                    0 <= k < tb.len() && (#[trigger] tb[k]).start <= i < tb[k].end;
                assert(b[k + 1].start <= i < b[k + 1].end);
                assert(in_ranges(b, i));
                lemma_ranges_order(b, count, k + 1);
                assert(i > b0.end);
                assert(in_ranges(a, i));
                let m = choose|m: int|
                    0 <= m < a.len() && (#[trigger] a[m]).start <= i < a[m].end;
                assert(m > 0);
                assert(ta[m - 1].start <= i < ta[m - 1].end);
                assert(in_ranges(ta, i));
            }
        }
        lemma_missing_ranges_unique(ta, tb, count);
        assert forall|j: int| 0 <= j < a.len() implies a[j] == b[j] by {
            if j > 0 {
                assert(a[j] == ta[j - 1]);
                assert(b[j] == tb[j - 1]);
            }
        }
        assert(a =~= b);
    }
}

/// The concatenation of the stored bytes of chunks `0..k`, in index
/// order; an absent record contributes nothing.
pub open spec fn assembled_prefix(records: Seq<Option<Seq<u8>>>, k: int) -> Seq<u8>
    decreases k,
{
    if k <= 0 {
        Seq::empty()
    } else {
        assembled_prefix(records, k - 1) + (match records[k - 1] {
            Option::Some(d) => d,
            Option::None => Seq::empty(),
        })
    }
}

proof fn lemma_assembled_prefix_len(
    records: Seq<Option<Seq<u8>>>,
    size: u64,
    chunk_size: u64,
    k: int,
)
    requires
        chunk_size > 0,
        records.len() == chunk_count_spec(size, chunk_size),
        forall|i: int|
            0 <= i < records.len() ==> {
                &&& (#[trigger] records[i]) matches Some(d)
                &&& d.len() == chunk_len_spec(size, chunk_size, i)
            },
        0 <= k <= records.len(),
    ensures
        assembled_prefix(records, k).len() == sum_chunk_lens(size, chunk_size, k),
    decreases k,
{
    if k > 0 {
        lemma_assembled_prefix_len(records, size, chunk_size, k - 1);
    }
}

impl SessionState {
    /// Concatenate the chunks of a complete session, in strict ascending
    /// index order, into the final artifact: exactly `size` bytes.
    pub fn assemble(&self) -> (r: Vec<u8>)
        requires
            self.wf(),
            self.complete_spec(),
        ensures
            r@ == assembled_prefix(self.records_spec(), self.chunk_count()),
            r@.len() == self.param_spec().size,
    {
        let mut out: Vec<u8> = Vec::new();
        let mut i: usize = 0;

        while i < self.records.len()
            invariant
                self.wf(),
                self.complete_spec(),
                i <= self.records@.len(),
                out@ == assembled_prefix(self.records_spec(), i as int),
            decreases self.records@.len() - i,
        {
            assert(self.record_ok(i as int));
            match &self.records[i] {
                Some(d) => {
                    let mut j: usize = 0;
                    while j < d.len()
                        invariant
                            j <= d@.len(),
                            out@ == assembled_prefix(self.records_spec(), i as int) + d@.subrange(
                                0,
                                j as int,
                            ),
                        decreases d@.len() - j,
                    {
                        out.push(d[j]);
                        proof {
                            assert(d@.subrange(0, j + 1 as int) =~= d@.subrange(0, j as int).push(
                                d@[j as int],
                            ));
                        }
                        j += 1;
                    }
                    proof {
                        assert(d@.subrange(0, d@.len() as int) =~= d@);
                        assert(self.records_spec()[i as int] == Some(d@));
                    }
                },
                None => {
                    proof {
                        assert(false);
                    }
                },
            }
            i += 1;
        }

        proof {
            let records = self.records_spec();
            let size = self.param_spec().size;
            let chunk_size = self.param_spec().chunk_size;
            assert forall|k: int| 0 <= k < records.len() implies {
                &&& (#[trigger] records[k]) matches Some(d)
                &&& d.len() == chunk_len_spec(size, chunk_size, k)
            } by {
                assert(self.record_ok(k));
            }
            lemma_assembled_prefix_len(records, size, chunk_size, records.len() as int);
            lemma_partition_covers_size(size, chunk_size);
        }
        out
    }
}

/// Storing a chunk that is already present, with identical bytes, changes
/// nothing: the records — and with them the completeness checker's
/// verdict and the assembled artifact — stay exactly as they were.
pub proof fn lemma_store_chunk_idempotent(
    records: Seq<Option<Seq<u8>>>,
    index: int,
    data: Seq<u8>,
)
    requires
        0 <= index < records.len(),
        records[index] == Some(data),
    ensures
        records.update(index, Some(data)) == records,
{
    assert(records.update(index, Some(data)) =~= records);
}

/// Stores to two different indices commute: the session's records after
/// both do not depend on the order the chunks arrived in.
pub proof fn lemma_store_chunk_commutes(
    records: Seq<Option<Seq<u8>>>,
    i: int,
    j: int,
    di: Seq<u8>,
    dj: Seq<u8>,
)
    requires
        0 <= i < records.len(),
        0 <= j < records.len(),
        i != j,
    ensures
        records.update(i, Some(di)).update(j, Some(dj)) == records.update(j, Some(dj)).update(
            i,
            Some(di),
        ),
{
    assert(records.update(i, Some(di)).update(j, Some(dj)) =~= records.update(j, Some(dj)).update(
        i,
        Some(di),
    ));
}

/// Assembling a complete session recovers the source byte for byte: if
/// every record holds exactly its chunk's byte range of `source`, the
/// assembled artifact is `source`.  Together with
/// `lemma_store_chunk_commutes`, this holds whatever order the chunks
/// were stored in.
pub proof fn lemma_assemble_recovers_source(
    records: Seq<Option<Seq<u8>>>,
    size: u64,
    chunk_size: u64,
    source: Seq<u8>,
)
    requires
        chunk_size > 0,
        source.len() == size,
        records.len() == chunk_count_spec(size, chunk_size),
        forall|i: int|
            0 <= i < records.len() ==> #[trigger] records[i] == Some(
                source.subrange(
                    chunk_start_spec(chunk_size, i),
                    chunk_end_spec(size, chunk_size, i),
                ),
            ),
    ensures
        assembled_prefix(records, records.len() as int) == source,
{
    lemma_chunk_count_bounds(size, chunk_size);
    lemma_assembled_prefix_matches_source(records, size, chunk_size, source, records.len() as int);
    if records.len() == 0 {
        assert(assembled_prefix(records, 0) =~= source);
    } else {
        lemma_chunk_range(size, chunk_size, records.len() - 1);
        assert(source.subrange(0, size as int) =~= source);
    }
}

proof fn lemma_assembled_prefix_matches_source(
    records: Seq<Option<Seq<u8>>>,
    size: u64,
    chunk_size: u64,
    source: Seq<u8>,
    k: int,
)
    requires
        chunk_size > 0,
        source.len() == size,
        records.len() == chunk_count_spec(size, chunk_size),
        forall|i: int|
            0 <= i < records.len() ==> #[trigger] records[i] == Some(
                source.subrange(
                    chunk_start_spec(chunk_size, i),
                    chunk_end_spec(size, chunk_size, i),
                ),
            ),
        0 <= k <= records.len(),
    ensures
        assembled_prefix(records, k) == source.subrange(
            0,
            if k == 0 {
                0
            } else {
                chunk_end_spec(size, chunk_size, k - 1)
            },
        ),
    decreases k,
{
    if k == 0 {
        assert(assembled_prefix(records, 0) =~= source.subrange(0, 0));
    } else {
        lemma_assembled_prefix_matches_source(records, size, chunk_size, source, k - 1);
        lemma_chunk_range(size, chunk_size, k - 1);
        let prev_end: int = if k == 1 {
            0
        } else {
            chunk_end_spec(size, chunk_size, k - 2)
        };
        let start = chunk_start_spec(chunk_size, k - 1);
        let end = chunk_end_spec(size, chunk_size, k - 1);
        if k >= 2 {
            lemma_chunk_range(size, chunk_size, k - 2);
        }
        assert(prev_end == start);
        assert(source.subrange(0, start) + source.subrange(start, end) =~= source.subrange(0, end));
    }
}

} // verus!
