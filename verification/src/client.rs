//! The client side of the protocol: the decisions of the dispatcher's
//! workers, the size of the worker pool, the join of the pool's results,
//! the branches on the server's replies, and the plan for resending
//! exactly the ranges a resumed upload is missing.

use crate::plan::chunk_count_spec;
use crate::plan::chunk_end_spec;
use crate::plan::chunk_start_spec;
use crate::plan::lemma_chunk_range;
use crate::plan::ByteRange;
use crate::protocol::ChuaError;
use crate::protocol::CompleteError;
use crate::protocol::CompleteResult;
use crate::protocol::IndexRange;
use crate::protocol::InitializeError;
use crate::protocol::InitializeResult;
use crate::session::expected_chunk_len;
use crate::session::in_ranges;
use crate::session::ranges_well_formed;
use vstd::prelude::*;

verus! {

/// One chunk of the source file, owned by whichever stage currently
/// holds it: the producer until handed off, then the uploading worker.
#[derive(Debug)]
pub struct Chunk {
    pub index: usize,
    pub data: Vec<u8>,
}

/// What a dispatcher worker does after one pull from the chunk source.
pub enum WorkerAction {
    /// upload this chunk, addressed by its index, then pull again
    Upload(Chunk),
    /// the source is exhausted: exit cleanly
    Finish,
}

/// A worker's decision on one pull reply: a chunk is uploaded; an
/// exhausted source ends the worker cleanly.  A closed request channel
/// is handed in as `None` and treated identically to exhaustion.
pub fn worker_step(reply: Option<Chunk>) -> (r: WorkerAction)
    ensures
        reply matches Some(c) ==> {
            &&& r matches WorkerAction::Upload(u)
            &&& u == c
        },
        reply is None ==> r is Finish,
{
    match reply {
        Some(chunk) => WorkerAction::Upload(chunk),
        None => WorkerAction::Finish,
    }
}

/// Relies on `num_cpus::get`: the number of logical CPUs available to
/// this process, which its documentation promises is always at least 1.
#[verifier::external_body]
fn cpu_count() -> (r: usize)
    ensures
        r >= 1,
{
    num_cpus::get()
}

/// The size of the worker pool: the caller's choice, or the host's CPU
/// count when the caller passes zero.
pub fn effective_parallel(parallel: usize) -> (r: usize)
    ensures
        parallel > 0 ==> r == parallel,
        r >= 1,
{
    if parallel == 0 {
        cpu_count()
    } else {
        parallel
    }
}

/// What the client does after the initialization reply.
pub enum InitStep {
    /// the server already holds this content: nothing left to upload
    AlreadyDone { id: u128 },
    /// a fresh session: dispatch the chunks, then request completion
    Proceed { id: u128 },
    /// initialization was refused: abort with the server's error
    Refused { error: InitializeError },
}

/// The client's branch on the initialization reply: a duplicated file
/// finishes the upload at once, a fresh session proceeds to dispatch,
/// and a rejection aborts.
pub fn handle_initialize_result(r: InitializeResult) -> (s: InitStep)
    ensures
        r matches InitializeResult::Accepted { id, duplicated } ==> {
            &&& duplicated ==> s == (InitStep::AlreadyDone { id })
            &&& !duplicated ==> s == (InitStep::Proceed { id })
        },
        r matches InitializeResult::Rejected { error } ==> s == (InitStep::Refused { error }),
{
    match r {
        InitializeResult::Accepted { id, duplicated } => {
            if duplicated {
                InitStep::AlreadyDone { id }
            } else {
                InitStep::Proceed { id }
            }
        },
        InitializeResult::Rejected { error } => InitStep::Refused { error },
    }
}

/// The client's branch on the completion reply: success, or the server's
/// structured error (whose `Incomplete` ranges drive a resumed run).
pub fn handle_complete_result(r: CompleteResult) -> (s: Result<(), CompleteError>)
    ensures
        r is Accepted <==> s is Ok,
        r matches CompleteResult::Rejected { error } ==> {
            &&& s matches Err(e)
            &&& e == error
        },
{
    match r {
        CompleteResult::Accepted => Ok(()),
        CompleteResult::Rejected { error } => Err(error),
    }
}

/// The pool's overall result is the join of all workers: success only
/// when every worker exited cleanly, and otherwise the first collected
/// error, surfaced once after all workers have been joined.
#[verifier::loop_isolation(false)]
pub fn join_worker_results(results: Vec<Result<(), ChuaError>>) -> (r: Result<(), ChuaError>)
    ensures
        r is Ok <==> (forall|i: int| 0 <= i < results@.len() ==> (#[trigger] results@[i]) is Ok),
        r matches Err(e) ==> exists|i: int|
            {
                &&& 0 <= i < results@.len()
                &&& (#[trigger] results@[i]) matches Err(e2) && e2 == e
                &&& forall|j: int| 0 <= j < i ==> (#[trigger] results@[j]) is Ok
            },
{
    let ghost orig = results@;
    let mut rest = results;
    let mut k: usize = 0;

    while k < rest.len()
        invariant
            rest@ == orig,
            k <= orig.len(),
            forall|j: int| 0 <= j < k ==> (#[trigger] orig[j]) is Ok,
        decreases orig.len() - k,
    {
        if rest[k].is_err() {
            match rest.remove(k) {
                Err(e) => {
                    proof {
                        assert(orig[k as int] matches Err(e2) && e2 == e);
                        assert(exists|i: int|
                            {
                                &&& 0 <= i < orig.len()
                                &&& (#[trigger] orig[i]) matches Err(e2) && e2 == e
                                &&& forall|j: int| 0 <= j < i ==> (#[trigger] orig[j]) is Ok
                            });
                    }
                    return Err(e);
                },
                Ok(()) => {
                    proof {
                        assert(false);
                    }
                    return Ok(());
                },
            }
        }
        k += 1;
    }
    Ok(())
}

spec fn in_ranges_prefix(ranges: Seq<IndexRange>, upto: int, i: int) -> bool {
    exists|k: int| 0 <= k < upto && (#[trigger] ranges[k]).start <= i < ranges[k].end
}

/// The chunks a resumed upload must resend: the partition entries of
/// exactly the indices the server reported missing, in ascending index
/// order, each index once with its byte range.
#[verifier::rlimit(80)]
pub fn chunks_for_ranges(size: u64, chunk_size: u64, ranges: &Vec<IndexRange>) -> (r: Vec<
    (usize, ByteRange),
>)
    requires
        chunk_size > 0,
        ranges_well_formed(ranges@, chunk_count_spec(size, chunk_size)),
    ensures
        forall|j: int|
            0 <= j < r@.len() ==> {
                &&& in_ranges(ranges@, (#[trigger] r@[j]).0 as int)
                &&& r@[j].1.start == chunk_start_spec(chunk_size, r@[j].0 as int)
                &&& r@[j].1.end == chunk_end_spec(size, chunk_size, r@[j].0 as int)
            },
        forall|j: int| 0 < j < r@.len() ==> (#[trigger] r@[j]).0 > r@[j - 1].0,
        forall|i: int|
            #[trigger] in_ranges(ranges@, i) ==> exists|j: int|
                0 <= j < r@.len() && (#[trigger] r@[j]).0 == i,
{
    let ghost count = chunk_count_spec(size, chunk_size);
    let mut out: Vec<(usize, ByteRange)> = Vec::new();
    let mut k: usize = 0;

    while k < ranges.len()
        invariant
            chunk_size > 0,
            ranges_well_formed(ranges@, count),
            count == chunk_count_spec(size, chunk_size),
            k <= ranges@.len(),
            forall|j: int|
                0 <= j < out@.len() ==> {
                    &&& in_ranges(ranges@, (#[trigger] out@[j]).0 as int)
                    &&& out@[j].1.start == chunk_start_spec(chunk_size, out@[j].0 as int)
                    &&& out@[j].1.end == chunk_end_spec(size, chunk_size, out@[j].0 as int)
                },
            forall|j: int| 0 < j < out@.len() ==> (#[trigger] out@[j]).0 > out@[j - 1].0,
            out@.len() > 0 && k < ranges@.len() ==> out@[out@.len() - 1].0 < ranges@[k as int].start,
            forall|i: int|
                #[trigger] in_ranges_prefix(ranges@, k as int, i) ==> exists|j: int|
                    0 <= j < out@.len() && (#[trigger] out@[j]).0 == i,
        decreases ranges@.len() - k,
    {
        let rng = ranges[k];
        let mut idx: usize = rng.start;

        while idx < rng.end
            invariant
                chunk_size > 0,
                ranges_well_formed(ranges@, count),
                count == chunk_count_spec(size, chunk_size),
                k < ranges@.len(),
                ranges@[k as int] == rng,
                rng.start <= idx <= rng.end,
                forall|j: int|
                    0 <= j < out@.len() ==> {
                        &&& in_ranges(ranges@, (#[trigger] out@[j]).0 as int)
                        &&& out@[j].1.start == chunk_start_spec(chunk_size, out@[j].0 as int)
                        &&& out@[j].1.end == chunk_end_spec(size, chunk_size, out@[j].0 as int)
                    },
                forall|j: int| 0 < j < out@.len() ==> (#[trigger] out@[j]).0 > out@[j - 1].0,
                out@.len() > 0 ==> out@[out@.len() - 1].0 < idx,
                forall|i: int|
                    #[trigger] in_ranges_prefix(ranges@, k as int, i) ==> exists|j: int|
                        0 <= j < out@.len() && (#[trigger] out@[j]).0 == i,
                forall|i: int|
                    #[trigger] in_ranges(ranges@, i) && rng.start <= i < idx ==> exists|j: int|
                        0 <= j < out@.len() && (#[trigger] out@[j]).0 == i,
            decreases rng.end - idx,
        {
            proof {
                lemma_chunk_range(size, chunk_size, idx as int);
            }
            let start = idx as u64 * chunk_size;
            let len = expected_chunk_len(size, chunk_size, idx);
            let entry = (idx, ByteRange { start, end: start + len });
            let ghost prev = out@;
            out.push(entry);
            proof {
                assert(out@ == prev.push(entry));
                assert forall|j: int| 0 <= j < prev.len() implies out@[j] == prev[j] by {}
                assert(out@[out@.len() - 1].0 == idx);
                assert(ranges@[k as int].start <= idx as int && (idx as int) < ranges@[
                    k as int
                ].end);
                assert(in_ranges(ranges@, idx as int));
                assert forall|i: int| #[trigger] in_ranges_prefix(
                    ranges@,
                    k as int,
                    i,
                ) implies exists|j: int| 0 <= j < out@.len() && (#[trigger] out@[j]).0 == i by {
                    let j = choose|j: int| 0 <= j < prev.len() && (#[trigger] prev[j]).0 == i;
                    assert(out@[j].0 == i);
                }
                assert forall|i: int|
                    #[trigger] in_ranges(ranges@, i) && rng.start <= i < idx + 1 implies exists|
                    j: int,
                | 0 <= j < out@.len() && (#[trigger] out@[j]).0 == i by {
                    if i < idx {
                        let j = choose|j: int| 0 <= j < prev.len() && (#[trigger] prev[j]).0 == i;
                        assert(out@[j].0 == i);
                    } else {
                        assert(out@[out@.len() - 1].0 == i);
                    }
                }
            }
            idx += 1;
        }

        proof {
            assert forall|i: int| #[trigger] in_ranges_prefix(ranges@, k + 1, i) implies exists|
                j: int,
            | 0 <= j < out@.len() && (#[trigger] out@[j]).0 == i by {
                let m = choose|m: int|
                    0 <= m < k + 1 && (#[trigger] ranges@[m]).start <= i < ranges@[m].end;
                if m == k {
                    assert(in_ranges(ranges@, i));
                    assert(rng.start <= i < idx);
                } else {
                    assert(in_ranges_prefix(ranges@, k as int, i));
                }
            }
        }
        k += 1;
    }

    proof {
        assert forall|i: int| #[trigger] in_ranges(ranges@, i) implies exists|j: int|
            0 <= j < out@.len() && (#[trigger] out@[j]).0 == i by {
            let m = choose|m: int|
                0 <= m < ranges@.len() && (#[trigger] ranges@[m]).start <= i < ranges@[m].end;
            assert(in_ranges_prefix(ranges@, ranges@.len() as int, i));
        }
    }
    out
}

} // verus!
