use chua::chunks_for_ranges;
use chua::effective_parallel;
use chua::expected_chunk_len;
use chua::handle_complete_result;
use chua::handle_initialize_result;
use chua::join_worker_results;
use chua::worker_step;
use chua::ByteRange;
use chua::Chunk;
use chua::ChuaError;
use chua::ChunkIterator;
use chua::CompleteError;
use chua::CompleteResult;
use chua::IndexRange;
use chua::InitStep;
use chua::InitializeError;
use chua::InitializeResult;
use chua::SessionState;
use chua::UploadParam;
use chua::WorkerAction;

#[test]
fn worker_uploads_a_chunk_and_finishes_on_none() {
    let chunk = Chunk { index: 4, data: vec![9, 9, 9] };
    match worker_step(Some(chunk)) {
        WorkerAction::Upload(c) => {
            assert_eq!(c.index, 4);
            assert_eq!(c.data, vec![9, 9, 9]);
        }
        WorkerAction::Finish => panic!("a chunk must be uploaded"),
    }
    assert!(matches!(worker_step(None), WorkerAction::Finish));
}

#[test]
fn parallelism_defaults_to_cpu_count() {
    assert_eq!(effective_parallel(7), 7);
    assert!(effective_parallel(0) >= 1);
}

#[test]
fn initialize_reply_branches() {
    let s = handle_initialize_result(InitializeResult::Accepted { id: 42, duplicated: true });
    assert!(matches!(s, InitStep::AlreadyDone { id: 42 }));

    let s = handle_initialize_result(InitializeResult::Accepted { id: 42, duplicated: false });
    assert!(matches!(s, InitStep::Proceed { id: 42 }));

    let s = handle_initialize_result(InitializeResult::Rejected {
        error: InitializeError::Size { max: 10 },
    });
    assert!(matches!(
        s,
        InitStep::Refused {
            error: InitializeError::Size { max: 10 }
        }
    ));
}

#[test]
fn complete_reply_branches() {
    assert_eq!(handle_complete_result(CompleteResult::Accepted), Ok(()));
    let r = handle_complete_result(CompleteResult::Rejected {
        error: CompleteError::Other {
            detail: "boom".to_string(),
        },
    });
    assert_eq!(
        r,
        Err(CompleteError::Other {
            detail: "boom".to_string()
        })
    );
}

#[test]
fn pool_succeeds_only_when_every_worker_exits_cleanly() {
    assert_eq!(join_worker_results(vec![Ok(()), Ok(()), Ok(())]), Ok(()));
    assert_eq!(join_worker_results(vec![]), Ok(()));
}

#[test]
fn pool_surfaces_the_first_collected_error() {
    let results: Vec<Result<(), ChuaError>> = vec![
        Ok(()),
        Err(ChuaError::Transport {
            detail: "reset".to_string(),
        }),
        Err(ChuaError::Io {
            detail: "late".to_string(),
        }),
    ];
    assert_eq!(
        join_worker_results(results),
        Err(ChuaError::Transport {
            detail: "reset".to_string()
        })
    );
}

#[test]
fn resume_plan_covers_exactly_the_missing_ranges() {
    let ranges = vec![
        IndexRange { start: 0, end: 1 },
        IndexRange { start: 2, end: 3 },
    ];
    let chunks = chunks_for_ranges(250, 100, &ranges);
    assert_eq!(
        chunks,
        vec![
            (0, ByteRange { start: 0, end: 100 }),
            (2, ByteRange { start: 200, end: 250 }),
        ]
    );
}

#[test]
fn resume_plan_flattens_wide_ranges() {
    let ranges = vec![IndexRange { start: 1, end: 4 }];
    let chunks = chunks_for_ranges(600, 100, &ranges);
    assert_eq!(
        chunks,
        vec![
            (1, ByteRange { start: 100, end: 200 }),
            (2, ByteRange { start: 200, end: 300 }),
            (3, ByteRange { start: 300, end: 400 }),
        ]
    );
}

#[test]
fn dispatch_with_four_workers_stores_each_of_ten_chunks_once() {
    let size: u64 = 1000;
    let chunk_size: u64 = 100;
    let source: Vec<u8> = (0..size as usize).map(|i| (i * 17 % 251) as u8).collect();

    let param = UploadParam {
        size,
        chunk_size,
        extension: "bin".to_string(),
        md5: String::new(),
    };
    let mut state = SessionState::new(param);
    let mut iterator = ChunkIterator::new(size, chunk_size);

    let parallel = effective_parallel(4);
    assert_eq!(parallel, 4);

    // Four workers take turns pulling from the single chunk source; each
    // stores what it pulled, so arrival order interleaves the workers.
    let mut stored_counts = vec![0usize; 10];
    let mut active = vec![true; parallel];
    let mut w = 0;
    while active.iter().any(|a| *a) {
        if active[w] {
            let reply = iterator.next().map(|(index, range)| Chunk {
                index,
                data: source[range.start as usize..range.end as usize].to_vec(),
            });
            match worker_step(reply) {
                WorkerAction::Upload(chunk) => {
                    stored_counts[chunk.index] += 1;
                    let expected = expected_chunk_len(size, chunk_size, chunk.index);
                    let stored = state.store_chunk(chunk.index, chunk.data);
                    assert_eq!(stored, expected);
                }
                WorkerAction::Finish => {
                    active[w] = false;
                }
            }
        }
        w = (w + 1) % parallel;
    }

    for count in &stored_counts {
        assert_eq!(*count, 1);
    }
    assert!(state.is_complete());
    assert_eq!(state.assemble(), source);
}
