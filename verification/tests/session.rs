use chua::check_complete;
use chua::check_stored_chunk;
use chua::expected_chunk_len;
use chua::initialize_session;
use chua::missing_ranges;
use chua::validate_param;
use chua::CompleteError;
use chua::CompleteResult;
use chua::IndexRange;
use chua::InitializeError;
use chua::InitializeResult;
use chua::SessionState;
use chua::UploadChunkError;
use chua::UploadChunkResult;
use chua::UploadParam;

fn param(size: u64, chunk_size: u64) -> UploadParam {
    UploadParam {
        size,
        chunk_size,
        extension: "bin".to_string(),
        md5: String::new(),
    }
}

#[test]
fn validate_rejects_zero_size() {
    let r = validate_param(0, 100, 1 << 30, 1 << 20);
    assert_eq!(r, Err(InitializeError::Size { max: 1 << 30 }));
}

#[test]
fn validate_rejects_oversize_file() {
    let r = validate_param((1 << 30) + 1, 100, 1 << 30, 1 << 20);
    assert_eq!(r, Err(InitializeError::Size { max: 1 << 30 }));
}

#[test]
fn validate_rejects_zero_chunk_size() {
    let r = validate_param(100, 0, 1 << 30, 1 << 20);
    assert_eq!(r, Err(InitializeError::ChunkSize { max: 1 << 20 }));
}

#[test]
fn validate_rejects_oversize_chunk() {
    let r = validate_param(100, (1 << 20) + 1, 1 << 30, 1 << 20);
    assert_eq!(r, Err(InitializeError::ChunkSize { max: 1 << 20 }));
}

#[test]
fn validate_accepts_in_bounds() {
    assert_eq!(validate_param(100, 10, 1 << 30, 1 << 20), Ok(()));
}

#[test]
fn initialize_rejects_empty_upload() {
    let r = initialize_session(&param(0, 100), 1 << 30, 1 << 20);
    assert_eq!(
        r,
        InitializeResult::Rejected {
            error: InitializeError::Size { max: 1 << 30 }
        }
    );
}

#[test]
fn initialize_rejects_zero_chunk_size() {
    let r = initialize_session(&param(250, 0), 1 << 30, 1 << 20);
    assert_eq!(
        r,
        InitializeResult::Rejected {
            error: InitializeError::ChunkSize { max: 1 << 20 }
        }
    );
}

#[test]
fn initialize_allocates_version_four_id() {
    match initialize_session(&param(250, 100), 1 << 30, 1 << 20) {
        InitializeResult::Accepted { id, duplicated } => {
            assert!(!duplicated);
            // the allocated identifier carries the random-version and
            // standard-variant bits, so the id cannot be a constant zero
            assert_eq!(id & 0xF000_0000_0000_0000_0000u128, 0x4000_0000_0000_0000_0000u128);
            assert_eq!(id & 0xC000_0000_0000_0000u128, 0x8000_0000_0000_0000u128);
        }
        other => panic!("expected acceptance, got {:?}", other),
    }
}

#[test]
fn initialize_allocates_fresh_ids() {
    let a = initialize_session(&param(250, 100), 1 << 30, 1 << 20);
    let b = initialize_session(&param(250, 100), 1 << 30, 1 << 20);
    match (a, b) {
        (
            InitializeResult::Accepted { id: ida, .. },
            InitializeResult::Accepted { id: idb, .. },
        ) => assert_ne!(ida, idb),
        other => panic!("expected two acceptances, got {:?}", other),
    }
}

#[test]
fn expected_len_of_each_index() {
    assert_eq!(expected_chunk_len(250, 100, 0), 100);
    assert_eq!(expected_chunk_len(250, 100, 1), 100);
    assert_eq!(expected_chunk_len(250, 100, 2), 50);
    assert_eq!(expected_chunk_len(300, 100, 2), 100);
    assert_eq!(expected_chunk_len(7, 100, 0), 7);
}

#[test]
fn stored_chunk_of_right_length_is_accepted() {
    assert_eq!(check_stored_chunk(250, 100, 1, 100), UploadChunkResult::Accepted);
    assert_eq!(check_stored_chunk(250, 100, 2, 50), UploadChunkResult::Accepted);
}

#[test]
fn stored_chunk_of_wrong_length_names_both_lengths() {
    let r = check_stored_chunk(250, 100, 2, 100);
    assert_eq!(
        r,
        UploadChunkResult::Rejected {
            error: UploadChunkError::Size {
                expected: 50,
                actual: 100
            }
        }
    );
}

#[test]
fn missing_ranges_of_single_stored_index() {
    // store only index 1 of the 3-chunk partition of 250 by 100
    let lengths = vec![None, Some(100), None];
    let r = missing_ranges(250, 100, &lengths);
    assert_eq!(
        r,
        vec![
            IndexRange { start: 0, end: 1 },
            IndexRange { start: 2, end: 3 }
        ]
    );
}

#[test]
fn missing_ranges_empty_when_all_stored() {
    let lengths = vec![Some(100), Some(100), Some(50)];
    assert_eq!(missing_ranges(250, 100, &lengths), vec![]);
}

#[test]
fn missing_ranges_whole_partition_when_nothing_stored() {
    let lengths = vec![None, None, None];
    assert_eq!(
        missing_ranges(250, 100, &lengths),
        vec![IndexRange { start: 0, end: 3 }]
    );
}

#[test]
fn wrong_length_counts_as_missing() {
    // index 2 must hold 50 bytes; 100 is not a valid record
    let lengths = vec![Some(100), Some(100), Some(100)];
    assert_eq!(
        missing_ranges(250, 100, &lengths),
        vec![IndexRange { start: 2, end: 3 }]
    );
}

#[test]
fn missing_ranges_are_coalesced_complement() {
    // chunks stored for S = {0, 3, 4} of the 6-chunk partition of 600
    let lengths = vec![Some(100), None, None, Some(100), Some(100), None];
    assert_eq!(
        missing_ranges(600, 100, &lengths),
        vec![
            IndexRange { start: 1, end: 3 },
            IndexRange { start: 5, end: 6 }
        ]
    );
}

#[test]
fn complete_request_on_full_session_is_accepted() {
    let lengths = vec![Some(100), Some(100), Some(50)];
    let r = check_complete(param(250, 100), &lengths);
    assert_eq!(r, CompleteResult::Accepted);
}

#[test]
fn complete_request_on_partial_session_reports_ranges() {
    let lengths = vec![None, Some(100), None];
    let r = check_complete(param(250, 100), &lengths);
    assert_eq!(
        r,
        CompleteResult::Rejected {
            error: CompleteError::Incomplete {
                param: param(250, 100),
                ranges: vec![
                    IndexRange { start: 0, end: 1 },
                    IndexRange { start: 2, end: 3 }
                ]
            }
        }
    );
}

fn source_bytes(size: usize) -> Vec<u8> {
    (0..size).map(|i| (i * 31 % 251) as u8).collect()
}

#[test]
fn session_tracks_gaps_and_assembles() {
    let source = source_bytes(250);
    let mut state = SessionState::new(param(250, 100));
    assert!(!state.is_complete());
    assert_eq!(
        state.missing_ranges(),
        vec![IndexRange { start: 0, end: 3 }]
    );

    // chunks arrive out of index order
    let stored = state.store_chunk(2, source[200..250].to_vec());
    assert_eq!(stored, 50);
    assert_eq!(
        state.missing_ranges(),
        vec![IndexRange { start: 0, end: 2 }]
    );

    state.store_chunk(0, source[0..100].to_vec());
    assert_eq!(
        state.missing_ranges(),
        vec![IndexRange { start: 1, end: 2 }]
    );
    assert!(!state.is_complete());

    state.store_chunk(1, source[100..200].to_vec());
    assert!(state.is_complete());
    assert_eq!(state.missing_ranges(), vec![]);
    assert_eq!(state.assemble(), source);
}

#[test]
fn storing_same_chunk_twice_changes_nothing() {
    let source = source_bytes(250);
    let mut state = SessionState::new(param(250, 100));
    state.store_chunk(0, source[0..100].to_vec());
    state.store_chunk(1, source[100..200].to_vec());
    state.store_chunk(2, source[200..250].to_vec());
    let before = state.missing_ranges();
    assert!(state.is_complete());

    state.store_chunk(1, source[100..200].to_vec());
    assert_eq!(state.missing_ranges(), before);
    assert!(state.is_complete());
    assert_eq!(state.assemble(), source);
}

#[test]
fn mis_sized_record_is_reported_until_replaced() {
    let source = source_bytes(250);
    let mut state = SessionState::new(param(250, 100));
    state.store_chunk(0, source[0..100].to_vec());
    state.store_chunk(1, source[100..150].to_vec());  // wrong length
    state.store_chunk(2, source[200..250].to_vec());
    assert_eq!(
        state.missing_ranges(),
        vec![IndexRange { start: 1, end: 2 }]
    );

    // the resume replays that index with the right bytes
    state.store_chunk(1, source[100..200].to_vec());
    assert!(state.is_complete());
    assert_eq!(state.assemble(), source);
}

#[test]
fn out_of_range_index_is_ignored() {
    let source = source_bytes(250);
    let mut state = SessionState::new(param(250, 100));
    state.store_chunk(0, source[0..100].to_vec());
    let len = state.store_chunk(7, vec![1, 2, 3]);
    assert_eq!(len, 3);
    assert_eq!(
        state.missing_ranges(),
        vec![IndexRange { start: 1, end: 3 }]
    );
}

#[test]
fn alternating_gaps_stay_separate_ranges() {
    let lengths = vec![Some(100), None, Some(100), None, Some(100)];
    assert_eq!(
        missing_ranges(500, 100, &lengths),
        vec![
            IndexRange { start: 1, end: 2 },
            IndexRange { start: 3, end: 4 }
        ]
    );
}
