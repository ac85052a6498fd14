pub mod client;
pub mod plan;
pub mod protocol;
pub mod session;

pub use client::chunks_for_ranges;
pub use client::effective_parallel;
pub use client::handle_complete_result;
pub use client::handle_initialize_result;
pub use client::join_worker_results;
pub use client::worker_step;
pub use client::Chunk;
pub use client::InitStep;
pub use client::WorkerAction;
pub use plan::compute_chunk_count;
pub use plan::partition;
pub use plan::ByteRange;
pub use plan::ChunkIterator;
pub use protocol::ChuaError;
pub use protocol::ChuaResult;
pub use protocol::CompleteError;
pub use protocol::CompleteResult;
pub use protocol::IndexRange;
pub use protocol::InitializeError;
pub use protocol::InitializeResult;
pub use protocol::UploadChunkError;
pub use protocol::UploadChunkResult;
pub use protocol::UploadParam;
pub use session::check_complete;
pub use session::check_stored_chunk;
pub use session::expected_chunk_len;
pub use session::initialize_session;
pub use session::missing_ranges;
pub use session::validate_param;
pub use session::SessionState;
