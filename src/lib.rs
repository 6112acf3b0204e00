//! A crash-safe, append-only, multi-queue write-ahead log.
//!
//! The log is a sequence of blocks of `2^15 = 32_768` bytes, each holding
//! checksummed frames. Frames carry logical records, which may span several
//! blocks. Logical records carry tagged operations on named queues, and the
//! queues are rebuilt in memory by replaying those operations.
//!
//! Everything in this crate is computation on values: the bytes that must
//! reach a file are handed out as file operations (`IoOp`), and the bytes
//! read back from a file are handed in as vectors.
pub mod directory;
pub mod error;
pub mod frame;
pub mod frame_reader;
pub mod frame_writer;
pub mod le_bytes;
pub mod log_record;
pub mod mem_queue;
pub mod mem_queues;
pub mod multi_record_log;
pub mod position;
pub mod positions;
pub mod record;
pub mod rolling;

pub use directory::Directory;
pub use error::{
    AlreadyExists, AppendError, CreateQueueError, DeleteQueueError, MissingQueue, OpenError,
    TouchError, TruncateError,
};
pub use frame::{frame_type, FrameType, Header, BLOCK_LEN, HEADER_LEN};
pub use frame_reader::{FrameReader, ReadFrameError};
pub use frame_writer::FrameWriter;
pub use log_record::{Record, RecordType};
pub use mem_queue::{MemQueue, RecordMeta};
pub use mem_queues::{MemQueues, Truncation};
pub use multi_record_log::{LogReplay, MultiRecordLog, SyncPolicy};
pub use position::{filename_to_position, FileNumber};
pub use positions::PositionRange;
pub use record::{ReadRecordError, RecordReader, RecordWriter};
pub use rolling::{IoOp, RecordLogWriter, FILE_SIZE_LIMIT};
