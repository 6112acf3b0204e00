//! The errors of the log's operations.
use vstd::prelude::*;

verus! {

/// The queue does not exist.
#[derive(Debug, PartialEq, Eq)]
pub struct MissingQueue(pub String);

/// The queue exists already.
#[derive(Clone, Copy, Debug, PartialEq, Eq, Structural)]
pub struct AlreadyExists;

/// A touch that disagrees with the next position of a live queue.
#[derive(Clone, Copy, Debug, PartialEq, Eq, Structural)]
pub struct TouchError;

#[derive(Debug, PartialEq, Eq)]
pub enum AppendError {
    /// The position is before the last position of the queue.
    Past,
    /// The position is after the next position of the queue.
    Future,
    /// The queue does not exist.
    MissingQueue(String),
}

#[derive(Debug, PartialEq, Eq)]
pub enum CreateQueueError {
    AlreadyExists,
}

#[derive(Debug, PartialEq, Eq)]
pub enum DeleteQueueError {
    MissingQueue(String),
}

#[derive(Debug, PartialEq, Eq)]
pub enum TruncateError {
    /// The position is not before the next position of the queue.
    Future,
    /// The queue does not exist.
    MissingQueue(String),
}

} // verus!

verus! {

#[derive(Clone, Copy, Debug, PartialEq, Eq, Structural)]
pub enum OpenError {
    /// Some files of the log were not replayed.
    UnreadFiles,
    /// The last file number is `u32::MAX`: no new file can be started.
    NoFileNumberLeft,
}

} // verus!
