//! Writes log records across a sequence of size-bounded files, and hands out
//! the file operations that this takes.
use vstd::prelude::*;

use crate::directory::{collectable, Directory};
use crate::log_record::{encodable, encode_record, well_formed_records, Record, RecordType, RecordView};
use crate::position::{file_opt, FileNumber};
use crate::record::{record_layout, RecordWriter};

verus! {

/// Default size at which the writer moves on to a new file.
pub const FILE_SIZE_LIMIT: u64 = 50_000_000;

/// A file operation for the caller to perform, in order.
#[derive(Debug, PartialEq, Eq)]
pub enum IoOp {
    /// Create the (new, empty) file.
    CreateFile(FileNumber),
    /// Append the bytes to the file.
    Write(FileNumber, Vec<u8>),
    /// Make what was written to the file durable.
    Sync(FileNumber),
    /// Delete the file.
    DeleteFile(FileNumber),
}

/// What an operation does.
pub enum IoOpView {
    Create(u32),
    Write(u32, Seq<u8>),
    Sync(u32),
    Delete(u32),
}

impl View for IoOp {
    type V = IoOpView;

    open spec fn view(&self) -> IoOpView {
        match self {
            IoOp::CreateFile(f) => IoOpView::Create(f@),
            IoOp::Write(f, b) => IoOpView::Write(f@, b@),
            IoOp::Sync(f) => IoOpView::Sync(f@),
            IoOp::DeleteFile(f) => IoOpView::Delete(f@),
        }
    }
}

/// Writes records to the last file of a directory, moving to a new file
/// once the current one has reached the size limit.
pub struct RecordLogWriter {
    directory: Directory,
    file: FileNumber,
    record_writer: RecordWriter,
    ops: Vec<IoOp>,
    file_size_limit: u64,
    buffer: Vec<u8>,
    records: Ghost<Seq<RecordView>>,
}

/// The bytes of each log record.
pub open spec fn encodings(rs: Seq<RecordView>) -> Seq<Seq<u8>> {
    rs.map_values(|r: RecordView| encode_record(r))
}

impl RecordLogWriter {
    /// The current file is the last one of the directory, and its bytes are
    /// the log records written to it, one after the other.
    pub closed spec fn wf(&self) -> bool {
        &&& self.directory.wf()
        &&& self.directory.view().len() > 0
        &&& self.directory.view().last() == self.file@
        &&& self.record_writer.wf()
        &&& self.record_writer.frames().start() == 0
        &&& self.record_writer.written() == encodings(self.records@)
        &&& forall|i: int|
            0 <= i < self.records@.len() ==> encodable(#[trigger] self.records@[i]) && (
            self.records@[i].kind != RecordType::AppendRecord ==> self.records@[i].payload.len() == 0)
    }

    /// The log records written to the current file, in order.
    pub closed spec fn file_records(&self) -> Seq<RecordView> {
        self.records@
    }

    /// The current file holds the log records written to it, one after the
    /// other.
    pub proof fn lemma_file_bytes(&self)
        requires
            self.wf(),
        ensures
            self.file_bytes() == crate::record::records_layout(encodings(self.file_records())).0,
            well_formed_records(self.file_records()),
    {
        self.record_writer.lemma_layout();
    }

    /// The files of the log.
    pub closed spec fn files(&self) -> Seq<u32> {
        self.directory.view()
    }

    /// The files ascend and end with the current one.
    pub proof fn lemma_files(&self)
        requires
            self.wf(),
        ensures
            crate::directory::ascending(self.files()),
            self.files().len() > 0,
            self.files().last() == self.current(),
            0 <= self.block_len() < crate::frame::BLOCK_LEN,
            (self.file_bytes().len() as int) % (crate::frame::BLOCK_LEN as int) == self.block_len(),
    {
        self.record_writer.lemma_block_len();
    }

    /// The file being written.
    pub closed spec fn current(&self) -> u32 {
        self.file@
    }

    /// The operations handed out by the next `take_ops`.
    pub closed spec fn ops(&self) -> Seq<IoOpView> {
        Seq::new(self.ops@.len(), |i: int| self.ops@[i]@)
    }

    /// Every byte written to the current file, flushed or not.
    pub closed spec fn file_bytes(&self) -> Seq<u8> {
        self.record_writer.frames().emitted()
    }

    /// Bytes written to the current file and not flushed yet.
    pub closed spec fn unflushed(&self) -> Seq<u8> {
        self.record_writer.frames().pending()
    }

    /// Bytes in the last block of the current file.
    pub closed spec fn block_len(&self) -> int {
        self.record_writer.frames().block_len()
    }

    /// Bytes written to the current file, saturated at `u64::MAX`.
    pub closed spec fn written(&self) -> u64 {
        self.record_writer.frames().written()
    }

    /// The size at which the writer moves on to a new file.
    pub closed spec fn limit(&self) -> u64 {
        self.file_size_limit
    }

    /// Starts a new file after the last one of `directory`, and writes there;
    /// `None` if the last file number is `u32::MAX`.
    pub fn open(directory: Directory, file_size_limit: u64) -> (r: Option<RecordLogWriter>)
        requires
            directory.wf(),
        ensures
            r is None <==> (directory.view().len() > 0 && directory.view().last() == u32::MAX),
            r matches Some(w) ==> {
                &&& w.wf()
                &&& w.files() == directory.view().push(w.current())
                &&& w.ops() == seq![IoOpView::Create(w.current())]
                &&& w.file_bytes() == Seq::<u8>::empty()
                &&& w.file_records() == Seq::<RecordView>::empty()
                &&& w.unflushed() == Seq::<u8>::empty()
                &&& w.block_len() == 0
                &&& w.limit() == file_size_limit
            },
    {
        let mut directory = directory;
        let file = match directory.new_file() {
            Some(f) => f,
            None => return None,
        };
        let mut ops: Vec<IoOp> = Vec::new();
        ops.push(IoOp::CreateFile(file));
        let w = RecordLogWriter {
            directory,
            file,
            record_writer: RecordWriter::open(),
            ops,
            file_size_limit,
            buffer: Vec::new(),
            records: Ghost(Seq::empty()),
        };
        assert(encodings(Seq::<RecordView>::empty()) =~= Seq::<Seq<u8>>::empty());
        assert(w.ops() =~= seq![IoOpView::Create(w.current())]);
        Some(w)
    }

    /// The file being written.
    pub fn current_file(&self) -> (r: FileNumber)
        ensures
            r@ == self.current(),
    {
        self.file
    }

    /// The first and last file numbers.
    pub fn first_last_files(&self) -> (r: Option<(u32, u32)>)
        requires
            self.wf(),
        ensures
            r == Some((self.files()[0], self.files().last())),
    {
        self.directory.first_last_files()
    }

    /// Number of files.
    pub fn num_files(&self) -> (r: usize)
        ensures
            r == self.files().len(),
    {
        self.directory.num_files()
    }

    /// Queues a write of the unflushed bytes of the current file, if any.
    pub fn flush(&mut self)
        requires
            old(self).wf(),
        ensures
            final(self).wf(),
            final(self).files() == old(self).files(),
            final(self).current() == old(self).current(),
            final(self).file_bytes() == old(self).file_bytes(),
            final(self).block_len() == old(self).block_len(),
            final(self).limit() == old(self).limit(),
            final(self).unflushed() == Seq::<u8>::empty(),
            final(self).file_records() == old(self).file_records(),
            old(self).unflushed().len() == 0 ==> final(self).ops() == old(self).ops(),
            old(self).unflushed().len() > 0 ==> final(self).ops() == old(self).ops().push(
                IoOpView::Write(old(self).current(), old(self).unflushed()),
            ),
    {
        let bytes = self.record_writer.take_bytes();
        if bytes.len() > 0 {
            self.ops.push(IoOp::Write(self.file, bytes));
        }
        assert(self.ops() =~= if old(self).unflushed().len() == 0 {
            old(self).ops()
        } else {
            old(self).ops().push(IoOpView::Write(old(self).current(), old(self).unflushed()))
        });
    }

    /// Flushes, then queues a sync of the current file.
    pub fn sync(&mut self)
        requires
            old(self).wf(),
        ensures
            final(self).wf(),
            final(self).files() == old(self).files(),
            final(self).current() == old(self).current(),
            final(self).file_bytes() == old(self).file_bytes(),
            final(self).block_len() == old(self).block_len(),
            final(self).limit() == old(self).limit(),
            final(self).unflushed() == Seq::<u8>::empty(),
            final(self).file_records() == old(self).file_records(),
            final(self).ops().last() == IoOpView::Sync(old(self).current()),
            old(self).unflushed().len() == 0 ==> final(self).ops() == old(self).ops().push(
                IoOpView::Sync(old(self).current()),
            ),
            old(self).unflushed().len() > 0 ==> final(self).ops() == old(self).ops().push(
                IoOpView::Write(old(self).current(), old(self).unflushed()),
            ).push(IoOpView::Sync(old(self).current())),
    {
        self.flush();
        let ghost before = self.ops();
        self.ops.push(IoOp::Sync(self.file));
        assert(self.ops() =~= before.push(IoOpView::Sync(old(self).current())));
    }

    /// Moves to a new file when the current one has reached the size limit
    /// (and a new file number is available): the current file is flushed and
    /// synced, and the new one created. Returns the file to write to.
    pub fn roll_if_needed(&mut self) -> (r: FileNumber)
        requires
            old(self).wf(),
        ensures
            final(self).wf(),
            r@ == final(self).current(),
            final(self).limit() == old(self).limit(),
            final(self).current() >= old(self).current(),
            final(self).ops().len() >= old(self).ops().len(),
            final(self).ops().take(old(self).ops().len() as int) == old(self).ops(),
            ({
                let full = old(self).written() >= old(self).limit();
                let room = old(self).current() < u32::MAX;
                if full && room {
                    &&& final(self).current() == old(self).current() + 1
                    &&& final(self).files() == old(self).files().push(final(self).current())
                    &&& final(self).file_bytes() == Seq::<u8>::empty()
                    &&& final(self).file_records() == Seq::<RecordView>::empty()
                    &&& final(self).unflushed() == Seq::<u8>::empty()
                    &&& final(self).block_len() == 0
                    &&& final(self).ops().len() >= 2
                    &&& final(self).ops().last() == IoOpView::Create(final(self).current())
                    &&& final(self).ops().drop_last().last() == IoOpView::Sync(old(self).current())
                } else {
                    &&& final(self).current() == old(self).current()
                    &&& final(self).files() == old(self).files()
                    &&& final(self).file_bytes() == old(self).file_bytes()
                    &&& final(self).file_records() == old(self).file_records()
                    &&& final(self).unflushed() == old(self).unflushed()
                    &&& final(self).block_len() == old(self).block_len()
                    &&& final(self).ops() == old(self).ops()
                }
            }),
    {
        if self.record_writer.num_bytes_written() >= self.file_size_limit {
            if self.file.file_number() < u32::MAX {
                self.sync();
                let file = match self.directory.new_file() {
                    Some(f) => f,
                    None => return self.file,
                };
                let ghost before = self.ops();
                self.file = file;
                self.record_writer = RecordWriter::open();
                self.records = Ghost(Seq::empty());
                assert(encodings(Seq::<RecordView>::empty()) =~= Seq::<Seq<u8>>::empty());
                self.ops.push(IoOp::CreateFile(file));
                assert(self.ops() =~= before.push(IoOpView::Create(file@)));
                assert(self.ops().take(old(self).ops().len() as int) =~= old(self).ops());
            }
        }
        self.file
    }

    /// Writes a record to the current file, after moving to a new file if
    /// the current one is full. Returns the file that holds the record.
    pub fn write_record(&mut self, record: &Record) -> (r: FileNumber)
        requires
            old(self).wf(),
            encodable(record@),
        ensures
            final(self).wf(),
            r@ == final(self).current(),
            final(self).limit() == old(self).limit(),
            final(self).current() >= old(self).current(),
            final(self).ops().len() >= old(self).ops().len(),
            final(self).ops().take(old(self).ops().len() as int) == old(self).ops(),
            final(self).current() == old(self).current() ==> final(self).files() == old(self).files()
                && final(self).ops() == old(self).ops(),
            final(self).current() != old(self).current() ==> final(self).files() == old(self).files().push(
                final(self).current(),
            ),
            ({
                let base = if final(self).current() == old(self).current() {
                    old(self).file_bytes()
                } else {
                    Seq::<u8>::empty()
                };
                let base_pending = if final(self).current() == old(self).current() {
                    old(self).unflushed()
                } else {
                    Seq::<u8>::empty()
                };
                let bl = if final(self).current() == old(self).current() {
                    old(self).block_len()
                } else {
                    0
                };
                let layout = record_layout(bl, encode_record(record@), true);
                let base_records = if final(self).current() == old(self).current() {
                    old(self).file_records()
                } else {
                    Seq::<RecordView>::empty()
                };
                &&& final(self).file_records() == base_records.push(record@)
                &&& final(self).file_bytes() == base + layout.0
                &&& final(self).unflushed() == base_pending + layout.0
                &&& final(self).block_len() == layout.1
            }),
    {
        let file = self.roll_if_needed();
        record.serialize(&mut self.buffer);
        let ghost before = self.records@;
        self.record_writer.write_record(self.buffer.as_slice());
        proof {
            self.records@ = before.push(record@);
            assert(encodings(self.records@) =~= encodings(before).push(encode_record(record@)));
        }
        file
    }

    /// Deletes the leading files that nothing needs any more: those below
    /// `bound` (all if `None`), never the current one.
    pub fn gc(&mut self, bound: Option<FileNumber>)
        requires
            old(self).wf(),
        ensures
            final(self).wf(),
            final(self).current() == old(self).current(),
            final(self).file_bytes() == old(self).file_bytes(),
            final(self).file_records() == old(self).file_records(),
            final(self).unflushed() == old(self).unflushed(),
            final(self).block_len() == old(self).block_len(),
            final(self).limit() == old(self).limit(),
            ({
                let files = old(self).files();
                let b = file_opt(bound);
                let k = final(self).ops().len() - old(self).ops().len();
                &&& 0 <= k <= files.len()
                &&& final(self).ops().take(old(self).ops().len() as int) == old(self).ops()
                &&& forall|i: int| 0 <= i < k ==> #[trigger] collectable(files, b, i)
                &&& !collectable(files, b, k)
                &&& forall|i: int|
                    0 <= i < k ==> #[trigger] final(self).ops()[old(self).ops().len() + i]
                        == IoOpView::Delete(files[i])
                &&& final(self).files() == files.skip(k)
            }),
    {
        let removed = self.directory.gc(bound);
        proof {
            let files = old(self).files();
            let b = file_opt(bound);
            if removed@.len() > 0 {
                assert(collectable(files, b, removed@.len() - 1));
            }
        }
        let ghost n = self.ops@.len();
        let ghost d = self.directory;
        let mut i: usize = 0;
        while i < removed.len()
            invariant
                self.directory == d,
                self.file == old(self).file,
                self.record_writer == old(self).record_writer,
                self.records == old(self).records,
                self.file_size_limit == old(self).file_size_limit,
                i <= removed@.len(),
                self.ops@.len() == n + i,
                forall|j: int| 0 <= j < n ==> self.ops@[j] == old(self).ops@[j],
                forall|j: int| 0 <= j < i ==> #[trigger] self.ops@[n + j]@ == IoOpView::Delete(
                    removed@[j]@,
                ),
            decreases removed@.len() - i,
        {
            self.ops.push(IoOp::DeleteFile(removed[i]));
            i = i + 1;
        }
        proof {
            assert(self.ops().take(n as int) =~= old(self).ops());
        }
    }

    /// Hands out the queued file operations and forgets them.
    pub fn take_ops(&mut self) -> (r: Vec<IoOp>)
        requires
            old(self).wf(),
        ensures
            final(self).wf(),
            final(self).ops() == Seq::<IoOpView>::empty(),
            r@.len() == old(self).ops().len(),
            forall|i: int| 0 <= i < r@.len() ==> (#[trigger] r@[i])@ == old(self).ops()[i],
            final(self).files() == old(self).files(),
            final(self).current() == old(self).current(),
            final(self).file_bytes() == old(self).file_bytes(),
            final(self).file_records() == old(self).file_records(),
            final(self).unflushed() == old(self).unflushed(),
            final(self).block_len() == old(self).block_len(),
            final(self).limit() == old(self).limit(),
    {
        let mut r: Vec<IoOp> = Vec::new();
        std::mem::swap(&mut r, &mut self.ops);
        assert(self.ops() =~= Seq::<IoOpView>::empty());
        r
    }
}

} // verus!
