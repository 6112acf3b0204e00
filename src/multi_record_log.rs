//! The log: named queues whose operations are recorded in rolling files.
use vstd::prelude::*;
use vstd::utf8::{encode_utf8, valid_utf8};

use crate::directory::{collectable, Directory};
use crate::error::{AppendError, CreateQueueError, DeleteQueueError, MissingQueue, OpenError, TruncateError};
use crate::frame::BLOCK_LEN;
use crate::log_record::{
    decode_record, encodable, encode_record, well_formed_records, Record, RecordType, RecordView,
};
use crate::mem_queue::{append_error, append_outcome, truncated, QueueView};
use crate::mem_queues::{is_min_retained, MemQueues};
use crate::position::{file_opt, FileNumber};
use crate::positions::PositionRange;
use crate::record::{
    lemma_next_record_advances, lemma_record_layout_nonempty, lemma_records_layout_prefix,
    lemma_records_read_back, next_record, record_layout, records_layout, RecordRead, RecordReader,
};
use crate::rolling::{encodings, IoOp, IoOpView, RecordLogWriter, FILE_SIZE_LIMIT};

verus! {

/// Every record of every queue lives in a file numbered at most `f`.
pub open spec fn files_at_most(m: Map<Seq<char>, QueueView>, f: u32) -> bool {
    forall|k: Seq<char>, i: int|
        m.contains_key(k) && 0 <= i < m[k].records.len() ==> (#[trigger] m[k].records[i]).0 <= f
}

/// Every queue name fits in a log record.
pub open spec fn names_encodable(m: Map<Seq<char>, QueueView>) -> bool {
    forall|k: Seq<char>| #[trigger] m.contains_key(k) ==> encode_utf8(k).len() <= u16::MAX
}

/// The files left after collecting with the least retained file `b`: the
/// first one is not collectable, so every file below `b` but the current
/// one is gone.
pub open spec fn swept(files: Seq<u32>, b: Option<u32>) -> bool {
    !collectable(files, b, 0)
}

/// Every file that went away is below the least retained file `b`.
pub open spec fn only_released_deleted(before: Seq<u32>, after: Seq<u32>, b: Option<u32>) -> bool {
    forall|f: u32| before.contains(f) && !after.contains(f) ==> (b is None || f < b.unwrap())
}

/// The log record of an append.
pub open spec fn appended(queue: Seq<char>, position: u64, payload: Seq<u8>) -> RecordView {
    RecordView { kind: RecordType::AppendRecord, position, queue, payload }
}

/// What replaying one log record read from file `file` does to the queues.
/// Operations that do not fit the queues (a position out of place, a touch
/// that disagrees) change nothing. An append to a missing queue creates it
/// at the appended position.
pub open spec fn apply_record(m: Map<Seq<char>, QueueView>, file: u32, r: RecordView) -> Map<
    Seq<char>,
    QueueView,
> {
    let q = r.queue;
    match r.kind {
        RecordType::AppendRecord => {
            let q0 = if m.contains_key(q) {
                m[q]
            } else {
                QueueView { start: r.position, records: Seq::empty() }
            };
            if r.position < u64::MAX && q0.next() < u64::MAX && append_error(q0, Some(r.position))
                is None {
                m.insert(q, append_outcome(q0, file, Some(r.position), r.payload).0)
            } else {
                m
            }
        },
        RecordType::Truncate => if m.contains_key(q) {
            m.insert(q, truncated(m[q], r.position))
        } else {
            m
        },
        RecordType::Touch => if m.contains_key(q) {
            m
        } else {
            m.insert(q, QueueView { start: r.position, records: Seq::empty() })
        },
        RecordType::DeleteQueue => m.remove(q),
    }
}

/// What replaying the records of file `file` from `pos` on does to the
/// queues: records are read as `next_record` reads them; a corrupted frame
/// or a record that does not decode is skipped.
pub open spec fn replay_from(
    m: Map<Seq<char>, QueueView>,
    file: u32,
    bytes: Seq<u8>,
    pos: int,
    within: bool,
    buf: Seq<u8>,
) -> Map<Seq<char>, QueueView>
    decreases bytes.len() + BLOCK_LEN - pos,
{
    let (res, p, w, b) = next_record(bytes, pos, within, buf);
    if !(pos < p <= bytes.len() + BLOCK_LEN) {
        m
    } else {
        match res {
            RecordRead::NotAvailable => m,
            RecordRead::Corruption => replay_from(m, file, bytes, p, w, b),
            RecordRead::Record(rec) => match decode_record(rec) {
                None => replay_from(m, file, bytes, p, w, b),
                Some(r) => replay_from(apply_record(m, file, r), file, bytes, p, w, b),
            },
        }
    }
}

/// Rebuilds the queues from the files of a log, read one after the other.
pub struct LogReplay {
    directory: Directory,
    files: Vec<FileNumber>,
    next_file_idx: usize,
    in_mem_queues: MemQueues,
}

impl LogReplay {
    /// The directory and the queues are consistent, and every queue has
    /// records only in files already replayed.
    pub closed spec fn wf(&self) -> bool {
        &&& self.directory.wf()
        &&& self.in_mem_queues.wf()
        &&& self.next_file_idx <= self.files@.len()
        &&& self.files@.len() == self.directory.view().len()
        &&& forall|i: int| 0 <= i < self.files@.len() ==> (#[trigger] self.files@[i])@ == self.directory.view()[i]
        &&& self.next_file_idx > 0 ==> files_at_most(self.in_mem_queues.view(), self.files@[self.next_file_idx - 1]@)
        &&& self.next_file_idx == 0 ==> self.in_mem_queues.view() == Map::<Seq<char>, QueueView>::empty()
        &&& names_encodable(self.in_mem_queues.view())
    }

    /// The queues rebuilt so far.
    pub closed spec fn view(&self) -> Map<Seq<char>, QueueView> {
        self.in_mem_queues.view()
    }

    /// The files still to replay, in order.
    pub closed spec fn pending_files(&self) -> Seq<u32> {
        self.directory.view().skip(self.next_file_idx as int)
    }

    /// The files of the directory being replayed.
    pub closed spec fn files(&self) -> Seq<u32> {
        self.directory.view()
    }

    /// Starts replaying the files of `directory`, with no queue.
    pub fn new(directory: Directory) -> (r: LogReplay)
        requires
            directory.wf(),
        ensures
            r.wf(),
            r.view() == Map::<Seq<char>, QueueView>::empty(),
            r.files() == directory.view(),
            r.pending_files() == directory.view(),
    {
        let files = directory.file_numbers();
        let r = LogReplay { directory, files, next_file_idx: 0, in_mem_queues: MemQueues::new() };
        assert(r.pending_files() =~= r.files());
        r
    }

    /// The next file to replay, if any.
    pub fn next_file(&self) -> (r: Option<FileNumber>)
        requires
            self.wf(),
        ensures
            self.pending_files().len() == 0 ==> r is None,
            self.pending_files().len() > 0 ==> (r matches Some(f) && f@ == self.pending_files()[0]),
    {
        if self.next_file_idx < self.files.len() {
            Some(self.files[self.next_file_idx])
        } else {
            None
        }
    }

    /// Applies one log record read from `file`.
    fn apply(&mut self, file: FileNumber, record: Record)
        requires
            old(self).in_mem_queues.wf(),
            files_at_most(old(self).in_mem_queues.view(), file@),
            names_encodable(old(self).in_mem_queues.view()),
            encodable(record@),
        ensures
            final(self).in_mem_queues.wf(),
            names_encodable(final(self).in_mem_queues.view()),
            final(self).in_mem_queues.view() == apply_record(old(self).in_mem_queues.view(), file@, record@),
            files_at_most(final(self).in_mem_queues.view(), file@),
            final(self).directory == old(self).directory,
            final(self).files == old(self).files,
            final(self).next_file_idx == old(self).next_file_idx,
    {
        let ghost m = self.in_mem_queues.view();
        match record {
            Record::AppendRecord { position, queue, payload } => {
                if position == u64::MAX {
                    return;
                }
                let q = queue.as_str();
                let mut created = false;
                let next = match self.in_mem_queues.next_position(q) {
                    Ok(next) => next,
                    Err(_) => {
                        let _ = self.in_mem_queues.touch(q, position);
                        created = true;
                        position
                    },
                };
                let ghost m1 = self.in_mem_queues.view();
                proof {
                    if created {
                        assert(m1 == m.insert(q@, QueueView { start: position, records: Seq::empty() }));
                    } else {
                        assert(m1 == m);
                    }
                }
                if next == u64::MAX {
                    if created {
                        let _ = self.in_mem_queues.delete_queue(q);
                        assert(self.in_mem_queues.view() =~= m);
                    }
                    return;
                }
                proof {
                    let q1 = m1[q@];
                    if q1.records.len() > 0 {
                        assert(q1.records[q1.records.len() - 1].0 <= file@);
                    }
                }
                match self.in_mem_queues.append_record(q, file, Some(position), payload.as_slice()) {
                    Ok(_) => {},
                    Err(_) => {
                        assert(self.in_mem_queues.view() =~= m1);
                        if created {
                            let _ = self.in_mem_queues.delete_queue(q);
                            assert(self.in_mem_queues.view() =~= m);
                        }
                        return;
                    },
                }
                proof {
                    let v = self.in_mem_queues.view();
                    assert forall|k: Seq<char>, i: int| v.contains_key(k) && 0 <= i < v[k].records.len()
                        implies (#[trigger] v[k].records[i]).0 <= file@ by {
                        if k != q@ {
                            assert(m1[k] == v[k]);
                        } else if i < m1[k].records.len() {
                            assert(v[k].records[i] == m1[k].records[i]);
                        }
                    }
                    assert(v =~= apply_record(m, file@, record@));
                }
            },
            Record::Truncate { position, queue } => {
                let _ = self.in_mem_queues.truncate(queue.as_str(), position);
                proof {
                    let v = self.in_mem_queues.view();
                    assert forall|k: Seq<char>, i: int| v.contains_key(k) && 0 <= i < v[k].records.len()
                        implies (#[trigger] v[k].records[i]).0 <= file@ by {
                        if k == queue@ {
                            let q0 = m[k];
                            if position >= q0.start && !(position - q0.start + 1 >= q0.records.len()) {
                                let d = position - q0.start + 1;
                                assert(v[k].records[i] == q0.records[i + d]);
                            }
                        }
                    }
                }
            },
            Record::Touch { position, queue } => {
                let _ = self.in_mem_queues.touch(queue.as_str(), position);
            },
            Record::DeleteQueue { position, queue } => {
                let _ = self.in_mem_queues.delete_queue(queue.as_str());
                proof {
                    if !m.contains_key(queue@) {
                        assert(m.remove(queue@) =~= m);
                    }
                }
            },
        }
    }
}

impl LogReplay {
    /// Replays the bytes of the next file: each record that reads and
    /// decodes is applied to the queues; corrupted frames and undecodable
    /// records are skipped. Returns false (and does nothing) when every file
    /// has been replayed.
    pub fn replay_file(&mut self, bytes: Vec<u8>) -> (r: bool)
        requires
            old(self).wf(),
            bytes@.len() + 2 * BLOCK_LEN <= usize::MAX,
        ensures
            final(self).wf(),
            final(self).files() == old(self).files(),
            old(self).pending_files().len() == 0 ==> !r && final(self).view() == old(self).view()
                && final(self).pending_files() == old(self).pending_files(),
            old(self).pending_files().len() > 0 ==> r && final(self).pending_files() == old(
                self,
            ).pending_files().skip(1) && final(self).view() == replay_from(
                old(self).view(),
                old(self).pending_files()[0],
                bytes@,
                0,
                false,
                Seq::empty(),
            ),
    {
        if self.next_file_idx >= self.files.len() {
            return false;
        }
        let file = self.files[self.next_file_idx];
        proof {
            if self.next_file_idx > 0 {
                let prev = self.files@[self.next_file_idx - 1]@;
                assert(prev < file@);
                let m = self.in_mem_queues.view();
                assert forall|k: Seq<char>, i: int| m.contains_key(k) && 0 <= i < m[k].records.len()
                    implies (#[trigger] m[k].records[i]).0 <= file@ by {
                    assert(m[k].records[i].0 <= prev);
                }
            }
            assert(self.pending_files()[0] == file@);
        }
        let ghost bs = bytes@;
        let ghost goal = replay_from(self.in_mem_queues.view(), file@, bs, 0, false, Seq::empty());
        let mut reader = RecordReader::open(bytes);
        loop
            invariant_except_break
                goal == replay_from(
                    self.in_mem_queues.view(),
                    file@,
                    bs,
                    reader.pos(),
                    reader.within(),
                    reader.buffer(),
                ),
            invariant
                self.in_mem_queues.wf(),
                self.directory == old(self).directory,
                self.files == old(self).files,
                self.next_file_idx == old(self).next_file_idx,
                self.next_file_idx < self.files@.len(),
                file == self.files@[self.next_file_idx as int],
                files_at_most(self.in_mem_queues.view(), file@),
                names_encodable(self.in_mem_queues.view()),
                reader.wf(),
                reader.bytes() == bs,
                0 <= reader.pos() <= bs.len() + BLOCK_LEN,
            ensures
                self.in_mem_queues.view() == goal,
            decreases bs.len() + BLOCK_LEN - reader.pos(),
        {
            let ghost m = self.in_mem_queues.view();
            let ghost (pos, within, buf) = (reader.pos(), reader.within(), reader.buffer());
            proof {
                lemma_next_record_advances(bs, pos, within, buf);
            }
            match reader.read_record() {
                Ok(Some(rec)) => {
                    match Record::deserialize(rec.as_slice()) {
                        Some(record) => {
                            proof {
                                crate::log_record::lemma_decoded_encodable(rec@);
                            }
                            self.apply(file, record);
                        },
                        None => {},
                    }
                },
                Ok(None) => {
                    break;
                },
                Err(_) => {},
            }
        }
        self.next_file_idx = self.next_file_idx + 1;
        proof {
            assert(self.pending_files() =~= old(self).pending_files().skip(1));
        }
        true
    }

    /// Ends the replay and opens the log for writing, in a new file after
    /// the last one. `UnreadFiles` if some file was not replayed;
    /// `NoFileNumberLeft` if the last file number is `u32::MAX`.
    pub fn into_log(self, file_size_limit: u64) -> (r: Result<MultiRecordLog, OpenError>)
        requires
            self.wf(),
        ensures
            self.pending_files().len() > 0 ==> r == Err::<MultiRecordLog, OpenError>(OpenError::UnreadFiles),
            self.pending_files().len() == 0 && self.files().len() > 0 && self.files().last() == u32::MAX
                ==> r == Err::<MultiRecordLog, OpenError>(OpenError::NoFileNumberLeft),
            self.pending_files().len() == 0 && !(self.files().len() > 0 && self.files().last() == u32::MAX)
                ==> (r matches Ok(log) && log.wf() && log.view() == self.view()
                && log.files() == self.files().push(log.current())
                && log.ops() == seq![IoOpView::Create(log.current())]
                && log.file_size_limit() == file_size_limit),
    {
        if self.next_file_idx < self.files.len() {
            return Err(OpenError::UnreadFiles);
        }
        let ghost dir = self.directory.view();
        let ghost m0 = self.in_mem_queues.view();
        proof {
            if dir.len() > 0 {
                assert(self.files@[dir.len() - 1]@ == dir.last());
                assert(files_at_most(m0, dir.last()));
            } else {
                assert(m0 == Map::<Seq<char>, QueueView>::empty());
            }
        }
        let LogReplay { directory, files, next_file_idx, in_mem_queues } = self;
        match RecordLogWriter::open(directory, file_size_limit) {
            Some(record_log_writer) => {
                let ghost start = in_mem_queues.view();
                let log = MultiRecordLog {
                    record_log_writer,
                    in_mem_queues,
                    sync_policy: SyncPolicy::OnEachAppend,
                    file_start: Ghost(start),
                    log_start: Ghost(start),
                    closed: Ghost(Seq::empty()),
                };
                proof {
                    let m = log.in_mem_queues.view();
                    let c = log.record_log_writer.current();
                    let fs = log.record_log_writer.files();
                    log.record_log_writer.lemma_files();
                    assert forall|k: Seq<char>, i: int| m.contains_key(k) && 0 <= i < m[k].records.len()
                        implies (#[trigger] m[k].records[i]).0 <= c by {
                        assert(m0.contains_key(k));
                        assert(m[k].records[i].0 <= dir.last());
                        assert(fs[dir.len() - 1] == dir.last());
                        assert(fs[dir.len() - 1] < fs[dir.len() as int]);
                    }
                }
                Ok(log)
            },
            None => Err(OpenError::NoFileNumberLeft),
        }
    }
}

/// When the log makes appends durable.
#[derive(Clone, Copy, Debug, PartialEq, Eq, Structural)]
pub enum SyncPolicy {
    /// Sync after each append.
    OnEachAppend,
    /// Sync when moving to a new file, and on truncation.
    OnRoll,
    /// Sync on truncation only (and when moving to a new file).
    OnTruncate,
}

/// Named queues of records, backed by a log of files. Every operation that
/// changes the log queues file operations, which `take_ops` hands out.
pub struct MultiRecordLog {
    record_log_writer: RecordLogWriter,
    in_mem_queues: MemQueues,
    sync_policy: SyncPolicy,
    file_start: Ghost<Map<Seq<char>, QueueView>>,
    log_start: Ghost<Map<Seq<char>, QueueView>>,
    closed: Ghost<Seq<(u32, Seq<RecordView>)>>,
}

/// The queues after applying the log records of files, in order.
pub open spec fn apply_files(m: Map<Seq<char>, QueueView>, files: Seq<(u32, Seq<RecordView>)>) -> Map<
    Seq<char>,
    QueueView,
>
    decreases files.len(),
{
    if files.len() == 0 {
        m
    } else {
        let last = files.last();
        apply_all(apply_files(m, files.drop_last()), last.0, last.1)
    }
}

/// The queues after replaying the bytes of files, in order.
pub open spec fn replay_files(m: Map<Seq<char>, QueueView>, files: Seq<(u32, Seq<u8>)>) -> Map<
    Seq<char>,
    QueueView,
>
    decreases files.len(),
{
    if files.len() == 0 {
        m
    } else {
        let last = files.last();
        replay_from(replay_files(m, files.drop_last()), last.0, last.1, 0, false, Seq::empty())
    }
}

/// The bytes of files made of log records.
pub open spec fn files_of(files: Seq<(u32, Seq<RecordView>)>) -> Seq<(u32, Seq<u8>)> {
    files.map_values(|f: (u32, Seq<RecordView>)| (f.0, file_of(f.1)))
}

/// Every file's log records are as the log writes them.
pub open spec fn all_well_formed(files: Seq<(u32, Seq<RecordView>)>) -> bool {
    forall|i: int| 0 <= i < files.len() ==> well_formed_records(#[trigger] files[i].1)
}

proof fn lemma_replay_files(m: Map<Seq<char>, QueueView>, files: Seq<(u32, Seq<RecordView>)>)
    requires
        all_well_formed(files),
    ensures
        replay_files(m, files_of(files)) == apply_files(m, files),
    decreases files.len(),
{
    if files.len() > 0 {
        let last = files.last();
        assert(files_of(files).drop_last() =~= files_of(files.drop_last()));
        lemma_replay_files(m, files.drop_last());
        assert(well_formed_records(files[files.len() - 1].1));
        lemma_replay_written_file(apply_files(m, files.drop_last()), last.0, last.1);
    }
}

impl MultiRecordLog {
    spec fn wf_core(&self) -> bool {
        &&& self.record_log_writer.wf()
        &&& self.in_mem_queues.wf()
        &&& files_at_most(self.in_mem_queues.view(), self.record_log_writer.current())
        &&& names_encodable(self.in_mem_queues.view())
    }

    /// The queues are what the log records written to the current file,
    /// applied to the queues as they were when the file was started, make of
    /// them.
    pub closed spec fn wf(&self) -> bool {
        &&& self.wf_core()
        &&& self.file_start@ == apply_files(self.log_start@, self.closed@)
        &&& all_well_formed(self.closed@)
        &&& self.in_mem_queues.view() == apply_all(
            self.file_start@,
            self.record_log_writer.current(),
            self.record_log_writer.file_records(),
        )
    }

    /// The queues when the current file was started.
    pub closed spec fn file_start_view(&self) -> Map<Seq<char>, QueueView> {
        self.file_start@
    }

    /// The queues when the log was opened.
    pub closed spec fn log_start_view(&self) -> Map<Seq<char>, QueueView> {
        self.log_start@
    }

    /// The files written since the log was opened, before the current one,
    /// each with the log records written to it, in order.
    pub closed spec fn closed_files(&self) -> Seq<(u32, Seq<RecordView>)> {
        self.closed@
    }

    /// Each queue by name.
    pub closed spec fn view(&self) -> Map<Seq<char>, QueueView> {
        self.in_mem_queues.view()
    }

    /// The queue names, in creation order.
    pub closed spec fn names(&self) -> Seq<Seq<char>> {
        self.in_mem_queues.names()
    }

    /// The files of the log.
    pub closed spec fn files(&self) -> Seq<u32> {
        self.record_log_writer.files()
    }

    /// The file being written.
    pub closed spec fn current(&self) -> u32 {
        self.record_log_writer.current()
    }

    /// The file operations not handed out yet.
    pub closed spec fn ops(&self) -> Seq<IoOpView> {
        self.record_log_writer.ops()
    }

    /// Every byte written to the current file.
    pub closed spec fn file_bytes(&self) -> Seq<u8> {
        self.record_log_writer.file_bytes()
    }

    /// The log records written to the current file, in order.
    pub closed spec fn file_records(&self) -> Seq<RecordView> {
        self.record_log_writer.file_records()
    }

    /// Durability: replaying, in order, the bytes of the files written since
    /// the log was opened, each made of the log records written to it, onto
    /// the queues as they were at open, gives the queues as they are now. On
    /// a log opened on an empty directory and before any file is deleted,
    /// these files are all the files of the log: reopening it rebuilds every
    /// acknowledged append.
    pub proof fn lemma_log_replays_to_live_state(&self)
        requires
            self.wf(),
        ensures
            replay_files(
                self.log_start_view(),
                files_of(self.closed_files()).push((self.current(), self.file_bytes())),
            ) == self.view(),
    {
        let fs = files_of(self.closed_files()).push((self.current(), self.file_bytes()));
        assert(fs.drop_last() =~= files_of(self.closed_files()));
        lemma_replay_files(self.log_start_view(), self.closed_files());
        self.lemma_current_file_replays_to_live_state();
    }

    /// Replay is live operation: replaying the bytes of the current file
    /// onto the queues as they were when the file was started gives the
    /// queues as they are now.
    pub proof fn lemma_current_file_replays_to_live_state(&self)
        requires
            self.wf(),
        ensures
            replay_from(self.file_start_view(), self.current(), self.file_bytes(), 0, false, Seq::empty())
                == self.view(),
    {
        self.lemma_current_file_replays(self.file_start_view());
    }

    /// Replaying the current file applies the log records written to it, in
    /// order.
    pub proof fn lemma_current_file_replays(&self, m: Map<Seq<char>, QueueView>)
        requires
            self.wf(),
        ensures
            replay_from(m, self.current(), self.file_bytes(), 0, false, Seq::empty()) == apply_all(
                m,
                self.current(),
                self.file_records(),
            ),
    {
        self.record_log_writer.lemma_file_bytes();
        lemma_replay_written_file(m, self.current(), self.file_records());
    }

    /// The size at which the writer moves on to a new file.
    pub closed spec fn file_size_limit(&self) -> u64 {
        self.record_log_writer.limit()
    }

    /// When appends are synced.
    pub closed spec fn policy(&self) -> SyncPolicy {
        self.sync_policy
    }
}

impl MultiRecordLog {
    /// Writes a log record to the current file (after rolling if needed).
    fn write(&mut self, record: &Record) -> (r: FileNumber)
        requires
            old(self).wf(),
            encodable(record@),
        ensures
            final(self).wf_core(),
            apply_all(final(self).file_start@, final(self).current(), final(self).file_records().drop_last())
                == old(self).view(),
            final(self).file_start@ == apply_files(final(self).log_start@, final(self).closed@),
            all_well_formed(final(self).closed@),
            well_formed_records(final(self).file_records()),
            r@ == final(self).current(),
            final(self).in_mem_queues == old(self).in_mem_queues,
            final(self).sync_policy == old(self).sync_policy,
            final(self).file_size_limit() == old(self).file_size_limit(),
            final(self).current() >= old(self).current(),
            final(self).current() == old(self).current() ==> final(self).files() == old(self).files(),
            final(self).current() != old(self).current() ==> final(self).files() == old(self).files().push(
                final(self).current(),
            ),
            final(self).ops().len() >= old(self).ops().len(),
            final(self).ops().take(old(self).ops().len() as int) == old(self).ops(),
            final(self).file_records().len() > 0,
            final(self).file_records().last() == record@,
            ({
                let same = final(self).current() == old(self).current();
                let base = if same { old(self).file_bytes() } else { Seq::<u8>::empty() };
                let bl = if same { old(self).record_log_writer.block_len() } else { 0 };
                final(self).file_bytes() == base + record_layout(bl, encode_record(record@), true).0
            }),
    {
        let ghost v = self.in_mem_queues.view();
        let ghost cur = self.current();
        let ghost base = self.file_records();
        let f = self.record_log_writer.write_record(record);
        proof {
            old(self).record_log_writer.lemma_file_bytes();
            self.record_log_writer.lemma_file_bytes();
            if self.current() != cur {
                let closed0 = self.closed@;
                self.closed@ = closed0.push((cur, base));
                assert(self.closed@.drop_last() =~= closed0);
                self.file_start@ = v;
                assert(self.file_records().drop_last() =~= Seq::<RecordView>::empty());
            } else {
                assert(self.file_records().drop_last() =~= base);
            }
        }
        f
    }
}

impl MultiRecordLog {
    /// True iff a queue has that name.
    pub fn queue_exists(&self, queue: &str) -> (r: bool)
        requires
            self.wf(),
        ensures
            r == self.view().contains_key(queue@),
    {
        self.in_mem_queues.contains_queue(queue)
    }

    /// The queue names, in creation order.
    pub fn list_queues(&self) -> (r: Vec<String>)
        requires
            self.wf(),
        ensures
            r@.len() == self.names().len(),
            forall|i: int| 0 <= i < r@.len() ==> (#[trigger] r@[i])@ == self.names()[i],
    {
        self.in_mem_queues.list_queues()
    }

    /// The position that the next record of the queue gets.
    pub fn next_position(&self, queue: &str) -> (r: Result<u64, MissingQueue>)
        requires
            self.wf(),
        ensures
            self.view().contains_key(queue@) ==> r == Ok::<u64, MissingQueue>(
                self.view()[queue@].next() as u64,
            ),
            !self.view().contains_key(queue@) ==> (r matches Err(MissingQueue(name)) && name@ == queue@),
    {
        self.in_mem_queues.next_position(queue)
    }

    /// The records of the queue whose positions the range includes, with
    /// their positions, in ascending order.
    pub fn range<R: PositionRange>(&self, queue: &str, range: R) -> (r: Result<
        Vec<(u64, Vec<u8>)>,
        MissingQueue,
    >)
        requires
            self.wf(),
        ensures
            !self.view().contains_key(queue@) ==> (r matches Err(MissingQueue(name)) && name@ == queue@),
            self.view().contains_key(queue@) ==> (r matches Ok(v) && v@.len()
                == self.view()[queue@].in_range(range).len() && forall|i: int|
                0 <= i < v@.len() ==> (#[trigger] v@[i]).0 == self.view()[queue@].in_range(range)[i].0
                    && v@[i].1@ == self.view()[queue@].in_range(range)[i].1),
    {
        self.in_mem_queues.range(queue, range)
    }

    /// The first and last file numbers.
    pub fn first_last_files(&self) -> (r: Option<(u32, u32)>)
        requires
            self.wf(),
        ensures
            r == Some((self.files()[0], self.files().last())),
    {
        self.record_log_writer.first_last_files()
    }

    /// Number of files.
    pub fn num_files(&self) -> (r: usize)
        ensures
            r == self.files().len(),
    {
        self.record_log_writer.num_files()
    }

    /// Changes when appends are synced.
    pub fn set_sync_policy(&mut self, sync_policy: SyncPolicy)
        requires
            old(self).wf(),
        ensures
            final(self).wf(),
            final(self).policy() == sync_policy,
            final(self).view() == old(self).view(),
            final(self).names() == old(self).names(),
            final(self).files() == old(self).files(),
            final(self).ops() == old(self).ops(),
            final(self).file_bytes() == old(self).file_bytes(),
    {
        self.sync_policy = sync_policy;
    }

    /// Hands out the file operations queued so far, to be performed in order,
    /// and forgets them.
    pub fn take_ops(&mut self) -> (r: Vec<IoOp>)
        requires
            old(self).wf(),
        ensures
            final(self).wf(),
            final(self).ops() == Seq::<IoOpView>::empty(),
            r@.len() == old(self).ops().len(),
            forall|i: int| 0 <= i < r@.len() ==> (#[trigger] r@[i])@ == old(self).ops()[i],
            final(self).view() == old(self).view(),
            final(self).names() == old(self).names(),
            final(self).files() == old(self).files(),
            final(self).current() == old(self).current(),
            final(self).file_bytes() == old(self).file_bytes(),
            final(self).policy() == old(self).policy(),
    {
        self.record_log_writer.take_ops()
    }

    /// Creates an empty queue whose first position is 0, recording it in the
    /// log (flushed and synced); `AlreadyExists`, with nothing written, if the
    /// queue exists.
    pub fn create_queue(&mut self, queue: &str) -> (r: Result<(), CreateQueueError>)
        requires
            old(self).wf(),
            encode_utf8(queue@).len() <= u16::MAX,
        ensures
            final(self).wf(),
            final(self).policy() == old(self).policy(),
            old(self).view().contains_key(queue@) ==> r == Err::<(), CreateQueueError>(
                CreateQueueError::AlreadyExists,
            ) && final(self).view() == old(self).view() && final(self).ops() == old(self).ops()
                && final(self).file_bytes() == old(self).file_bytes(),
            !old(self).view().contains_key(queue@) ==> r is Ok && final(self).view() == old(self).view().insert(
                queue@,
                QueueView { start: 0, records: Seq::empty() },
            ) && final(self).names() == old(self).names().push(queue@)
                && final(self).ops().last() == IoOpView::Sync(final(self).current())
                && final(self).file_records().last() == (RecordView {
                kind: RecordType::Touch,
                position: 0,
                queue: queue@,
                payload: Seq::empty(),
            }),
    {
        if self.in_mem_queues.contains_queue(queue) {
            return Err(CreateQueueError::AlreadyExists);
        }
        let record = Record::Touch { position: 0, queue: queue.to_owned() };
        self.write(&record);
        self.record_log_writer.sync();
        let _ = self.in_mem_queues.create_queue(queue);
        Ok(())
    }
}

impl MultiRecordLog {
    /// Deletes the leading files that no queue needs any more.
    fn collect(&mut self)
        requires
            old(self).wf(),
        ensures
            final(self).wf(),
            final(self).in_mem_queues == old(self).in_mem_queues,
            final(self).sync_policy == old(self).sync_policy,
            final(self).current() == old(self).current(),
            final(self).file_bytes() == old(self).file_bytes(),
            final(self).file_records() == old(self).file_records(),
            final(self).file_size_limit() == old(self).file_size_limit(),
            final(self).ops().len() >= old(self).ops().len(),
            final(self).ops().take(old(self).ops().len() as int) == old(self).ops(),
            exists|b: Option<u32>|
                is_min_retained(final(self).view(), b) && swept(final(self).files(), b)
                    && #[trigger] only_released_deleted(old(self).files(), final(self).files(), b)
                    && forall|f: u32|
                    #[trigger] final(self).files().contains(f) && f != final(self).current() ==> (
                    b matches Some(x) && f >= x),
    {
        let bound = self.in_mem_queues.first_retained_file_number();
        self.record_log_writer.gc(bound);
        proof {
            let b = file_opt(bound);
            let files = old(self).files();
            let k = self.ops().len() - old(self).ops().len();
            let after = self.files();
            assert(after == files.skip(k));
            assert forall|f: u32| files.contains(f) && !after.contains(f) implies (b is None || f
                < b.unwrap()) by {
                let i = choose|i: int| 0 <= i < files.len() && files[i] == f;
                if i >= k {
                    assert(after[i - k] == f);
                }
                assert(collectable(files, b, i));
            }
            assert(only_released_deleted(files, after, b));
            assert(swept(after, b)) by {
                if collectable(after, b, 0) {
                    assert(after[0] == files[k]);
                }
            }
            self.record_log_writer.lemma_files();
            assert forall|f: u32| #[trigger] after.contains(f) && f != self.current() implies (b matches Some(
                x,
            ) && f >= x) by {
                let i = choose|i: int| 0 <= i < after.len() && after[i] == f;
                assert(!collectable(after, b, 0));
                if i > 0 {
                    assert(after[0] < after[i]);
                }
                assert(i < after.len() - 1);
            }
        }
    }

    /// Appends a record to the queue, at its next position. A supplied
    /// position must be that next position; if it is the last position, the
    /// record counts as added already and nothing happens (`Ok(None)`); an
    /// earlier one is `Past`, a later one `Future`. The record is written to
    /// the log and flushed (and synced under `OnEachAppend`) before the queue
    /// takes it. Returns the position of the new record.
    pub fn append_record(&mut self, queue: &str, position_opt: Option<u64>, payload: &[u8]) -> (r:
        Result<Option<u64>, AppendError>)
        requires
            old(self).wf(),
            encode_utf8(queue@).len() <= u16::MAX,
            old(self).view().contains_key(queue@) ==> old(self).view()[queue@].next() < u64::MAX,
        ensures
            final(self).wf(),
            final(self).names() == old(self).names(),
            final(self).policy() == old(self).policy(),
            !old(self).view().contains_key(queue@) ==> (r matches Err(AppendError::MissingQueue(name))
                && name@ == queue@) && final(self).view() == old(self).view() && final(self).ops()
                == old(self).ops() && final(self).file_bytes() == old(self).file_bytes(),
            old(self).view().contains_key(queue@) ==> {
                let q = old(self).view()[queue@];
                let next = q.next();
                let unchanged = final(self).view() == old(self).view() && final(self).ops() == old(
                    self,
                ).ops() && final(self).file_bytes() == old(self).file_bytes();
                match position_opt {
                    Some(p) if p > next => r == Err::<Option<u64>, AppendError>(AppendError::Future)
                        && unchanged,
                    Some(p) if p + 1 == next => r == Ok::<Option<u64>, AppendError>(None) && unchanged,
                    Some(p) if p < next => r == Err::<Option<u64>, AppendError>(AppendError::Past)
                        && unchanged,
                    _ => {
                        &&& r == Ok::<Option<u64>, AppendError>(Some(next as u64))
                        &&& final(self).view() == old(self).view().insert(
                            queue@,
                            QueueView {
                                start: q.start,
                                records: q.records.push((final(self).current(), payload@)),
                            },
                        )
                        &&& final(self).view()[queue@].next() == next + 1
                        &&& final(self).file_records().last() == appended(queue@, next as u64, payload@)
                        &&& final(self).file_bytes().len() > 0
                        &&& ({
                            let base = if final(self).current() == old(self).current() {
                                old(self).file_bytes()
                            } else {
                                Seq::<u8>::empty()
                            };
                            final(self).file_bytes() == base + record_layout(
                                (base.len() as int) % (BLOCK_LEN as int),
                                encode_record(appended(queue@, next as u64, payload@)),
                                true,
                            ).0
                        })
                        &&& old(self).policy() == SyncPolicy::OnEachAppend ==> final(self).ops().last()
                            == IoOpView::Sync(final(self).current())
                    },
                }
            },
    {
        let next = match self.in_mem_queues.next_position(queue) {
            Ok(next) => next,
            Err(MissingQueue(name)) => return Err(AppendError::MissingQueue(name)),
        };
        if let Some(position) = position_opt {
            if position > next {
                return Err(AppendError::Future);
            }
            if position + 1 == next {
                return Ok(None);
            }
            if position < next {
                return Err(AppendError::Past);
            }
        }
        let record = Record::AppendRecord {
            position: next,
            queue: queue.to_owned(),
            payload: vstd::slice::slice_to_vec(payload),
        };
        let ghost m = self.in_mem_queues.view();
        let file = self.write(&record);
        proof {
            old(self).record_log_writer.lemma_files();
            assert(record@ == appended(queue@, next, payload@));
            crate::record::lemma_record_layout_nonempty(
                if self.current() == old(self).current() { old(self).record_log_writer.block_len() } else { 0 },
                encode_record(record@),
                true,
            );
        }
        self.record_log_writer.flush();
        if self.sync_policy == SyncPolicy::OnEachAppend {
            self.record_log_writer.sync();
        }
        proof {
            let q0 = m[queue@];
            if q0.records.len() > 0 {
                assert(q0.records[q0.records.len() - 1].0 <= old(self).current());
            }
        }
        let _ = self.in_mem_queues.append_record(queue, file, Some(next), payload);
        proof {
            let v = self.in_mem_queues.view();
            let c = self.current();
            assert forall|k: Seq<char>, i: int| v.contains_key(k) && 0 <= i < v[k].records.len()
                implies (#[trigger] v[k].records[i]).0 <= c by {
                if k != queue@ {
                    assert(m[k] == v[k]);
                    assert(m[k].records[i].0 <= old(self).current());
                } else if i < m[k].records.len() {
                    assert(v[k].records[i] == m[k].records[i]);
                    assert(m[k].records[i].0 <= old(self).current());
                }
            }
            assert forall|k: Seq<char>| #[trigger] v.contains_key(k) implies encode_utf8(k).len() <= u16::MAX by {
                assert(m.contains_key(k));
            }
        }
        Ok(Some(next))
    }
}

impl MultiRecordLog {
    /// Writes a touch for each queue that holds no record, so that its next
    /// position survives the deletion of the files that held its records.
    fn touch_empty_queues(&mut self)
        requires
            old(self).wf(),
        ensures
            final(self).wf(),
            final(self).in_mem_queues == old(self).in_mem_queues,
            final(self).sync_policy == old(self).sync_policy,
            final(self).current() >= old(self).current(),
            forall|f: u32| old(self).files().contains(f) ==> final(self).files().contains(f),
    {
        let empties = self.in_mem_queues.empty_queue_positions();
        let mut i: usize = 0;
        while i < empties.len()
            invariant
                self.wf(),
                self.in_mem_queues == old(self).in_mem_queues,
                self.sync_policy == old(self).sync_policy,
                self.current() >= old(self).current(),
                forall|f: u32| old(self).files().contains(f) ==> self.files().contains(f),
                forall|j: int|
                    0 <= j < empties@.len() ==> self.in_mem_queues.view().contains_key(
                        (#[trigger] empties@[j]).0@,
                    ),
            decreases empties@.len() - i,
        {
            let record = Record::Touch { position: empties[i].1, queue: empties[i].0.clone() };
            assert(self.in_mem_queues.view().contains_key(empties@[i as int].0@));
            let ghost before = self.files();
            self.write(&record);
            proof {
                assert forall|f: u32| old(self).files().contains(f) implies self.files().contains(f) by {
                    let j = choose|j: int| 0 <= j < before.len() && before[j] == f;
                    assert(self.files()[j] == f);
                }
            }
            i = i + 1;
        }
    }

    /// Removes the records of the queue up to and including `position`:
    /// `MissingQueue` if there is no such queue, `Future` if `position` is
    /// not before its next position. The truncation is written to the log,
    /// with a touch for every queue left without records; the log is flushed
    /// and synced; then the files that no queue needs any more are deleted.
    pub fn truncate(&mut self, queue: &str, position: u64) -> (r: Result<(), TruncateError>)
        requires
            old(self).wf(),
        ensures
            final(self).wf(),
            final(self).names() == old(self).names(),
            final(self).policy() == old(self).policy(),
            !old(self).view().contains_key(queue@) ==> (r matches Err(TruncateError::MissingQueue(name))
                && name@ == queue@) && final(self).view() == old(self).view() && final(self).ops()
                == old(self).ops(),
            old(self).view().contains_key(queue@) && position >= old(self).view()[queue@].next() ==> r
                == Err::<(), TruncateError>(TruncateError::Future) && final(self).view() == old(
                self,
            ).view() && final(self).ops() == old(self).ops(),
            old(self).view().contains_key(queue@) && position < old(self).view()[queue@].next() ==> {
                &&& r is Ok
                &&& final(self).view() == old(self).view().insert(
                    queue@,
                    truncated(old(self).view()[queue@], position),
                )
                &&& forall|k: Seq<char>|
                    k != queue@ && #[trigger] old(self).view().contains_key(k) ==> final(self).view().contains_key(k)
                        && final(self).view()[k] == old(self).view()[k]
                &&& exists|b: Option<u32>|
                    is_min_retained(final(self).view(), b) && swept(final(self).files(), b)
                        && #[trigger] only_released_deleted(old(self).files(), final(self).files(), b)
                        && forall|f: u32|
                        #[trigger] final(self).files().contains(f) && f != final(self).current() ==> (
                        b matches Some(x) && f >= x)
            },
    {
        let next = match self.in_mem_queues.next_position(queue) {
            Ok(next) => next,
            Err(MissingQueue(name)) => return Err(TruncateError::MissingQueue(name)),
        };
        if position >= next {
            return Err(TruncateError::Future);
        }
        let record = Record::Truncate { position, queue: queue.to_owned() };
        let ghost files0 = self.files();
        self.write(&record);
        let ghost files_w = self.files();
        proof {
            assert forall|f: u32| files0.contains(f) implies files_w.contains(f) by {
                let j = choose|j: int| 0 <= j < files0.len() && files0[j] == f;
                assert(files_w[j] == f);
            }
        }
        let ghost m = self.in_mem_queues.view();
        let _ = self.in_mem_queues.truncate(queue, position);
        proof {
            let v = self.in_mem_queues.view();
            let c = self.current();
            assert forall|k: Seq<char>, i: int| v.contains_key(k) && 0 <= i < v[k].records.len()
                implies (#[trigger] v[k].records[i]).0 <= c by {
                if k == queue@ {
                    let q0 = m[k];
                    if position >= q0.start && !(position - q0.start + 1 >= q0.records.len()) {
                        let d = position - q0.start + 1;
                        assert(v[k].records[i] == q0.records[i + d]);
                    }
                } else {
                    assert(v[k] == m[k]);
                }
            }
            assert forall|k: Seq<char>| #[trigger] v.contains_key(k) implies encode_utf8(k).len() <= u16::MAX by {
                assert(m.contains_key(k));
            }
        }
        self.touch_empty_queues();
        let ghost files_t = self.files();
        self.record_log_writer.sync();
        let ghost files1 = self.files();
        assert(files1 == files_t);
        self.collect();
        proof {
            let b = choose|b: Option<u32>|
                is_min_retained(self.view(), b) && swept(self.files(), b)
                    && #[trigger] only_released_deleted(files1, self.files(), b)
                    && forall|f: u32|
                    #[trigger] self.files().contains(f) && f != self.current() ==> (b matches Some(x)
                        && f >= x);
            assert forall|f: u32| old(self).files().contains(f) implies files1.contains(f) by {
                assert(files_w.contains(f));
                assert(files_t.contains(f));
            }
            assert(only_released_deleted(old(self).files(), self.files(), b));
        }
        Ok(())
    }

    /// Removes the queue: the removal is written to the log (flushed and
    /// synced), then the files that no queue needs any more are deleted.
    /// `MissingQueue` if there is no such queue.
    pub fn delete_queue(&mut self, queue: &str) -> (r: Result<(), DeleteQueueError>)
        requires
            old(self).wf(),
        ensures
            final(self).wf(),
            final(self).policy() == old(self).policy(),
            !old(self).view().contains_key(queue@) ==> (r matches Err(DeleteQueueError::MissingQueue(
                name,
            )) && name@ == queue@) && final(self).view() == old(self).view() && final(self).ops()
                == old(self).ops(),
            old(self).view().contains_key(queue@) ==> {
                &&& r is Ok
                &&& final(self).view() == old(self).view().remove(queue@)
                &&& final(self).file_records().last() == (RecordView {
                    kind: RecordType::DeleteQueue,
                    position: old(self).view()[queue@].next() as u64,
                    queue: queue@,
                    payload: Seq::empty(),
                })
                &&& exists|b: Option<u32>|
                    is_min_retained(final(self).view(), b) && swept(final(self).files(), b)
                        && #[trigger] only_released_deleted(old(self).files(), final(self).files(), b)
                        && forall|f: u32|
                        #[trigger] final(self).files().contains(f) && f != final(self).current() ==> (
                        b matches Some(x) && f >= x)
            },
    {
        let next = match self.in_mem_queues.next_position(queue) {
            Ok(next) => next,
            Err(MissingQueue(name)) => return Err(DeleteQueueError::MissingQueue(name)),
        };
        proof {
            assert(self.in_mem_queues.view().contains_key(queue@));
        }
        let record = Record::DeleteQueue { position: next, queue: queue.to_owned() };
        let ghost files0 = self.files();
        self.write(&record);
        self.record_log_writer.sync();
        let ghost files1 = self.files();
        let ghost m = self.in_mem_queues.view();
        let _ = self.in_mem_queues.delete_queue(queue);
        proof {
            let v = self.in_mem_queues.view();
            assert forall|k: Seq<char>, i: int| v.contains_key(k) && 0 <= i < v[k].records.len()
                implies (#[trigger] v[k].records[i]).0 <= self.current() by {
                assert(v[k] == m[k]);
                assert(m[k].records[i].0 <= self.current());
            }
            assert forall|k: Seq<char>| #[trigger] v.contains_key(k) implies encode_utf8(k).len() <= u16::MAX by {
                assert(m.contains_key(k));
            }
            assert forall|f: u32| files0.contains(f) implies files1.contains(f) by {
                let j = choose|j: int| 0 <= j < files0.len() && files0[j] == f;
                assert(files1[j] == f);
            }
        }
        self.collect();
        proof {
            let b = choose|b: Option<u32>|
                is_min_retained(self.view(), b) && swept(self.files(), b)
                    && #[trigger] only_released_deleted(files1, self.files(), b)
                    && forall|f: u32|
                    #[trigger] self.files().contains(f) && f != self.current() ==> (b matches Some(x)
                        && f >= x);
            assert(only_released_deleted(old(self).files(), self.files(), b));
        }
        Ok(())
    }
}

/// Durability of an acknowledged append: once `append_record` has returned
/// `Ok(Some(p))`, the current file's bytes (with anything written after
/// them), read from where the append's log record starts, give a record
/// that decodes to that append, at position `p`; and the replay of that
/// record adds the payload at `p`.
pub proof fn lemma_acknowledged_append_reads_back(
    base: Seq<u8>,
    queue: Seq<char>,
    position: u64,
    payload: Seq<u8>,
    post: Seq<u8>,
    within: bool,
    buf: Seq<u8>,
)
    requires
        encode_utf8(queue).len() <= u16::MAX,
    ensures
        ({
            let layout = record_layout(
                (base.len() as int) % (BLOCK_LEN as int),
                encode_record(appended(queue, position, payload)),
                true,
            );
            let bytes = base + layout.0 + post;
            let read = next_record(bytes, base.len() as int, within, buf);
            &&& read.0 == RecordRead::Record(encode_record(appended(queue, position, payload)))
            &&& read.1 == base.len() + layout.0.len()
            &&& decode_record(encode_record(appended(queue, position, payload))) == Some(
                appended(queue, position, payload),
            )
        }),
        forall|m: Map<Seq<char>, QueueView>, f: u32|
            m.contains_key(queue) && m[queue].next() == position && position < u64::MAX ==> (
            #[trigger] apply_record(m, f, appended(queue, position, payload)))[queue].records
                == m[queue].records.push((f, payload)),
{
    let bl = (base.len() as int) % (BLOCK_LEN as int);
    let r = appended(queue, position, payload);
    crate::record::lemma_record_read_back(base, bl, encode_record(r), true, post, within, buf);
    crate::log_record::lemma_record_round_trip(r);
}

/// The queues after applying records, in order, all read from `file`.
pub open spec fn apply_all(m: Map<Seq<char>, QueueView>, file: u32, rs: Seq<RecordView>) -> Map<
    Seq<char>,
    QueueView,
>
    decreases rs.len(),
{
    if rs.len() == 0 {
        m
    } else {
        apply_record(apply_all(m, file, rs.drop_last()), file, rs.last())
    }
}

/// The bytes of log records written one after the other to a file.
pub open spec fn file_of(rs: Seq<RecordView>) -> Seq<u8> {
    records_layout(encodings(rs)).0
}

proof fn lemma_replay_from_k(
    m: Map<Seq<char>, QueueView>,
    file: u32,
    rs: Seq<RecordView>,
    k: int,
    buf: Seq<u8>,
)
    requires
        well_formed_records(rs),
        0 <= k <= rs.len(),
    ensures
        ({
            let encs = rs.map_values(|r: RecordView| encode_record(r));
            replay_from(
                apply_all(m, file, rs.take(k)),
                file,
                records_layout(encs).0,
                records_layout(encs.take(k)).0.len() as int,
                false,
                buf,
            ) == apply_all(m, file, rs)
        }),
    decreases rs.len() - k,
{
    let encs = rs.map_values(|r: RecordView| encode_record(r));
    let bytes = records_layout(encs).0;
    let pos = records_layout(encs.take(k)).0.len() as int;
    lemma_records_layout_prefix(encs, k);
    if k == rs.len() {
        assert(rs.take(k) =~= rs);
        assert(encs.take(k) =~= encs);
        assert(nothing_at_end(bytes, pos));
    } else {
        assert(bytes + Seq::<u8>::empty() =~= bytes);
        lemma_records_read_back(encs, k, Seq::empty(), buf);
        let next_pos = records_layout(encs.take(k + 1)).0.len() as int;
        lemma_records_layout_prefix(encs, k + 1);
        assert(encs.take(k + 1).drop_last() =~= encs.take(k));
        let prev = records_layout(encs.take(k));
        crate::record::lemma_records_layout_aligned(encs.take(k));
        lemma_record_layout_nonempty(prev.1, encs[k], true);
        crate::log_record::lemma_record_round_trip(rs[k]);
        assert(rs.take(k + 1).drop_last() =~= rs.take(k));
        assert(rs.take(k + 1).last() == rs[k]);
        lemma_replay_from_k(m, file, rs, k + 1, encs[k]);
    }
}

/// Reading at the end of the bytes finds nothing.
spec fn nothing_at_end(bytes: Seq<u8>, pos: int) -> bool {
    pos == bytes.len() ==> next_record(bytes, pos, false, Seq::empty()).0 is NotAvailable
}

/// Durability of what was written: replaying a file made of the log
/// records that the log wrote to it, one after the other, applies exactly
/// those records, in order.
pub proof fn lemma_replay_written_file(m: Map<Seq<char>, QueueView>, file: u32, rs: Seq<RecordView>)
    requires
        well_formed_records(rs),
    ensures
        replay_from(m, file, file_of(rs), 0, false, Seq::empty()) == apply_all(m, file, rs),
{
    let encs = encodings(rs);
    assert(rs.take(0) =~= Seq::<RecordView>::empty());
    assert(encs.take(0) =~= Seq::<Seq<u8>>::empty());
    lemma_replay_from_k(m, file, rs, 0, Seq::empty());
}

} // verus!
