//! One in-memory queue: its start position and its records, each with the
//! file that holds it.
use vstd::prelude::*;

use crate::error::AppendError;
use crate::position::FileNumber;
use crate::positions::PositionRange;
use core::ops::RangeFrom;

verus! {

/// What a queue holds: the position of its first record (or its next
/// position when it has none) and its records, each as the number of the
/// file that holds it and its payload.
pub struct QueueView {
    pub start: u64,
    pub records: Seq<(u32, Seq<u8>)>,
}

impl QueueView {
    /// The position that the next record gets.
    pub open spec fn next(self) -> int {
        self.start + self.records.len()
    }

    /// The records whose positions the range includes, with their positions, in order.
    pub open spec fn in_range<R: PositionRange>(self, r: R) -> Seq<(u64, Seq<u8>)> {
        Seq::new(self.records.len(), |i: int| ((self.start + i) as u64, self.records[i].1)).filter(
            |e: (u64, Seq<u8>)| r.includes(e.0),
        )
    }
}

/// What `append_record` does to a queue: the new queue and the result.
pub open spec fn append_outcome(q: QueueView, file: u32, position: Option<u64>, payload: Seq<u8>) -> (
    QueueView,
    Result<Option<u64>, ()>,
) {
    let target = match position {
        Some(p) => p as int,
        None => q.next(),
    };
    let start = if q.start == 0 && q.records.len() == 0 {
        target as u64
    } else {
        q.start
    };
    let q1 = QueueView { start, records: q.records };
    if target == q1.next() {
        (QueueView { start, records: q.records.push((file, payload)) }, Ok(Some(target as u64)))
    } else {
        (q1, Err(()))
    }
}

/// The error that `append_record` gives when the position is not the next one.
pub open spec fn append_error(q: QueueView, position: Option<u64>) -> Option<AppendError> {
    let target = match position {
        Some(p) => p as int,
        None => q.next(),
    };
    let next = if q.start == 0 && q.records.len() == 0 {
        target
    } else {
        q.next()
    };
    if target > next {
        Some(AppendError::Future)
    } else if target == next || target + 1 == next {
        None
    } else {
        Some(AppendError::Past)
    }
}

/// The queue after removing every record at a position up to `up_to`.
pub open spec fn truncated(q: QueueView, up_to: u64) -> QueueView {
    if up_to < q.start {
        q
    } else if up_to - q.start + 1 >= q.records.len() {
        QueueView { start: q.next() as u64, records: Seq::empty() }
    } else {
        QueueView {
            start: (up_to + 1) as u64,
            records: q.records.skip(up_to - q.start + 1),
        }
    }
}

/// The position of a record and the file that holds it.
#[derive(Clone, Copy, Debug)]
pub struct RecordMeta {
    start_offset: usize,
    file_number: FileNumber,
}

/// A queue of records at consecutive positions.
pub struct MemQueue {
    concatenated_records: Vec<u8>,
    start_position: u64,
    record_metas: Vec<RecordMeta>,
}

/// Where record `i` ends in the concatenated payloads.
spec fn end_of(metas: Seq<RecordMeta>, concat: Seq<u8>, i: int) -> int {
    if i + 1 < metas.len() {
        metas[i + 1].start_offset as int
    } else {
        concat.len() as int
    }
}

/// Record offsets start at 0, never decrease and stay within the payloads;
/// file numbers never decrease.
spec fn layout_wf(metas: Seq<RecordMeta>, concat: Seq<u8>) -> bool {
    &&& metas.len() > 0 ==> metas[0].start_offset == 0
    &&& metas.len() == 0 ==> concat.len() == 0
    &&& forall|i: int|
        0 <= i < metas.len() ==> metas[i].start_offset <= #[trigger] end_of(metas, concat, i)
            <= concat.len()
    &&& forall|i: int, j: int|
        0 <= i <= j < metas.len() ==> (#[trigger] metas[i]).file_number@ <= (
        #[trigger] metas[j]).file_number@
}

/// The records that a layout describes.
spec fn layout_records(metas: Seq<RecordMeta>, concat: Seq<u8>) -> Seq<(u32, Seq<u8>)> {
    Seq::new(
        metas.len(),
        |i: int|
            (
                metas[i].file_number@,
                concat.subrange(metas[i].start_offset as int, end_of(metas, concat, i)),
            ),
    )
}

proof fn lemma_offsets_sorted(metas: Seq<RecordMeta>, concat: Seq<u8>, i: int, j: int)
    requires
        layout_wf(metas, concat),
        0 <= i <= j < metas.len(),
    ensures
        metas[i].start_offset <= metas[j].start_offset,
    decreases j - i,
{
    if i < j {
        lemma_offsets_sorted(metas, concat, i, j - 1);
        assert(metas[j - 1].start_offset <= end_of(metas, concat, j - 1));
    }
}

/// Dropping the first `k` records of a layout: offsets shift down by the
/// offset of record `k`, and the payloads lose their prefix up to it.
proof fn lemma_layout_drop(
    metas: Seq<RecordMeta>,
    concat: Seq<u8>,
    k: int,
    metas2: Seq<RecordMeta>,
    concat2: Seq<u8>,
)
    requires
        layout_wf(metas, concat),
        0 < k < metas.len(),
        metas2.len() == metas.len() - k,
        forall|i: int|
            0 <= i < metas2.len() ==> (#[trigger] metas2[i]).start_offset == metas[i + k].start_offset
                - metas[k].start_offset && metas2[i].file_number == metas[i + k].file_number,
        concat2 == concat.subrange(metas[k].start_offset as int, concat.len() as int),
    ensures
        layout_wf(metas2, concat2),
        layout_records(metas2, concat2) == layout_records(metas, concat).skip(k),
{
    let off = metas[k].start_offset as int;
    assert(metas[k].start_offset <= end_of(metas, concat, k));
    assert forall|i: int| 0 <= i < metas2.len() implies end_of(metas2, concat2, i) == end_of(
        metas,
        concat,
        i + k,
    ) - off by {}
    assert forall|i: int, j: int| 0 <= i <= j < metas2.len() implies (
    #[trigger] metas2[i]).file_number@ <= (#[trigger] metas2[j]).file_number@ by {
        assert(metas[i + k].file_number@ <= metas[j + k].file_number@);
    }
    assert forall|i: int| 0 <= i < metas2.len() implies metas2[i].start_offset <= #[trigger] end_of(
        metas2,
        concat2,
        i,
    ) <= concat2.len() by {
        assert(metas[i + k].start_offset <= end_of(metas, concat, i + k) <= concat.len());
        lemma_offsets_sorted(metas, concat, k, i + k);
    }
    assert forall|i: int| 0 <= i < metas2.len() implies #[trigger] layout_records(metas2, concat2)[i]
        == layout_records(metas, concat).skip(k)[i] by {
        assert(concat2.subrange(metas2[i].start_offset as int, end_of(metas2, concat2, i))
            =~= concat.subrange(metas[i + k].start_offset as int, end_of(metas, concat, i + k)));
    }
    assert(layout_records(metas2, concat2) =~= layout_records(metas, concat).skip(k));
}

impl MemQueue {
    spec fn end_offset(&self, i: int) -> int {
        end_of(self.record_metas@, self.concatenated_records@, i)
    }

    /// The layout of the payloads is consistent, and the next position fits in a `u64`.
    pub closed spec fn wf(&self) -> bool {
        &&& layout_wf(self.record_metas@, self.concatenated_records@)
        &&& self.start_position + self.record_metas@.len() <= u64::MAX
    }

    /// The start position and the records, each with its file and payload.
    pub closed spec fn view(&self) -> QueueView {
        QueueView {
            start: self.start_position,
            records: layout_records(self.record_metas@, self.concatenated_records@),
        }
    }
}

impl Default for MemQueue {
    fn default() -> (r: MemQueue)
        ensures
            r.wf(),
            r.view() == (QueueView { start: 0, records: Seq::empty() }),
    {
        MemQueue::new()
    }
}

impl MemQueue {
    /// An empty queue whose next position is 0.
    pub fn new() -> (r: MemQueue)
        ensures
            r.wf(),
            r.view() == (QueueView { start: 0, records: Seq::empty() }),
    {
        MemQueue::with_next_position(0)
    }

    /// An empty queue whose next position is `next_position`.
    pub fn with_next_position(next_position: u64) -> (r: MemQueue)
        ensures
            r.wf(),
            r.view() == (QueueView { start: next_position, records: Seq::empty() }),
    {
        let r = MemQueue {
            concatenated_records: Vec::new(),
            start_position: next_position,
            record_metas: Vec::new(),
        };
        assert(r.view().records =~= Seq::<(u32, Seq<u8>)>::empty());
        r
    }

    /// The file that holds the first record, if any.
    pub fn first_retained_position(&self) -> (r: Option<FileNumber>)
        requires
            self.wf(),
        ensures
            self.view().records.len() == 0 ==> r is None,
            self.view().records.len() > 0 ==> (r matches Some(f) && f@ == self.view().records[0].0),
    {
        if self.record_metas.len() == 0 {
            None
        } else {
            Some(self.record_metas[0].file_number)
        }
    }

    /// True iff the queue holds no record.
    pub fn is_empty(&self) -> (r: bool)
        ensures
            r == (self.view().records.len() == 0),
    {
        self.record_metas.len() == 0
    }

    /// The position that the next record gets.
    pub fn next_position(&self) -> (r: u64)
        requires
            self.wf(),
        ensures
            r == self.view().next(),
    {
        self.start_position + self.record_metas.len() as u64
    }

    /// Appends a record at `target_position_opt`, or at the next position if
    /// `None`. An empty queue that was never given a position (start 0) takes
    /// the supplied position as its start. Returns `Ok(Some(p))` when the record
    /// was added at `p`, `Ok(None)` when `p` is the last position (the record
    /// was added before), `Past` for an earlier position, `Future` for a later
    /// one than the next.
    pub fn append_record(
        &mut self,
        file_number: FileNumber,
        target_position_opt: Option<u64>,
        payload: &[u8],
    ) -> (r: Result<Option<u64>, AppendError>)
        requires
            old(self).wf(),
            old(self).view().next() < u64::MAX,
            target_position_opt matches Some(p) ==> p < u64::MAX,
            old(self).view().records.len() > 0 ==> file_number@ >= old(self).view().records.last().0,
        ensures
            final(self).wf(),
            ({
                let (q, res) = append_outcome(old(self).view(), file_number@, target_position_opt, payload@);
                match append_error(old(self).view(), target_position_opt) {
                    Some(e) => r == Err::<Option<u64>, AppendError>(e) && final(self).view() == q,
                    None => {
                        &&& final(self).view() == q
                        &&& match res {
                            Ok(p) => r == Ok::<Option<u64>, AppendError>(p),
                            Err(_) => r == Ok::<Option<u64>, AppendError>(None),
                        }
                    },
                }
            }),
    {
        let ghost old_view = self.view();
        let target_position = match target_position_opt {
            Some(p) => p,
            None => self.next_position(),
        };
        if self.start_position == 0 && self.record_metas.len() == 0 {
            self.start_position = target_position;
        }
        assert(self.view().records =~= old_view.records);
        let next = self.next_position();
        if target_position > next {
            return Err(AppendError::Future);
        }
        if target_position == next {
            let record_meta = RecordMeta {
                start_offset: self.concatenated_records.len(),
                file_number,
            };
            let ghost old_concat = self.concatenated_records@;
            let ghost old_metas = self.record_metas@;
            self.record_metas.push(record_meta);
            self.concatenated_records.extend_from_slice(payload);
            proof {
                let m2 = self.record_metas@;
                let concat2 = self.concatenated_records@;
                let n = old_metas.len() as int;
                assert(m2 =~= old_metas.push(record_meta));
                assert(concat2 =~= old_concat + payload@);
                assert forall|i: int| 0 <= i < n implies end_of(m2, concat2, i) == #[trigger] end_of(
                    old_metas,
                    old_concat,
                    i,
                ) by {}
                assert forall|i: int| 0 <= i < m2.len() implies m2[i].start_offset
                    <= #[trigger] end_of(m2, concat2, i) <= concat2.len() by {
                    if i < n {
                        assert(end_of(old_metas, old_concat, i) <= old_concat.len());
                    }
                }
                assert forall|i: int, j: int| 0 <= i <= j < m2.len() implies (
                #[trigger] m2[i]).file_number@ <= (#[trigger] m2[j]).file_number@ by {
                    if j == n && i < n {
                        assert(old_metas[i].file_number@ <= old_metas[n - 1].file_number@);
                        assert(old_view.records.last().0 == old_metas[n - 1].file_number@);
                    }
                }
                let v = self.view();
                assert forall|i: int| 0 <= i < n implies #[trigger] v.records[i] == old_view.records[i] by {
                    assert(end_of(old_metas, old_concat, i) <= old_concat.len());
                    assert(concat2.subrange(m2[i].start_offset as int, end_of(m2, concat2, i)) =~= old_concat.subrange(
                        old_metas[i].start_offset as int,
                        end_of(old_metas, old_concat, i),
                    ));
                }
                assert(v.records[n].1 =~= payload@);
                assert(v.records =~= old_view.records.push((file_number@, payload@)));
            }
            return Ok(Some(target_position));
        }
        if target_position + 1 == next {
            return Ok(None);
        }
        Err(AppendError::Past)
    }

    /// The records whose positions the range includes, with their positions,
    /// in ascending order.
    pub fn range<R: PositionRange>(&self, range: R) -> (r: Vec<(u64, Vec<u8>)>)
        requires
            self.wf(),
        ensures
            r@.len() == self.view().in_range(range).len(),
            forall|i: int|
                0 <= i < r@.len() ==> (#[trigger] r@[i]).0 == self.view().in_range(range)[i].0
                    && r@[i].1@ == self.view().in_range(range)[i].1,
    {
        let ghost v = self.view();
        let ghost all = Seq::new(v.records.len(), |i: int| ((v.start + i) as u64, v.records[i].1));
        let ghost pred = |e: (u64, Seq<u8>)| range.includes(e.0);
        let lower = range.start_position();
        let len = self.record_metas.len();
        let start_idx: usize = if lower <= self.start_position {
            0
        } else if lower - self.start_position >= len as u64 {
            len
        } else {
            (lower - self.start_position) as usize
        };
        proof {
            assert forall|i: int| 0 <= i < start_idx implies !pred(#[trigger] all[i]) by {}
            assert(all.take(start_idx as int).filter(pred) =~= Seq::empty()) by {
                lemma_filter_none(all.take(start_idx as int), pred);
            }
        }
        let mut out: Vec<(u64, Vec<u8>)> = Vec::new();
        let mut idx = start_idx;
        while idx < len
            invariant
                self.wf(),
                v == self.view(),
                start_idx <= idx <= len,
                len == self.record_metas@.len(),
                all == Seq::new(v.records.len(), |i: int| ((v.start + i) as u64, v.records[i].1)),
                pred == (|e: (u64, Seq<u8>)| range.includes(e.0)),
                out@.len() == all.take(idx as int).filter(pred).len(),
                forall|i: int|
                    0 <= i < out@.len() ==> (#[trigger] out@[i]).0 == all.take(idx as int).filter(pred)[i].0
                        && out@[i].1@ == all.take(idx as int).filter(pred)[i].1,
            decreases len - idx,
        {
            let position = self.start_position + idx as u64;
            let start_offset = self.record_metas[idx].start_offset;
            let end_offset = if idx + 1 < len {
                self.record_metas[idx + 1].start_offset
            } else {
                self.concatenated_records.len()
            };
            proof {
                assert(all.take(idx + 1).drop_last() =~= all.take(idx as int));
                lemma_filter_push(all.take(idx + 1), pred);
            }
            if range.contains_position(position) {
                assert(self.end_offset(idx as int) == end_offset);
                let payload = vstd::slice::slice_to_vec(
                    &self.concatenated_records.as_slice()[start_offset..end_offset],
                );
                out.push((position, payload));
            }
            idx = idx + 1;
        }
        proof {
            assert(all.take(len as int) =~= all);
        }
        out
    }

    /// Removes every record at a position up to and including `up_to`. When
    /// that is every record, the queue keeps its next position as its start.
    pub fn truncate(&mut self, truncate_up_to_pos: u64)
        requires
            old(self).wf(),
        ensures
            final(self).wf(),
            final(self).view() == truncated(old(self).view(), truncate_up_to_pos),
    {
        let ghost old_view = self.view();
        if self.start_position > truncate_up_to_pos {
            return;
        }
        let len = self.record_metas.len();
        let num_dropped = truncate_up_to_pos - self.start_position;
        if num_dropped >= len as u64 || num_dropped + 1 >= len as u64 {
            self.start_position = self.start_position + len as u64;
            self.concatenated_records.clear();
            self.record_metas.clear();
            assert(self.view().records =~= Seq::<(u32, Seq<u8>)>::empty());
            return;
        }
        let first_record_to_keep = (num_dropped + 1) as usize;
        let start_offset_to_keep: usize = self.record_metas[first_record_to_keep].start_offset;
        let ghost old_metas = self.record_metas@;
        let ghost old_concat = self.concatenated_records@;
        let mut metas: Vec<RecordMeta> = Vec::new();
        let mut j = first_record_to_keep;
        while j < len
            invariant
                first_record_to_keep <= j <= len,
                len == old_metas.len(),
                self.record_metas@ == old_metas,
                self.concatenated_records@ == old_concat,
                self.wf(),
                start_offset_to_keep == old_metas[first_record_to_keep as int].start_offset,
                metas@.len() == j - first_record_to_keep,
                forall|i: int|
                    0 <= i < metas@.len() ==> (#[trigger] metas@[i]).start_offset
                        == old_metas[i + first_record_to_keep].start_offset - start_offset_to_keep
                        && metas@[i].file_number == old_metas[i + first_record_to_keep].file_number,
            decreases len - j,
        {
            let meta = self.record_metas[j];
            proof {
                lemma_offsets_sorted(old_metas, old_concat, first_record_to_keep as int, j as int);
                assert(self.record_metas@[j as int].start_offset == old_metas[j as int].start_offset);
            }
            metas.push(RecordMeta {
                start_offset: meta.start_offset - start_offset_to_keep,
                file_number: meta.file_number,
            });
            j = j + 1;
        }
        assert(end_of(old_metas, old_concat, first_record_to_keep as int) <= old_concat.len());
        let rest = self.concatenated_records.split_off(start_offset_to_keep);
        self.concatenated_records = rest;
        self.record_metas = metas;
        self.start_position = self.start_position + first_record_to_keep as u64;
        proof {
            let k = first_record_to_keep as int;
            assert(old_metas[k].start_offset <= end_of(old_metas, old_concat, k));
            lemma_layout_drop(old_metas, old_concat, k, self.record_metas@, self.concatenated_records@);
            assert(self.view().records =~= truncated(old_view, truncate_up_to_pos).records);
        }
    }
}

proof fn lemma_filter_none<A>(s: Seq<A>, pred: spec_fn(A) -> bool)
    requires
        forall|i: int| 0 <= i < s.len() ==> !pred(#[trigger] s[i]),
    ensures
        s.filter(pred) =~= Seq::<A>::empty(),
    decreases s.len(),
{
    reveal(Seq::filter);
    if s.len() > 0 {
        lemma_filter_none(s.drop_last(), pred);
    }
}

proof fn lemma_filter_push<A>(s: Seq<A>, pred: spec_fn(A) -> bool)
    requires
        s.len() > 0,
    ensures
        s.filter(pred) == if pred(s.last()) {
            s.drop_last().filter(pred).push(s.last())
        } else {
            s.drop_last().filter(pred)
        },
{
    reveal(Seq::filter);
}

proof fn lemma_filter_all<A>(s: Seq<A>, pred: spec_fn(A) -> bool)
    requires
        forall|i: int| 0 <= i < s.len() ==> pred(#[trigger] s[i]),
    ensures
        s.filter(pred) =~= s,
    decreases s.len(),
{
    reveal(Seq::filter);
    if s.len() > 0 {
        lemma_filter_all(s.drop_last(), pred);
        assert(s.drop_last().push(s.last()) =~= s);
    }
}

/// The queue after appending `payloads` in order, each without a position,
/// the `i`-th one held by file `files[i]`.
pub open spec fn append_all(q: QueueView, files: Seq<u32>, payloads: Seq<Seq<u8>>) -> QueueView
    decreases payloads.len(),
{
    if payloads.len() == 0 || files.len() != payloads.len() {
        q
    } else {
        append_outcome(
            append_all(q, files.drop_last(), payloads.drop_last()),
            files.last(),
            None,
            payloads.last(),
        ).0
    }
}

proof fn lemma_append_all(q: QueueView, files: Seq<u32>, payloads: Seq<Seq<u8>>)
    requires
        files.len() == payloads.len(),
    ensures
        append_all(q, files, payloads).start == q.start || q.records.len() == 0,
        q.records.len() > 0 ==> append_all(q, files, payloads).start == q.start,
        append_all(q, files, payloads).records.len() == q.records.len() + payloads.len(),
        forall|i: int|
            0 <= i < q.records.len() ==> #[trigger] append_all(q, files, payloads).records[i]
                == q.records[i],
        forall|i: int|
            0 <= i < payloads.len() ==> #[trigger] append_all(q, files, payloads).records[q.records.len()
                + i] == (files[i], payloads[i]),
        (q.start != 0 || q.records.len() > 0) ==> append_all(q, files, payloads).start == q.start,
        q.start == 0 ==> append_all(q, files, payloads).start == 0,
    decreases payloads.len(),
{
    if payloads.len() > 0 {
        let init_files = files.drop_last();
        let init_payloads = payloads.drop_last();
        lemma_append_all(q, init_files, init_payloads);
        let q1 = append_all(q, init_files, init_payloads);
        assert forall|i: int| 0 <= i < payloads.len() implies #[trigger] append_all(q, files, payloads).records[q.records.len()
            + i] == (files[i], payloads[i]) by {
            if i < init_payloads.len() {
                assert(q1.records[q.records.len() + i] == (init_files[i], init_payloads[i]));
            }
        }
    }
}

/// Appending payloads without positions to a queue that holds no record,
/// then reading from position 0, gives back the payloads in order, at
/// consecutive positions from the queue's start.
pub proof fn lemma_append_read_round_trip(q: QueueView, files: Seq<u32>, payloads: Seq<Seq<u8>>)
    requires
        q.records.len() == 0,
        files.len() == payloads.len(),
        q.start + payloads.len() <= u64::MAX,
    ensures
        ({
            let r = append_all(q, files, payloads).in_range(RangeFrom { start: 0u64 });
            &&& r.len() == payloads.len()
            &&& forall|i: int| 0 <= i < r.len() ==> #[trigger] r[i] == ((q.start + i) as u64, payloads[i])
        }),
{
    lemma_append_all(q, files, payloads);
    let q2 = append_all(q, files, payloads);
    let all = Seq::new(q2.records.len(), |i: int| ((q2.start + i) as u64, q2.records[i].1));
    let pred = |e: (u64, Seq<u8>)| (RangeFrom { start: 0u64 }).includes(e.0);
    lemma_filter_all(all, pred);
    assert(q2.start == q.start);
    let r = q2.in_range(RangeFrom { start: 0u64 });
    assert(r == all.filter(pred));
    assert forall|i: int| 0 <= i < r.len() implies #[trigger] r[i] == ((q.start + i) as u64, payloads[i]) by {
        assert(q2.records[0 + i] == (files[i], payloads[i]));
    }
}

} // verus!
