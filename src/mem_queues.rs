//! The in-memory queues of the log, by name.
use vstd::prelude::*;
use vstd::utf8::encode_utf8;

use crate::error::{AlreadyExists, AppendError, MissingQueue, TouchError};
use crate::mem_queue::{append_error, append_outcome, truncated, MemQueue, QueueView};
use crate::position::{file_opt, FileNumber};
use crate::positions::PositionRange;

verus! {

broadcast use vstd::utf8::encode_utf8_decode_utf8;

/// True iff the two strings are equal.
pub fn str_eq(a: &str, b: &str) -> (r: bool)
    ensures
        r == (a@ == b@),
{
    let x = a.as_bytes();
    let y = b.as_bytes();
    if x.len() != y.len() {
        proof {
            if a@ == b@ {
                assert(encode_utf8(a@) == encode_utf8(b@));
            }
        }
        return false;
    }
    let mut i: usize = 0;
    while i < x.len()
        invariant
            x@ == encode_utf8(a@),
            y@ == encode_utf8(b@),
            x@.len() == y@.len(),
            i <= x@.len(),
            forall|k: int| 0 <= k < i ==> x@[k] == y@[k],
        decreases x@.len() - i,
    {
        if x[i] != y[i] {
            return false;
        }
        i = i + 1;
    }
    assert(x@ =~= y@);
    proof {
        vstd::utf8::encode_utf8_decode_utf8(a@);
        vstd::utf8::encode_utf8_decode_utf8(b@);
    }
    true
}

/// `f` is the first file of some queue that holds records.
pub open spec fn retains(m: Map<Seq<char>, QueueView>, f: u32) -> bool {
    exists|k: Seq<char>| #[trigger] m.contains_key(k) && m[k].records.len() > 0 && m[k].records[0].0 == f
}

/// `r` is the least file that some queue's first record lives in, or `None`
/// when no queue holds a record.
pub open spec fn is_min_retained(m: Map<Seq<char>, QueueView>, r: Option<u32>) -> bool {
    match r {
        None => forall|k: Seq<char>| #[trigger] m.contains_key(k) ==> m[k].records.len() == 0,
        Some(f) => retains(m, f) && forall|k: Seq<char>|
            #[trigger] m.contains_key(k) && m[k].records.len() > 0 ==> f <= m[k].records[0].0,
    }
}

/// Which files a truncation lets go.
#[derive(Clone, Copy, Debug, PartialEq, Eq, Structural)]
pub enum Truncation {
    /// No file is released.
    NoTruncation,
    /// Every file before this one is released.
    RemoveFiles(FileNumber),
    /// No queue holds a record any more: every file is released.
    RemoveAllFiles,
}

/// The truncation that moving the least retained file from `before` to `after` gives.
pub open spec fn truncation_of(before: Option<u32>, after: Option<u32>, t: Truncation) -> bool {
    if before == after || before is None {
        t == Truncation::NoTruncation
    } else {
        match after {
            None => t == Truncation::RemoveAllFiles,
            Some(f) => t matches Truncation::RemoveFiles(g) && g@ == f,
        }
    }
}

/// Named queues, in the order in which they were created.
pub struct MemQueues {
    names: Vec<String>,
    queues: Vec<MemQueue>,
}

impl MemQueues {
    /// One queue per name, each well formed, names all different.
    pub closed spec fn wf(&self) -> bool {
        &&& self.names@.len() == self.queues@.len()
        &&& forall|i: int| 0 <= i < self.queues@.len() ==> (#[trigger] self.queues@[i]).wf()
        &&& forall|i: int, j: int|
            0 <= i < j < self.names@.len() ==> (#[trigger] self.names@[i])@ != (
            #[trigger] self.names@[j])@
    }

    spec fn has_name(&self, k: Seq<char>) -> bool {
        exists|i: int| 0 <= i < self.names@.len() && (#[trigger] self.names@[i])@ == k
    }

    spec fn index_of(&self, k: Seq<char>) -> int {
        choose|i: int| 0 <= i < self.names@.len() && (#[trigger] self.names@[i])@ == k
    }

    /// Each queue by name.
    pub closed spec fn view(&self) -> Map<Seq<char>, QueueView> {
        Map::new(|k: Seq<char>| self.has_name(k), |k: Seq<char>| self.queues@[self.index_of(k)].view())
    }

    /// The names, in creation order.
    pub closed spec fn names(&self) -> Seq<Seq<char>> {
        Seq::new(self.names@.len(), |i: int| self.names@[i]@)
    }

    proof fn lemma_index(&self, i: int)
        requires
            self.wf(),
            0 <= i < self.names@.len(),
        ensures
            self.view().contains_key(self.names@[i]@),
            self.view()[self.names@[i]@] == self.queues@[i].view(),
            self.index_of(self.names@[i]@) == i,
    {
        let k = self.names@[i]@;
        assert(self.has_name(k));
        let j = self.index_of(k);
        if j != i {
            if j < i {
                assert(self.names@[j]@ != self.names@[i]@);
            } else {
                assert(self.names@[i]@ != self.names@[j]@);
            }
        }
    }

    proof fn lemma_names_dom(&self)
        requires
            self.wf(),
        ensures
            self.names().to_set() == self.view().dom(),
            self.names().no_duplicates(),
    {
        assert forall|k: Seq<char>| self.names().to_set().contains(k) <==> self.view().dom().contains(k) by {
            if self.view().dom().contains(k) {
                let i = self.index_of(k);
                assert(self.names()[i] == k);
            }
        }
        assert(self.names().to_set() =~= self.view().dom());
    }

    /// The index of the queue called `queue`, if any.
    fn find(&self, queue: &str) -> (r: Option<usize>)
        requires
            self.wf(),
        ensures
            r is None ==> !self.view().contains_key(queue@),
            r matches Some(i) ==> i < self.names@.len() && self.names@[i as int]@ == queue@
                && self.view().contains_key(queue@) && self.view()[queue@] == self.queues@[i as int].view(),
    {
        let mut i: usize = 0;
        while i < self.names.len()
            invariant
                self.wf(),
                i <= self.names@.len(),
                forall|k: int| 0 <= k < i ==> (#[trigger] self.names@[k])@ != queue@,
            decreases self.names@.len() - i,
        {
            if str_eq(self.names[i].as_str(), queue) {
                proof {
                    self.lemma_index(i as int);
                }
                return Some(i);
            }
            i = i + 1;
        }
        None
    }

    /// No queue.
    pub fn new() -> (r: MemQueues)
        ensures
            r.wf(),
            r.view() == Map::<Seq<char>, QueueView>::empty(),
            r.names() == Seq::<Seq<char>>::empty(),
    {
        let r = MemQueues { names: Vec::new(), queues: Vec::new() };
        assert(r.view() =~= Map::<Seq<char>, QueueView>::empty());
        assert(r.names() =~= Seq::<Seq<char>>::empty());
        r
    }

    /// Adds a queue at the end of the list.
    fn push_queue(&mut self, queue: &str, q: MemQueue)
        requires
            old(self).wf(),
            q.wf(),
            !old(self).view().contains_key(queue@),
        ensures
            final(self).wf(),
            final(self).view() == old(self).view().insert(queue@, q.view()),
            final(self).names() == old(self).names().push(queue@),
    {
        let ghost qv = q.view();
        self.names.push(queue.to_owned());
        self.queues.push(q);
        proof {
            let n = old(self).names@.len() as int;
            assert forall|i: int, j: int| 0 <= i < j < self.names@.len() implies (
            #[trigger] self.names@[i])@ != (#[trigger] self.names@[j])@ by {
                if j == n {
                    assert(old(self).names@[i] == self.names@[i]);
                    old(self).lemma_index(i);
                } else {
                    assert(old(self).names@[i] == self.names@[i]);
                    assert(old(self).names@[j] == self.names@[j]);
                }
            }
            assert forall|i: int| 0 <= i < self.queues@.len() implies (#[trigger] self.queues@[i]).wf() by {
                if i < n {
                    assert(self.queues@[i] == old(self).queues@[i]);
                }
            }
            assert forall|k: Seq<char>| #[trigger] self.view().contains_key(k) <==> old(self).view().insert(queue@, qv).contains_key(k) by {
                if self.view().contains_key(k) {
                    let i = self.index_of(k);
                    if i < n {
                        assert(self.names@[i] == old(self).names@[i]);
                        old(self).lemma_index(i);
                    }
                }
                if old(self).view().contains_key(k) && k != queue@ {
                    let i = old(self).index_of(k);
                    assert(self.names@[i] == old(self).names@[i]);
                }
                if k == queue@ {
                    assert(self.names@[n]@ == k);
                }
            }
            assert forall|k: Seq<char>| #[trigger] self.view().contains_key(k) implies self.view()[k]
                == old(self).view().insert(queue@, qv)[k] by {
                let i = self.index_of(k);
                self.lemma_index(i);
                if i < n {
                    assert(self.names@[i] == old(self).names@[i]);
                    assert(self.queues@[i] == old(self).queues@[i]);
                    old(self).lemma_index(i);
                }
            }
            assert(self.view() =~= old(self).view().insert(queue@, qv));
            assert(self.names() =~= old(self).names().push(queue@));
        }
    }

    /// Creates an empty queue at position 0; `AlreadyExists` if there is one
    /// by that name.
    pub fn create_queue(&mut self, queue: &str) -> (r: Result<(), AlreadyExists>)
        requires
            old(self).wf(),
        ensures
            final(self).wf(),
            old(self).view().contains_key(queue@) ==> r is Err && final(self).view() == old(self).view()
                && final(self).names() == old(self).names(),
            !old(self).view().contains_key(queue@) ==> r is Ok && final(self).view() == old(self).view().insert(
                queue@,
                QueueView { start: 0, records: Seq::empty() },
            ) && final(self).names() == old(self).names().push(queue@),
    {
        if self.find(queue).is_some() {
            return Err(AlreadyExists);
        }
        self.push_queue(queue, MemQueue::new());
        Ok(())
    }

    /// True iff a queue has that name.
    pub fn contains_queue(&self, queue: &str) -> (r: bool)
        requires
            self.wf(),
        ensures
            r == self.view().contains_key(queue@),
    {
        self.find(queue).is_some()
    }

    /// Creates the queue with next position `start_position` if it does not
    /// exist; if it does, succeeds iff its next position is `start_position`.
    pub fn touch(&mut self, queue: &str, start_position: u64) -> (r: Result<(), TouchError>)
        requires
            old(self).wf(),
        ensures
            final(self).wf(),
            old(self).view().contains_key(queue@) ==> final(self).view() == old(self).view()
                && final(self).names() == old(self).names()
                && (r is Ok <==> old(self).view()[queue@].next() == start_position),
            !old(self).view().contains_key(queue@) ==> r is Ok && final(self).view() == old(self).view().insert(
                queue@,
                QueueView { start: start_position, records: Seq::empty() },
            ) && final(self).names() == old(self).names().push(queue@),
    {
        match self.find(queue) {
            Some(i) => {
                if self.queues[i].next_position() == start_position {
                    Ok(())
                } else {
                    Err(TouchError)
                }
            },
            None => {
                self.push_queue(queue, MemQueue::with_next_position(start_position));
                Ok(())
            },
        }
    }
}


impl MemQueues {
    /// Replacing the queue at index `i` replaces the queue of its name.
    proof fn lemma_update(a: &MemQueues, b: &MemQueues, i: int)
        requires
            a.wf(),
            b.names@ == a.names@,
            b.queues@.len() == a.queues@.len(),
            0 <= i < a.queues@.len(),
            b.queues@[i].wf(),
            forall|j: int| 0 <= j < a.queues@.len() && j != i ==> b.queues@[j] == a.queues@[j],
        ensures
            b.wf(),
            b.view() == a.view().insert(a.names@[i]@, b.queues@[i].view()),
            b.names() == a.names(),
    {
        assert forall|j: int| 0 <= j < b.queues@.len() implies (#[trigger] b.queues@[j]).wf() by {
            if j != i {
                assert(b.queues@[j] == a.queues@[j]);
            }
        }
        let k0 = a.names@[i]@;
        assert forall|k: Seq<char>| #[trigger] b.view().contains_key(k) <==> a.view().insert(k0, b.queues@[i].view()).contains_key(k) by {
            if b.has_name(k) {
                let j = b.index_of(k);
                assert(a.names@[j]@ == k);
            }
            if a.has_name(k) {
                let j = a.index_of(k);
                assert(b.names@[j]@ == k);
            }
            if k == k0 {
                assert(b.names@[i]@ == k);
            }
        }
        assert forall|k: Seq<char>| #[trigger] b.view().contains_key(k) implies b.view()[k]
            == a.view().insert(k0, b.queues@[i].view())[k] by {
            let j = b.index_of(k);
            b.lemma_index(j);
            a.lemma_index(j);
            if j != i {
                assert(b.queues@[j] == a.queues@[j]);
            }
        }
        assert(b.view() =~= a.view().insert(k0, b.queues@[i].view()));
        assert(b.names() =~= a.names());
    }

    /// The next position of the queue.
    pub fn next_position(&self, queue: &str) -> (r: Result<u64, MissingQueue>)
        requires
            self.wf(),
        ensures
            self.view().contains_key(queue@) ==> r == Ok::<u64, MissingQueue>(
                self.view()[queue@].next() as u64,
            ) && self.view()[queue@].next() <= u64::MAX,
            !self.view().contains_key(queue@) ==> (r matches Err(MissingQueue(name)) && name@ == queue@),
    {
        match self.find(queue) {
            Some(i) => Ok(self.queues[i].next_position()),
            None => Err(MissingQueue(queue.to_owned())),
        }
    }

    /// Appends a record to a queue, as `MemQueue::append_record` does;
    /// `MissingQueue` if there is no queue by that name.
    pub fn append_record(
        &mut self,
        queue: &str,
        file_number: FileNumber,
        position_opt: Option<u64>,
        record: &[u8],
    ) -> (r: Result<Option<u64>, AppendError>)
        requires
            old(self).wf(),
            old(self).view().contains_key(queue@) ==> {
                let q = old(self).view()[queue@];
                &&& q.next() < u64::MAX
                &&& position_opt matches Some(p) ==> p < u64::MAX
                &&& q.records.len() > 0 ==> file_number@ >= q.records.last().0
            },
        ensures
            final(self).wf(),
            final(self).names() == old(self).names(),
            !old(self).view().contains_key(queue@) ==> final(self).view() == old(self).view()
                && (r matches Err(AppendError::MissingQueue(name)) && name@ == queue@),
            old(self).view().contains_key(queue@) ==> {
                let q = old(self).view()[queue@];
                let (q2, res) = append_outcome(q, file_number@, position_opt, record@);
                &&& final(self).view() == old(self).view().insert(queue@, q2)
                &&& match append_error(q, position_opt) {
                    Some(e) => r == Err::<Option<u64>, AppendError>(e),
                    None => match res {
                        Ok(p) => r == Ok::<Option<u64>, AppendError>(p),
                        Err(_) => r == Ok::<Option<u64>, AppendError>(None),
                    },
                }
            },
    {
        match self.find(queue) {
            Some(i) => {
                let ghost before = *self;
                let r = self.queues[i].append_record(file_number, position_opt, record);
                proof {
                    MemQueues::lemma_update(&before, self, i as int);
                }
                r
            },
            None => Err(AppendError::MissingQueue(queue.to_owned())),
        }
    }

    /// The records of a queue whose positions the range includes, with
    /// their positions, in order.
    pub fn range<R: PositionRange>(&self, queue: &str, position_range: R) -> (r: Result<
        Vec<(u64, Vec<u8>)>,
        MissingQueue,
    >)
        requires
            self.wf(),
        ensures
            !self.view().contains_key(queue@) ==> (r matches Err(MissingQueue(name)) && name@ == queue@),
            self.view().contains_key(queue@) ==> (r matches Ok(v) && v@.len()
                == self.view()[queue@].in_range(position_range).len() && forall|i: int|
                0 <= i < v@.len() ==> (#[trigger] v@[i]).0 == self.view()[queue@].in_range(position_range)[i].0 && v@[i].1@ == self.view()[queue@].in_range(position_range)[i].1),
    {
        match self.find(queue) {
            Some(i) => Ok(self.queues[i].range(position_range)),
            None => Err(MissingQueue(queue.to_owned())),
        }
    }

    /// The least file that holds the first record of some queue; `None` if no
    /// queue holds a record.
    pub fn first_retained_file_number(&self) -> (r: Option<FileNumber>)
        requires
            self.wf(),
        ensures
            is_min_retained(self.view(), file_opt(r)),
    {
        let mut best: Option<FileNumber> = None;
        let mut i: usize = 0;
        while i < self.queues.len()
            invariant
                self.wf(),
                i <= self.queues@.len(),
                best is None ==> forall|j: int| 0 <= j < i ==> (#[trigger] self.queues@[j]).view().records.len() == 0,
                best matches Some(f) ==> (exists|j: int| 0 <= j < i && (#[trigger] self.queues@[j]).view().records.len() > 0
                    && self.queues@[j].view().records[0].0 == f@),
                best matches Some(f) ==> forall|j: int| 0 <= j < i && (#[trigger] self.queues@[j]).view().records.len() > 0
                    ==> f@ <= self.queues@[j].view().records[0].0,
            decreases self.queues@.len() - i,
        {
            match self.queues[i].first_retained_position() {
                Some(f) => {
                    match best {
                        Some(b) => {
                            if f.file_number() < b.file_number() {
                                best = Some(f);
                            }
                        },
                        None => {
                            best = Some(f);
                        },
                    }
                },
                None => {},
            }
            i = i + 1;
        }
        proof {
            let m = self.view();
            match best {
                None => {
                    assert forall|k: Seq<char>| #[trigger] m.contains_key(k) implies m[k].records.len() == 0 by {
                        let j = self.index_of(k);
                        self.lemma_index(j);
                    }
                },
                Some(f) => {
                    let j = choose|j: int| 0 <= j < i && (#[trigger] self.queues@[j]).view().records.len() > 0
                        && self.queues@[j].view().records[0].0 == f@;
                    self.lemma_index(j);
                    assert(m.contains_key(self.names@[j]@));
                    assert forall|k: Seq<char>| #[trigger] m.contains_key(k) && m[k].records.len() > 0
                        implies f@ <= m[k].records[0].0 by {
                        let j2 = self.index_of(k);
                        self.lemma_index(j2);
                    }
                },
            }
        }
        best
    }

    /// Removes the records of a queue up to and including `position`, and
    /// tells which files no queue needs any more; `MissingQueue` if there is
    /// no queue by that name.
    pub fn truncate(&mut self, queue: &str, position: u64) -> (r: Result<Truncation, MissingQueue>)
        requires
            old(self).wf(),
        ensures
            final(self).wf(),
            final(self).names() == old(self).names(),
            !old(self).view().contains_key(queue@) ==> final(self).view() == old(self).view()
                && (r matches Err(MissingQueue(name)) && name@ == queue@),
            old(self).view().contains_key(queue@) ==> {
                &&& final(self).view() == old(self).view().insert(
                    queue@,
                    truncated(old(self).view()[queue@], position),
                )
                &&& r matches Ok(t) && exists|before: Option<u32>, after: Option<u32>|
                    is_min_retained(old(self).view(), before) && is_min_retained(final(self).view(), after)
                        && #[trigger] truncation_of(before, after, t)
            },
    {
        let i = match self.find(queue) {
            Some(i) => i,
            None => return Err(MissingQueue(queue.to_owned())),
        };
        let before = self.first_retained_file_number();
        let ghost old_self = *self;
        self.queues[i].truncate(position);
        proof {
            MemQueues::lemma_update(&old_self, self, i as int);
        }
        let after = self.first_retained_file_number();
        let t = match before {
            None => Truncation::NoTruncation,
            Some(b) => match after {
                None => Truncation::RemoveAllFiles,
                Some(a) => {
                    if a.file_number() == b.file_number() {
                        Truncation::NoTruncation
                    } else {
                        Truncation::RemoveFiles(a)
                    }
                },
            },
        };
        assert(truncation_of(file_opt(before), file_opt(after), t));
        Ok(t)
    }
}


impl MemQueues {
    /// Removes a queue; `MissingQueue` if there is none by that name.
    pub fn delete_queue(&mut self, queue: &str) -> (r: Result<(), MissingQueue>)
        requires
            old(self).wf(),
        ensures
            final(self).wf(),
            !old(self).view().contains_key(queue@) ==> final(self).view() == old(self).view()
                && final(self).names() == old(self).names()
                && (r matches Err(MissingQueue(name)) && name@ == queue@),
            old(self).view().contains_key(queue@) ==> r is Ok && final(self).view() == old(
                self,
            ).view().remove(queue@) && final(self).names() == old(self).names().remove(
                old(self).names().index_of(queue@),
            ),
    {
        let i = match self.find(queue) {
            Some(i) => i,
            None => return Err(MissingQueue(queue.to_owned())),
        };
        let ghost a = *self;
        self.names.remove(i);
        self.queues.remove(i);
        proof {
            let n = a.names@.len() as int;
            let ii = i as int;
            let k0 = queue@;
            assert forall|j: int| 0 <= j < self.names@.len() implies self.names@[j] == a.names@[
                if j < ii { j } else { j + 1 }
            ] && self.queues@[j] == a.queues@[if j < ii { j } else { j + 1 }] by {}
            assert forall|x: int, y: int| 0 <= x < y < self.names@.len() implies (
            #[trigger] self.names@[x])@ != (#[trigger] self.names@[y])@ by {
                let x2 = if x < ii { x } else { x + 1 };
                let y2 = if y < ii { y } else { y + 1 };
                assert(a.names@[x2]@ != a.names@[y2]@);
            }
            assert forall|j: int| 0 <= j < self.queues@.len() implies (#[trigger] self.queues@[j]).wf() by {
                let j2 = if j < ii { j } else { j + 1 };
                assert(a.queues@[j2].wf());
            }
            assert forall|k: Seq<char>| #[trigger] self.view().contains_key(k) <==> a.view().remove(k0).contains_key(k) by {
                if self.has_name(k) {
                    let j = self.index_of(k);
                    let j2 = if j < ii { j } else { j + 1 };
                    assert(a.names@[j2]@ == k);
                    if k == k0 {
                        a.lemma_index(j2);
                        a.lemma_index(ii);
                    }
                }
                if a.has_name(k) && k != k0 {
                    let j2 = a.index_of(k);
                    a.lemma_index(j2);
                    let j = if j2 < ii { j2 } else { j2 - 1 };
                    assert(self.names@[j]@ == k);
                }
            }
            assert forall|k: Seq<char>| #[trigger] self.view().contains_key(k) implies self.view()[k]
                == a.view().remove(k0)[k] by {
                let j = self.index_of(k);
                self.lemma_index(j);
                let j2 = if j < ii { j } else { j + 1 };
                a.lemma_index(j2);
            }
            assert(self.view() =~= a.view().remove(k0));
            a.lemma_names_dom();
            assert(a.names()[ii] == k0);
            assert(a.names().index_of(k0) == ii) by {
                let idx = a.names().index_of(k0);
                assert(a.names()[idx] == k0);
                if idx != ii {
                    if idx < ii {
                        assert(a.names@[idx]@ != a.names@[ii]@);
                    } else {
                        assert(a.names@[ii]@ != a.names@[idx]@);
                    }
                }
            }
            assert(self.names() =~= a.names().remove(ii));
        }
        Ok(())
    }

    /// The names of the queues, in creation order.
    pub fn list_queues(&self) -> (r: Vec<String>)
        requires
            self.wf(),
        ensures
            r@.len() == self.names().len(),
            forall|i: int| 0 <= i < r@.len() ==> (#[trigger] r@[i])@ == self.names()[i],
    {
        let mut r: Vec<String> = Vec::new();
        let mut i: usize = 0;
        while i < self.names.len()
            invariant
                i <= self.names@.len(),
                r@.len() == i,
                forall|j: int| 0 <= j < i ==> (#[trigger] r@[j])@ == self.names@[j]@,
            decreases self.names@.len() - i,
        {
            r.push(self.names[i].clone());
            i = i + 1;
        }
        r
    }

    /// The name and next position of each queue that holds no record, in
    /// creation order.
    pub fn empty_queue_positions(&self) -> (r: Vec<(String, u64)>)
        requires
            self.wf(),
        ensures
            forall|i: int|
                0 <= i < r@.len() ==> self.view().contains_key((#[trigger] r@[i]).0@)
                    && self.view()[r@[i].0@].records.len() == 0 && self.view()[r@[i].0@].next() == r@[i].1,
            forall|k: Seq<char>|
                #[trigger] self.view().contains_key(k) && self.view()[k].records.len() == 0 ==> exists|i: int|
                    0 <= i < r@.len() && (#[trigger] r@[i]).0@ == k,
            forall|i: int, j: int| 0 <= i < j < r@.len() ==> (#[trigger] r@[i]).0@ != (#[trigger] r@[j]).0@,
    {
        let mut r: Vec<(String, u64)> = Vec::new();
        let ghost idx: Seq<int> = Seq::empty();
        let mut i: usize = 0;
        while i < self.names.len()
            invariant
                self.wf(),
                i <= self.names@.len(),
                idx.len() == r@.len(),
                forall|j: int| 0 <= j < idx.len() ==> 0 <= #[trigger] idx[j] < i,
                forall|j: int, l: int| 0 <= j < l < idx.len() ==> #[trigger] idx[j] < #[trigger] idx[l],
                forall|j: int|
                    0 <= j < r@.len() ==> (#[trigger] r@[j]).0@ == self.names@[idx[j]]@
                        && self.queues@[idx[j]].view().records.len() == 0
                        && self.queues@[idx[j]].view().next() == r@[j].1,
                forall|x: int|
                    0 <= x < i && (#[trigger] self.queues@[x]).view().records.len() == 0 ==> exists|j: int|
                        0 <= j < idx.len() && idx[j] == x,
            decreases self.names@.len() - i,
        {
            let ghost idx0 = idx;
            if self.queues[i].is_empty() {
                r.push((self.names[i].clone(), self.queues[i].next_position()));
                proof {
                    idx = idx.push(i as int);
                    assert(idx[idx.len() - 1] == i);
                }
            }
            proof {
                assert forall|x: int| 0 <= x < i + 1 && (#[trigger] self.queues@[x]).view().records.len() == 0
                    implies exists|j: int| 0 <= j < idx.len() && idx[j] == x by {
                    if x < i {
                        let j = choose|j: int| 0 <= j < idx0.len() && idx0[j] == x;
                        assert(idx[j] == idx0[j]);
                    } else {
                        assert(idx[idx.len() - 1] == x);
                    }
                }
            }
            i = i + 1;
        }
        proof {
            assert forall|j: int| 0 <= j < r@.len() implies self.view().contains_key((#[trigger] r@[j]).0@)
                && self.view()[r@[j].0@].records.len() == 0 && self.view()[r@[j].0@].next() == r@[j].1 by {
                self.lemma_index(idx[j]);
            }
            assert forall|k: Seq<char>| #[trigger] self.view().contains_key(k) && self.view()[k].records.len() == 0
                implies exists|j: int| 0 <= j < r@.len() && (#[trigger] r@[j]).0@ == k by {
                let x = self.index_of(k);
                self.lemma_index(x);
                let j = choose|j: int| 0 <= j < idx.len() && idx[j] == x;
                assert(r@[j].0@ == k);
            }
            assert forall|j: int, l: int| 0 <= j < l < r@.len() implies (#[trigger] r@[j]).0@ != (#[trigger] r@[l]).0@ by {
                assert(idx[j] < idx[l]);
            }
        }
        r
    }
}

impl Default for MemQueues {
    fn default() -> (r: MemQueues)
        ensures
            r.wf(),
            r.view() == Map::<Seq<char>, QueueView>::empty(),
    {
        MemQueues::new()
    }
}

} // verus!
