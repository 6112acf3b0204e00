//! The set of log files, by ascending file number.
use vstd::prelude::*;
use vstd::utf8::encode_utf8;

use crate::position::{file_opt, filename_to_position, parse_filename, FileNumber};

verus! {

/// Strictly ascending.
pub open spec fn ascending(s: Seq<u32>) -> bool {
    forall|i: int, j: int| 0 <= i < j < s.len() ==> s[i] < s[j]
}

/// File `i` can be deleted when files below `bound` (all files if `None`)
/// are released: it is below the bound and is not the last file, which the
/// writer holds.
pub open spec fn collectable(files: Seq<u32>, bound: Option<u32>, i: int) -> bool {
    &&& 0 <= i < files.len() - 1
    &&& (bound is None || files[i] < bound.unwrap())
}

/// The files of the log.
pub struct Directory {
    files: Vec<u32>,
}

impl Directory {
    pub closed spec fn view(&self) -> Seq<u32> {
        self.files@
    }

    /// File numbers ascend strictly.
    pub open spec fn wf(&self) -> bool {
        ascending(self.view())
    }

    /// A directory of no file.
    pub fn empty() -> (r: Directory)
        ensures
            r.wf(),
            r.view() == Seq::<u32>::empty(),
    {
        Directory { files: Vec::new() }
    }

    /// The directory whose files are those of `file_names` that are log file
    /// names (`wal-` and 20 digits); other names are ignored.
    pub fn open(file_names: &Vec<String>) -> (r: Directory)
        ensures
            r.wf(),
            forall|n: u32|
                r.view().contains(n) <==> exists|i: int|
                    0 <= i < file_names@.len() && parse_filename(encode_utf8(
                        #[trigger] file_names@[i]@,
                    )) == Some(n),
    {
        let mut files: Vec<u32> = Vec::new();
        let mut i: usize = 0;
        while i < file_names.len()
            invariant
                i <= file_names@.len(),
                ascending(files@),
                forall|n: u32|
                    files@.contains(n) <==> exists|j: int|
                        0 <= j < i && parse_filename(encode_utf8(#[trigger] file_names@[j]@)) == Some(
                            n,
                        ),
            decreases file_names@.len() - i,
        {
            let ghost before = files@;
            match filename_to_position(file_names[i].as_str()) {
                Some(n) => {
                    insert_sorted(&mut files, n);
                },
                None => {},
            }
            proof {
                assert forall|n: u32| files@.contains(n) <==> exists|j: int|
                    0 <= j < i + 1 && parse_filename(encode_utf8(#[trigger] file_names@[j]@)) == Some(
                        n,
                    ) by {
                    if files@.contains(n) && !before.contains(n) {
                        assert(parse_filename(encode_utf8(file_names@[i as int]@)) == Some(n));
                    }
                    if exists|j: int|
                        0 <= j < i + 1 && parse_filename(encode_utf8(#[trigger] file_names@[j]@)) == Some(
                            n,
                        ) {
                        let j = choose|j: int|
                            0 <= j < i + 1 && parse_filename(encode_utf8(#[trigger] file_names@[j]@))
                                == Some(n);
                        if j < i {
                            assert(before.contains(n));
                        }
                    }
                }
            }
            i = i + 1;
        }
        Directory { files }
    }

    /// The first and last file numbers, if there is a file.
    pub fn first_last_files(&self) -> (r: Option<(u32, u32)>)
        ensures
            self.view().len() == 0 ==> r is None,
            self.view().len() > 0 ==> r == Some((self.view()[0], self.view().last())),
    {
        if self.files.len() == 0 {
            None
        } else {
            Some((self.files[0], self.files[self.files.len() - 1]))
        }
    }

    /// The first file, if any.
    pub fn first_file_number(&self) -> (r: Option<FileNumber>)
        ensures
            self.view().len() == 0 ==> r is None,
            self.view().len() > 0 ==> (r matches Some(f) && f@ == self.view()[0]),
    {
        if self.files.len() == 0 {
            None
        } else {
            Some(FileNumber::new(self.files[0]))
        }
    }

    /// The last file, if any.
    pub fn last_file_number(&self) -> (r: Option<FileNumber>)
        ensures
            self.view().len() == 0 ==> r is None,
            self.view().len() > 0 ==> (r matches Some(f) && f@ == self.view().last()),
    {
        if self.files.len() == 0 {
            None
        } else {
            Some(FileNumber::new(self.files[self.files.len() - 1]))
        }
    }

    /// Number of files.
    pub fn num_files(&self) -> (r: usize)
        ensures
            r == self.view().len(),
    {
        self.files.len()
    }

    /// The files, in ascending order.
    pub fn file_numbers(&self) -> (r: Vec<FileNumber>)
        ensures
            r@.len() == self.view().len(),
            forall|i: int| 0 <= i < r@.len() ==> (#[trigger] r@[i])@ == self.view()[i],
    {
        let mut r: Vec<FileNumber> = Vec::new();
        let mut i: usize = 0;
        while i < self.files.len()
            invariant
                i <= self.files@.len(),
                r@.len() == i,
                forall|j: int| 0 <= j < i ==> (#[trigger] r@[j])@ == self.files@[j],
            decreases self.files@.len() - i,
        {
            r.push(FileNumber::new(self.files[i]));
            i = i + 1;
        }
        r
    }

    /// Adds a file after the last one: number 1 in an empty directory, the
    /// last number plus one otherwise; `None` (and no change) when the last
    /// number is `u32::MAX`.
    pub fn new_file(&mut self) -> (r: Option<FileNumber>)
        requires
            old(self).wf(),
        ensures
            final(self).wf(),
            old(self).view().len() == 0 ==> (r matches Some(f) && f@ == 1) && final(self).view() == seq![1u32],
            old(self).view().len() > 0 && old(self).view().last() < u32::MAX ==> (r matches Some(f)
                && f@ == old(self).view().last() + 1) && final(self).view() == old(self).view().push(
                (old(self).view().last() + 1) as u32,
            ),
            old(self).view().len() > 0 && old(self).view().last() == u32::MAX ==> r is None
                && final(self).view() == old(self).view(),
    {
        let n = if self.files.len() == 0 {
            1
        } else {
            let last = self.files[self.files.len() - 1];
            if last == u32::MAX {
                return None;
            }
            last + 1
        };
        self.files.push(n);
        assert(old(self).view().len() == 0 ==> self.files@ =~= seq![1u32]);
        Some(FileNumber::new(n))
    }

    /// Removes the leading files that are collectable when files below
    /// `bound` are released (all files if `None`), never the last one, and
    /// returns them in ascending order.
    pub fn gc(&mut self, bound: Option<FileNumber>) -> (r: Vec<FileNumber>)
        requires
            old(self).wf(),
        ensures
            final(self).wf(),
            ({
                let files = old(self).view();
                let b = file_opt(bound);
                let k = r@.len() as int;
                &&& k <= files.len()
                &&& forall|i: int| 0 <= i < k ==> #[trigger] collectable(files, b, i)
                &&& !collectable(files, b, k)
                &&& forall|i: int| 0 <= i < k ==> (#[trigger] r@[i])@ == files[i]
                &&& final(self).view() == files.skip(k)
            }),
    {
        let ghost b = file_opt(bound);
        let len = self.files.len();
        let mut k: usize = 0;
        let mut removed: Vec<FileNumber> = Vec::new();
        while k + 1 < len && releases(self.files[k], bound)
            invariant
                b == file_opt(bound),
                len == self.files@.len(),
                self.files@ == old(self).view(),
                k < len || len == 0,
                k <= len,
                removed@.len() == k,
                forall|i: int| 0 <= i < k ==> collectable(self.files@, b, i),
                forall|i: int| 0 <= i < k ==> (#[trigger] removed@[i])@ == self.files@[i],
            decreases len - k,
        {
            removed.push(FileNumber::new(self.files[k]));
            k = k + 1;
        }
        let rest = self.files.split_off(k);
        self.files = rest;
        proof {
            let s = self.files@;
            assert forall|i: int, j: int| 0 <= i < j < s.len() implies s[i] < s[j] by {
                assert(s[i] == old(self).view()[i + k]);
                assert(s[j] == old(self).view()[j + k]);
            }
        }
        removed
    }
}

/// True iff file `f` is below `bound` (always when `None`).
fn releases(f: u32, bound: Option<FileNumber>) -> (r: bool)
    ensures
        r == match bound {
            Some(b) => f < b@,
            None => true,
        },
{
    match bound {
        Some(b) => f < b.file_number(),
        None => true,
    }
}

/// Inserts `n` into an ascending vector, unless it is there already.
fn insert_sorted(v: &mut Vec<u32>, n: u32)
    requires
        ascending(old(v)@),
    ensures
        ascending(final(v)@),
        forall|m: u32| final(v)@.contains(m) <==> old(v)@.contains(m) || m == n,
{
    let mut i: usize = 0;
    while i < v.len() && v[i] < n
        invariant
            i <= v@.len(),
            v@ == old(v)@,
            forall|j: int| 0 <= j < i ==> v@[j] < n,
        decreases v@.len() - i,
    {
        i = i + 1;
    }
    if i < v.len() && v[i] == n {
        assert(v@[i as int] == n);
        assert(forall|m: u32| v@.contains(m) <==> old(v)@.contains(m) || m == n);
        return;
    }
    let ghost before = v@;
    v.insert(i, n);
    assert(v@ == before.insert(i as int, n));
    proof {
        assert(before == old(v)@);
        assert forall|m: u32| v@.contains(m) <==> before.contains(m) || m == n by {
            if v@.contains(m) {
                let j = choose|j: int| 0 <= j < v@.len() && v@[j] == m;
                if j < i {
                    assert(before[j] == m);
                } else if j > i {
                    assert(before[j - 1] == m);
                }
            }
            if before.contains(m) {
                let j = choose|j: int| 0 <= j < before.len() && before[j] == m;
                if j < i {
                    assert(v@[j] == m);
                } else {
                    assert(v@[j + 1] == m);
                }
            }
            if m == n {
                assert(v@[i as int] == n);
            }
        }
        assert(forall|m: u32| v@.contains(m) <==> old(v)@.contains(m) || m == n);
        assert forall|a: int, c: int| 0 <= a < c < v@.len() implies v@[a] < v@[c] by {
            if i < before.len() {
                assert(before[i as int] > n);
            }
            if a < i && c > i {
                assert(before[a] < n);
            }
        }
    }
}

} // verus!
