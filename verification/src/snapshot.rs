//! Snapshots: the set of file fingerprints that belongs to one commit. A
//! path occurs at most once in a snapshot; the files are kept in the order
//! of their paths.

use crate::fingerprint::{
    file_views, FileFingerprint, FileFingerprintView, Fingerprint, FingerprintView,
};
use crate::paths::{
    compare_paths, lemma_path_lt_asymmetric, lemma_path_lt_irreflexive, lemma_path_lt_total,
    lemma_path_lt_transitive, path_lt, Rank,
};
use vstd::prelude::*;

verus! {

/// Whether `files` stand in strictly ascending order of their paths. No
/// path then occurs twice.
pub open spec fn sorted(files: Seq<FileFingerprintView>) -> bool {
    forall|i: int, j: int|
        0 <= i < j < files.len() ==> path_lt((#[trigger] files[i]).path, (#[trigger] files[j]).path)
}

/// Whether some file of `files` has the path `path`.
pub open spec fn has_path(files: Seq<FileFingerprintView>, path: Seq<char>) -> bool {
    exists|i: int| 0 <= i < files.len() && (#[trigger] files[i]).path == path
}

/// The fingerprint recorded for `path`, if there is one. (Where a path
/// occurs more than once, which it does not in a snapshot, the last counts.)
pub open spec fn fingerprint_of(files: Seq<FileFingerprintView>, path: Seq<char>) -> Option<
    FingerprintView,
>
    decreases files.len(),
{
    if files.len() == 0 {
        None
    } else if files.last().path == path {
        Some(files.last().fingerprint)
    } else {
        fingerprint_of(files.drop_last(), path)
    }
}

/// How many of `files` have a path that comes before `path`: in a snapshot,
/// the place where `path` stands or would stand.
pub open spec fn rank(files: Seq<FileFingerprintView>, path: Seq<char>) -> int
    decreases files.len(),
{
    if files.len() == 0 {
        0
    } else if path_lt(files.last().path, path) {
        rank(files.drop_last(), path) + 1
    } else {
        rank(files.drop_last(), path)
    }
}

/// `files` with `file` added in its place, unless its path is there already.
pub open spec fn with_file(files: Seq<FileFingerprintView>, file: FileFingerprintView) -> Seq<
    FileFingerprintView,
> {
    if has_path(files, file.path) {
        files
    } else {
        files.insert(rank(files, file.path), file)
    }
}

/// `files` with `file` in its place, whether its path was there or not.
pub open spec fn with_file_replaced(
    files: Seq<FileFingerprintView>,
    file: FileFingerprintView,
) -> Seq<FileFingerprintView> {
    if has_path(files, file.path) {
        files.update(rank(files, file.path), file)
    } else {
        files.insert(rank(files, file.path), file)
    }
}

/// Whether no two of `files` have the same path.
pub open spec fn distinct_paths(files: Seq<FileFingerprintView>) -> bool {
    forall|i: int, j: int|
        0 <= i < j < files.len() ==> (#[trigger] files[i]).path != (#[trigger] files[j]).path
}

/// The snapshot that holds `files`: each added in turn, a file whose path
/// is taken by an earlier one left out.
pub open spec fn gathered(files: Seq<FileFingerprintView>) -> Seq<FileFingerprintView>
    decreases files.len(),
{
    if files.len() == 0 {
        seq![]
    } else {
        with_file(gathered(files.drop_last()), files.last())
    }
}

/// The snapshot that holds `files`: each put in its place in turn, so that
/// of two files with one path the later stays.
pub open spec fn overlaid(files: Seq<FileFingerprintView>) -> Seq<FileFingerprintView>
    decreases files.len(),
{
    if files.len() == 0 {
        seq![]
    } else {
        with_file_replaced(overlaid(files.drop_last()), files.last())
    }
}

/// How often `path` occurs among `files`.
pub open spec fn occurrences(files: Seq<FileFingerprintView>, path: Seq<char>) -> nat
    decreases files.len(),
{
    if files.len() == 0 {
        0
    } else if files.last().path == path {
        occurrences(files.drop_last(), path) + 1
    } else {
        occurrences(files.drop_last(), path)
    }
}

/// The set of file fingerprints of one commit.
#[derive(Debug, PartialEq, Eq)]
pub struct Snapshot {
    entries: Vec<FileFingerprint>,
}

impl View for Snapshot {
    type V = Seq<FileFingerprintView>;

    closed spec fn view(&self) -> Seq<FileFingerprintView> {
        Seq::new(self.entries@.len(), |i: int| self.entries@[i]@)
    }
}

impl Snapshot {
    /// Whether the snapshot is well formed: its files stand in ascending
    /// order of their paths, so that no path occurs twice.
    pub open spec fn wf(&self) -> bool {
        sorted(self@)
    }

    /// The snapshot of no files.
    pub fn new() -> (s: Snapshot)
        ensures
            s.wf(),
            s@.len() == 0,
    {
        Snapshot { entries: Vec::new() }
    }

    /// The number of files.
    pub fn len(&self) -> (n: usize)
        ensures
            n == self@.len(),
    {
        self.entries.len()
    }

    /// The file at place `i` in the order of paths.
    pub fn entry(&self, i: usize) -> (file: &FileFingerprint)
        requires
            i < self@.len(),
        ensures
            file@ == self@[i as int],
    {
        &self.entries[i]
    }

    /// Finds the place of `path`: its rank among the paths of the snapshot,
    /// and whether it occurs there.
    pub fn position(&self, path: &str) -> (r: (usize, bool))
        requires
            self.wf(),
        ensures
            r.0 == rank(self@, path@),
            r.1 == has_path(self@, path@),
            r.1 ==> r.0 < self@.len() && self@[r.0 as int].path == path@,
    {
        let mut lo: usize = 0;
        let mut hi: usize = self.entries.len();
        while lo < hi
            invariant
                0 <= lo <= hi <= self.entries.len(),
                self.wf(),
                forall|j: int| 0 <= j < lo ==> path_lt((#[trigger] self@[j]).path, path@),
                forall|j: int|
                    hi <= j < self@.len() ==> path_lt(path@, (#[trigger] self@[j]).path),
            decreases hi - lo,
        {
            let mid = lo + (hi - lo) / 2;
            let there = self.entries[mid].path.as_str();
            assert(there@ == self@[mid as int].path);
            match compare_paths(there, path) {
                Rank::Before => {
                    proof {
                        assert forall|j: int| 0 <= j < mid + 1 implies path_lt(
                            (#[trigger] self@[j]).path,
                            path@,
                        ) by {
                            if j < mid {
                                assert(path_lt(self@[j].path, self@[mid as int].path));
                                lemma_path_lt_transitive(self@[j].path, there@, path@);
                            }
                        }
                    }
                    lo = mid + 1;
                },
                Rank::Same => {
                    proof {
                        assert forall|j: int| 0 <= j < mid implies path_lt(
                            (#[trigger] self@[j]).path,
                            path@,
                        ) by {
                            assert(path_lt(self@[j].path, self@[mid as int].path));
                        }
                        assert forall|j: int| mid <= j < self@.len() implies !path_lt(
                            (#[trigger] self@[j]).path,
                            path@,
                        ) by {
                            if j > mid {
                                assert(path_lt(self@[mid as int].path, self@[j].path));
                                lemma_path_lt_asymmetric(self@[j].path, path@);
                            } else {
                                lemma_path_lt_irreflexive(path@);
                            }
                        }
                        lemma_rank(self@, path@, mid as int);
                    }
                    return (mid, true);
                },
                Rank::After => {
                    proof {
                        assert forall|j: int| mid <= j < self@.len() implies path_lt(
                            path@,
                            (#[trigger] self@[j]).path,
                        ) by {
                            if j > mid {
                                assert(path_lt(self@[mid as int].path, self@[j].path));
                                lemma_path_lt_transitive(path@, there@, self@[j].path);
                            }
                        }
                    }
                    hi = mid;
                },
            }
        }
        proof {
            assert forall|j: int| lo <= j < self@.len() implies !path_lt(
                (#[trigger] self@[j]).path,
                path@,
            ) by {
                lemma_path_lt_asymmetric(self@[j].path, path@);
            }
            lemma_rank(self@, path@, lo as int);
            if has_path(self@, path@) {
                let i = choose|i: int| 0 <= i < self@.len() && (#[trigger] self@[i]).path == path@;
                lemma_path_lt_irreflexive(path@);
                if i < lo {
                    assert(path_lt(self@[i].path, path@));
                } else {
                    assert(path_lt(path@, self@[i].path));
                }
            }
        }
        (lo, false)
    }

    /// Tests whether the snapshot holds a file with the path `path`.
    pub fn contains(&self, path: &str) -> (r: bool)
        requires
            self.wf(),
        ensures
            r == has_path(self@, path@),
    {
        self.position(path).1
    }

    /// The fingerprint recorded for `path`, if the snapshot holds that path.
    pub fn get(&self, path: &str) -> (r: Option<&Fingerprint>)
        requires
            self.wf(),
        ensures
            match r {
                Some(f) => fingerprint_of(self@, path@) == Some(f@),
                None => fingerprint_of(self@, path@).is_none(),
            },
    {
        let (at, found) = self.position(path);
        proof {
            lemma_fingerprint_of_some(self@, path@);
        }
        if found {
            proof {
                assert forall|j: int| at < j < self@.len() implies (#[trigger] self@[j]).path
                    != path@ by {
                    assert(path_lt(self@[at as int].path, self@[j].path));
                    lemma_path_lt_irreflexive(path@);
                }
                lemma_fingerprint_of(self@, path@, at as int);
            }
            Some(&self.entries[at].fingerprint)
        } else {
            None
        }
    }

    /// Adds a file unless its path is there already, and says whether it
    /// was added. The snapshot stays in order.
    pub fn insert(&mut self, file: FileFingerprint) -> (added: bool)
        requires
            old(self).wf(),
        ensures
            final(self).wf(),
            added == !has_path(old(self)@, file@.path),
            final(self)@ == with_file(old(self)@, file@),
    {
        let (at, found) = self.position(file.path.as_str());
        if found {
            return false;
        }
        proof {
            lemma_rank_divides(self@, file@.path);
            lemma_sorted_insert(self@, file@);
            assert(self.entries@.insert(at as int, file).len() == self.entries@.len() + 1);
        }
        let ghost before = self@;
        self.entries.insert(at, file);
        assert(self@ =~= before.insert(at as int, file@));
        true
    }

    /// Puts a file in its place, instead of the file that had its path if
    /// there was one. The snapshot stays in order.
    pub fn replace(&mut self, file: FileFingerprint)
        requires
            old(self).wf(),
        ensures
            final(self).wf(),
            final(self)@ == with_file_replaced(old(self)@, file@),
    {
        let (at, found) = self.position(file.path.as_str());
        let ghost before = self@;
        if found {
            proof {
                lemma_sorted_update(self@, file@, at as int);
            }
            self.entries.set(at, file);
            assert(self@ =~= before.update(at as int, file@));
        } else {
            proof {
                lemma_rank_divides(self@, file@.path);
                lemma_sorted_insert(self@, file@);
            }
            self.entries.insert(at, file);
            assert(self@ =~= before.insert(at as int, file@));
        }
    }

    /// The snapshot of `files`, provided that no two of them share a path;
    /// `None` where two do.
    pub fn from_files(files: &Vec<FileFingerprint>) -> (r: Option<Snapshot>)
        ensures
            r.is_some() == distinct_paths(file_views(files@)),
            r matches Some(s) ==> s.wf() && s@ == gathered(file_views(files@)),
    {
        let mut snapshot = Snapshot::new();
        let mut i: usize = 0;
        let ghost all = file_views(files@);
        assert(all.take(0) == Seq::<FileFingerprintView>::empty());
        while i < files.len()
            invariant
                0 <= i <= files.len(),
                all == file_views(files@),
                snapshot.wf(),
                snapshot@ == gathered(all.take(i as int)),
                distinct_paths(all.take(i as int)),
            decreases files.len() - i,
        {
            let file = files[i].duplicate();
            proof {
                let done = all.take(i + 1);
                assert(done.drop_last() == all.take(i as int));
                assert(done.last() == file@);
                lemma_gathered(all.take(i as int), file@.path);
            }
            let added = snapshot.insert(file);
            if !added {
                proof {
                    let seen = all.take(i as int);
                    let j = choose|j: int| 0 <= j < seen.len() && (#[trigger] seen[j]).path == file@.path;
                    assert(all[j].path == all[i as int].path);
                }
                return None;
            }
            proof {
                let seen = all.take(i as int);
                let done = all.take(i + 1);
                assert forall|a: int, b: int| 0 <= a < b < done.len() implies (#[trigger] done[a]).path
                    != (#[trigger] done[b]).path by {
                    if b < i {
                        assert(seen[a] == done[a] && seen[b] == done[b]);
                    } else {
                        assert(seen[a].path == done[a].path);
                    }
                }
            }
            i += 1;
        }
        assert(all.take(files.len() as int) == all);
        Some(snapshot)
    }

    /// The snapshot of `files`, the later of two files with one path taking
    /// the place of the earlier.
    pub fn overlay(files: &Vec<FileFingerprint>) -> (s: Snapshot)
        ensures
            s.wf(),
            s@ == overlaid(file_views(files@)),
    {
        let mut snapshot = Snapshot::new();
        let mut i: usize = 0;
        let ghost all = file_views(files@);
        assert(all.take(0) == Seq::<FileFingerprintView>::empty());
        while i < files.len()
            invariant
                0 <= i <= files.len(),
                all == file_views(files@),
                snapshot.wf(),
                snapshot@ == overlaid(all.take(i as int)),
            decreases files.len() - i,
        {
            let file = files[i].duplicate();
            proof {
                let done = all.take(i + 1);
                assert(done.drop_last() == all.take(i as int));
                assert(done.last() == file@);
            }
            snapshot.replace(file);
            i += 1;
        }
        assert(all.take(files.len() as int) == all);
        snapshot
    }

    /// A copy of this snapshot.
    pub fn duplicate(&self) -> (s: Snapshot)
        ensures
            s@ == self@,
    {
        let mut entries: Vec<FileFingerprint> = Vec::new();
        let mut i: usize = 0;
        while i < self.entries.len()
            invariant
                0 <= i <= self.entries.len(),
                entries@.len() == i,
                forall|j: int| 0 <= j < i ==> (#[trigger] entries@[j])@ == self.entries@[j]@,
            decreases self.entries.len() - i,
        {
            entries.push(self.entries[i].duplicate());
            i += 1;
        }
        let s = Snapshot { entries };
        assert(s@ =~= self@);
        s
    }
}

/// In a sorted sequence the rank of a path is the one place that divides
/// the paths before it from the others.
pub proof fn lemma_rank(files: Seq<FileFingerprintView>, path: Seq<char>, k: int)
    requires
        0 <= k <= files.len(),
        forall|j: int| 0 <= j < k ==> path_lt((#[trigger] files[j]).path, path),
        forall|j: int| k <= j < files.len() ==> !path_lt((#[trigger] files[j]).path, path),
    ensures
        rank(files, path) == k,
    decreases files.len(),
{
    if files.len() > 0 {
        let rest = files.drop_last();
        if k == files.len() {
            assert(path_lt(files[k - 1].path, path));
            lemma_rank(rest, path, k - 1);
        } else {
            assert(!path_lt(files[files.len() - 1].path, path));
            lemma_rank(rest, path, k);
        }
    }
}

/// The rank of a path lies within the sequence.
pub proof fn lemma_rank_bounds(files: Seq<FileFingerprintView>, path: Seq<char>)
    ensures
        0 <= rank(files, path) <= files.len(),
    decreases files.len(),
{
    if files.len() > 0 {
        lemma_rank_bounds(files.drop_last(), path);
    }
}

/// In a sorted sequence the paths before the rank of `path` come before
/// `path`, and those from the rank on do not.
pub proof fn lemma_rank_divides(files: Seq<FileFingerprintView>, path: Seq<char>)
    requires
        sorted(files),
    ensures
        0 <= rank(files, path) <= files.len(),
        forall|j: int| 0 <= j < rank(files, path) ==> path_lt((#[trigger] files[j]).path, path),
        forall|j: int|
            rank(files, path) <= j < files.len() ==> !path_lt((#[trigger] files[j]).path, path),
    decreases files.len(),
{
    if files.len() > 0 {
        let rest = files.drop_last();
        let last = files.last();
        assert(sorted(rest)) by {
            assert forall|i: int, j: int| 0 <= i < j < rest.len() implies path_lt(
                (#[trigger] rest[i]).path,
                (#[trigger] rest[j]).path,
            ) by {
                assert(rest[i] == files[i]);
                assert(rest[j] == files[j]);
            }
        }
        lemma_rank_divides(rest, path);
        if path_lt(last.path, path) {
            assert forall|j: int| 0 <= j < files.len() implies path_lt(
                (#[trigger] files[j]).path,
                path,
            ) by {
                if j < files.len() - 1 {
                    assert(path_lt(files[j].path, files[files.len() - 1].path));
                    lemma_path_lt_transitive(files[j].path, last.path, path);
                }
            }
            assert forall|j: int| 0 <= j < rest.len() implies path_lt(
                (#[trigger] rest[j]).path,
                path,
            ) by {
                assert(rest[j] == files[j]);
            }
            lemma_rank(rest, path, rest.len() as int);
        } else {
            assert forall|j: int| 0 <= j < rank(files, path) implies path_lt(
                (#[trigger] files[j]).path,
                path,
            ) by {
                assert(rest[j] == files[j]);
            }
            assert forall|j: int| rank(files, path) <= j < files.len() implies !path_lt(
                (#[trigger] files[j]).path,
                path,
            ) by {
                if j < files.len() - 1 {
                    assert(rest[j] == files[j]);
                }
            }
        }
    }
}

/// In a sorted sequence a path that occurs stands at its rank, and nowhere
/// else.
pub proof fn lemma_rank_of_present(files: Seq<FileFingerprintView>, path: Seq<char>)
    requires
        sorted(files),
        has_path(files, path),
    ensures
        0 <= rank(files, path) < files.len(),
        files[rank(files, path)].path == path,
        forall|i: int|
            0 <= i < files.len() && i != rank(files, path) ==> (#[trigger] files[i]).path != path,
{
    let k = rank(files, path);
    lemma_rank_divides(files, path);
    lemma_path_lt_irreflexive(path);
    let at = choose|i: int| 0 <= i < files.len() && (#[trigger] files[i]).path == path;
    if at < k {
        assert(path_lt(files[at].path, path));
    }
    if at > k {
        assert(path_lt(files[k].path, files[at].path));
    }
    assert(at == k);
    assert forall|i: int| 0 <= i < files.len() && i != k implies (#[trigger] files[i]).path
        != path by {
        if i < k {
            assert(path_lt(files[i].path, files[k].path));
        } else {
            assert(path_lt(files[k].path, files[i].path));
        }
    }
}

/// Where `files[i]` is the last file with the path `path`, its fingerprint
/// is the one recorded for `path`.
pub proof fn lemma_fingerprint_of(files: Seq<FileFingerprintView>, path: Seq<char>, i: int)
    requires
        0 <= i < files.len(),
        files[i].path == path,
        forall|j: int| i < j < files.len() ==> (#[trigger] files[j]).path != path,
    ensures
        fingerprint_of(files, path) == Some(files[i].fingerprint),
    decreases files.len(),
{
    if i < files.len() - 1 {
        let rest = files.drop_last();
        assert(files[files.len() - 1].path != path);
        assert forall|j: int| i < j < rest.len() implies (#[trigger] rest[j]).path != path by {
            assert(rest[j] == files[j]);
        }
        lemma_fingerprint_of(rest, path, i);
    }
}

/// A path has a fingerprint recorded exactly when it occurs.
pub proof fn lemma_fingerprint_of_some(files: Seq<FileFingerprintView>, path: Seq<char>)
    ensures
        fingerprint_of(files, path).is_some() <==> has_path(files, path),
    decreases files.len(),
{
    if files.len() > 0 {
        let rest = files.drop_last();
        lemma_fingerprint_of_some(rest, path);
        if files.last().path == path {
            assert(files[files.len() - 1].path == path);
        } else {
            if has_path(rest, path) {
                let i = choose|i: int| 0 <= i < rest.len() && (#[trigger] rest[i]).path == path;
                assert(files[i].path == path);
            }
            if has_path(files, path) {
                let i = choose|i: int| 0 <= i < files.len() && (#[trigger] files[i]).path == path;
                assert(rest[i].path == path);
            }
        }
    }
}

/// In a sorted sequence every file is the one recorded for its path.
pub proof fn lemma_sorted_lookup(files: Seq<FileFingerprintView>, i: int)
    requires
        sorted(files),
        0 <= i < files.len(),
    ensures
        fingerprint_of(files, files[i].path) == Some(files[i].fingerprint),
{
    assert forall|j: int| i < j < files.len() implies (#[trigger] files[j]).path
        != files[i].path by {
        assert(path_lt(files[i].path, files[j].path));
        lemma_path_lt_irreflexive(files[i].path);
    }
    lemma_fingerprint_of(files, files[i].path, i);
}

/// A sorted sequence holds a file exactly when it records that file's
/// fingerprint for that file's path.
pub proof fn lemma_sorted_contains(files: Seq<FileFingerprintView>, file: FileFingerprintView)
    requires
        sorted(files),
    ensures
        files.contains(file) <==> fingerprint_of(files, file.path) == Some(file.fingerprint),
{
    if files.contains(file) {
        let i = choose|i: int| 0 <= i < files.len() && files[i] == file;
        lemma_sorted_lookup(files, i);
    }
    if fingerprint_of(files, file.path) == Some(file.fingerprint) {
        lemma_fingerprint_of_some(files, file.path);
        let i = choose|i: int| 0 <= i < files.len() && (#[trigger] files[i]).path == file.path;
        lemma_sorted_lookup(files, i);
        assert(files[i] == file);
    }
}

/// Adding a file with a new path at its rank keeps a sequence sorted.
pub proof fn lemma_sorted_insert(files: Seq<FileFingerprintView>, file: FileFingerprintView)
    requires
        sorted(files),
        !has_path(files, file.path),
    ensures
        sorted(files.insert(rank(files, file.path), file)),
{
    let k = rank(files, file.path);
    lemma_rank_divides(files, file.path);
    let after = files.insert(k, file);
    assert forall|i: int, j: int| 0 <= i < j < after.len() implies path_lt(
        (#[trigger] after[i]).path,
        (#[trigger] after[j]).path,
    ) by {
        if j < k {
            assert(after[i] == files[i] && after[j] == files[j]);
        } else if j == k {
            assert(after[i] == files[i]);
        } else if i < k {
            assert(after[i] == files[i] && after[j] == files[j - 1]);
        } else if i == k {
            assert(after[j] == files[j - 1]);
            assert(!path_lt(files[j - 1].path, file.path));
            lemma_path_lt_total(files[j - 1].path, file.path);
        } else {
            assert(after[i] == files[i - 1] && after[j] == files[j - 1]);
        }
    }
}

/// Putting a file in the place of one with the same path keeps a sequence
/// sorted.
pub proof fn lemma_sorted_update(files: Seq<FileFingerprintView>, file: FileFingerprintView, k: int)
    requires
        sorted(files),
        0 <= k < files.len(),
        files[k].path == file.path,
    ensures
        sorted(files.update(k, file)),
{
    let after = files.update(k, file);
    assert forall|i: int, j: int| 0 <= i < j < after.len() implies path_lt(
        (#[trigger] after[i]).path,
        (#[trigger] after[j]).path,
    ) by {
        assert(path_lt(files[i].path, files[j].path));
    }
}

/// What inserting a file at a place does to a sequence's contents.
pub proof fn lemma_insert_holds(
    files: Seq<FileFingerprintView>,
    k: int,
    file: FileFingerprintView,
    other: FileFingerprintView,
)
    requires
        0 <= k <= files.len(),
    ensures
        files.insert(k, file).contains(other) <==> files.contains(other) || other == file,
        has_path(files.insert(k, file), other.path) <==> has_path(files, other.path) || other.path
            == file.path,
{
    let after = files.insert(k, file);
    assert(after[k] == file);
    if files.contains(other) {
        let i = choose|i: int| 0 <= i < files.len() && files[i] == other;
        if i < k {
            assert(after[i] == other);
        } else {
            assert(after[i + 1] == other);
        }
    }
    if after.contains(other) {
        let i = choose|i: int| 0 <= i < after.len() && after[i] == other;
        if i < k {
            assert(files[i] == other);
        } else if i > k {
            assert(files[i - 1] == other);
        }
    }
    if has_path(files, other.path) {
        let i = choose|i: int| 0 <= i < files.len() && (#[trigger] files[i]).path == other.path;
        if i < k {
            assert(after[i].path == other.path);
        } else {
            assert(after[i + 1].path == other.path);
        }
    }
    if has_path(after, other.path) {
        let i = choose|i: int| 0 <= i < after.len() && (#[trigger] after[i]).path == other.path;
        if i < k {
            assert(files[i].path == other.path);
        } else if i > k {
            assert(files[i - 1].path == other.path);
        }
    }
}

/// What putting a file in the place of another does to a sequence's
/// contents, where no third file has the path of the one that goes.
pub proof fn lemma_update_holds(
    files: Seq<FileFingerprintView>,
    k: int,
    file: FileFingerprintView,
    other: FileFingerprintView,
)
    requires
        0 <= k < files.len(),
        files[k].path == file.path,
        forall|i: int| 0 <= i < files.len() && i != k ==> (#[trigger] files[i]).path != file.path,
    ensures
        files.update(k, file).contains(other) <==> other == file || (files.contains(other)
            && other.path != file.path),
        has_path(files.update(k, file), other.path) <==> has_path(files, other.path),
{
    let after = files.update(k, file);
    assert(after[k] == file);
    if files.contains(other) && other.path != file.path {
        let i = choose|i: int| 0 <= i < files.len() && files[i] == other;
        assert(after[i] == other);
    }
    if after.contains(other) && other != file {
        let i = choose|i: int| 0 <= i < after.len() && after[i] == other;
        assert(files[i] == other);
    }
    if has_path(files, other.path) {
        let i = choose|i: int| 0 <= i < files.len() && (#[trigger] files[i]).path == other.path;
        assert(after[i].path == other.path);
    }
    if has_path(after, other.path) {
        let i = choose|i: int| 0 <= i < after.len() && (#[trigger] after[i]).path == other.path;
        assert(files[i].path == other.path);
    }
}

/// What adding a file does to a snapshot's contents: the file is there
/// afterwards unless its path was taken, and nothing else changes.
pub proof fn lemma_with_file(
    files: Seq<FileFingerprintView>,
    file: FileFingerprintView,
    other: FileFingerprintView,
)
    requires
        sorted(files),
    ensures
        sorted(with_file(files, file)),
        with_file(files, file).contains(other) <==> files.contains(other) || (other == file
            && !has_path(files, file.path)),
        has_path(with_file(files, file), other.path) <==> has_path(files, other.path) || other.path
            == file.path,
{
    if !has_path(files, file.path) {
        lemma_rank_bounds(files, file.path);
        lemma_sorted_insert(files, file);
        lemma_insert_holds(files, rank(files, file.path), file, other);
    }
}

/// What putting a file in its place does to a snapshot's contents: the file
/// is there afterwards, a file that had its path is gone, and nothing else
/// changes.
pub proof fn lemma_with_file_replaced(
    files: Seq<FileFingerprintView>,
    file: FileFingerprintView,
    other: FileFingerprintView,
)
    requires
        sorted(files),
    ensures
        sorted(with_file_replaced(files, file)),
        with_file_replaced(files, file).contains(other) <==> other == file || (files.contains(other)
            && other.path != file.path),
        has_path(with_file_replaced(files, file), other.path) <==> has_path(files, other.path)
            || other.path == file.path,
{
    let k = rank(files, file.path);
    if has_path(files, file.path) {
        lemma_rank_of_present(files, file.path);
        lemma_sorted_update(files, file, k);
        lemma_update_holds(files, k, file, other);
    } else {
        lemma_rank_bounds(files, file.path);
        lemma_sorted_insert(files, file);
        lemma_insert_holds(files, k, file, other);
        if files.contains(other) && other.path == file.path {
            let i = choose|i: int| 0 <= i < files.len() && files[i] == other;
            assert(files[i].path == file.path);
        }
    }
}

/// A gathered snapshot is in order and holds exactly the paths of its files.
pub proof fn lemma_gathered(files: Seq<FileFingerprintView>, path: Seq<char>)
    ensures
        sorted(gathered(files)),
        has_path(gathered(files), path) <==> has_path(files, path),
    decreases files.len(),
{
    if files.len() > 0 {
        let rest = files.drop_last();
        let last = files.last();
        lemma_gathered(rest, path);
        lemma_with_file(gathered(rest), last, FileFingerprintView { path, fingerprint: last.fingerprint });
        if has_path(rest, path) {
            let i = choose|i: int| 0 <= i < rest.len() && (#[trigger] rest[i]).path == path;
            assert(files[i].path == path);
        }
        if path == last.path {
            assert(files[files.len() - 1].path == path);
        }
        if has_path(files, path) && path != last.path {
            let i = choose|i: int| 0 <= i < files.len() && (#[trigger] files[i]).path == path;
            assert(rest[i].path == path);
        }
    } else {
        assert(sorted(gathered(files)));
    }
}

/// An overlaid snapshot is in order, holds exactly the paths of its files,
/// and records for each path the fingerprint of the last file that has it.
pub proof fn lemma_overlaid(files: Seq<FileFingerprintView>, path: Seq<char>)
    ensures
        sorted(overlaid(files)),
        has_path(overlaid(files), path) <==> has_path(files, path),
        fingerprint_of(overlaid(files), path) == fingerprint_of(files, path),
    decreases files.len(),
{
    if files.len() > 0 {
        let rest = files.drop_last();
        let last = files.last();
        lemma_overlaid(rest, path);
        let before = overlaid(rest);
        let after = overlaid(files);
        lemma_fingerprint_of_some(files, path);
        lemma_fingerprint_of_some(rest, path);
        lemma_fingerprint_of_some(after, path);
        lemma_fingerprint_of_some(before, path);
        lemma_with_file_replaced(before, last, FileFingerprintView { path, fingerprint: last.fingerprint });
        if path == last.path {
            lemma_sorted_contains(after, last);
        } else {
            match fingerprint_of(rest, path) {
                Some(f) => {
                    let other = FileFingerprintView { path, fingerprint: f };
                    lemma_sorted_contains(before, other);
                    lemma_with_file_replaced(before, last, other);
                    lemma_sorted_contains(after, other);
                },
                None => {},
            }
        }
    } else {
        assert(sorted(overlaid(files)));
        lemma_fingerprint_of_some(files, path);
    }
}

/// Where no two files share a path it makes no difference whether the
/// earlier or the later of two such files would stay: gathering and
/// overlaying give the same snapshot, which holds every file.
pub proof fn lemma_gathered_distinct(files: Seq<FileFingerprintView>)
    requires
        distinct_paths(files),
    ensures
        gathered(files) == overlaid(files),
        gathered(files).len() == files.len(),
        forall|i: int| 0 <= i < files.len() ==> gathered(files).contains(#[trigger] files[i]),
    decreases files.len(),
{
    if files.len() > 0 {
        let rest = files.drop_last();
        let last = files.last();
        assert(distinct_paths(rest)) by {
            assert forall|i: int, j: int| 0 <= i < j < rest.len() implies (#[trigger] rest[i]).path != (
            #[trigger] rest[j]).path by {
                assert(rest[i] == files[i] && rest[j] == files[j]);
            }
        }
        lemma_gathered_distinct(rest);
        lemma_gathered(rest, last.path);
        if has_path(rest, last.path) {
            let i = choose|i: int| 0 <= i < rest.len() && (#[trigger] rest[i]).path == last.path;
            assert(files[i].path == files[files.len() - 1].path);
        }
        lemma_rank_bounds(gathered(rest), last.path);
        assert forall|i: int| 0 <= i < files.len() implies gathered(files).contains(
            #[trigger] files[i],
        ) by {
            lemma_with_file(gathered(rest), last, files[i]);
            if i < files.len() - 1 {
                assert(rest[i] == files[i]);
            }
        }
    }
}

/// In a sorted sequence, and so in every snapshot, a path that occurs
/// occurs exactly once.
pub proof fn lemma_sorted_occurs_once(files: Seq<FileFingerprintView>, path: Seq<char>)
    requires
        sorted(files),
    ensures
        occurrences(files, path) == if has_path(files, path) { 1nat } else { 0nat },
    decreases files.len(),
{
    if files.len() > 0 {
        let rest = files.drop_last();
        assert(sorted(rest)) by {
            assert forall|i: int, j: int| 0 <= i < j < rest.len() implies path_lt(
                (#[trigger] rest[i]).path,
                (#[trigger] rest[j]).path,
            ) by {
                assert(rest[i] == files[i] && rest[j] == files[j]);
            }
        }
        lemma_sorted_occurs_once(rest, path);
        if files.last().path == path {
            assert(files[files.len() - 1].path == path);
            if has_path(rest, path) {
                let i = choose|i: int| 0 <= i < rest.len() && (#[trigger] rest[i]).path == path;
                assert(path_lt(files[i].path, files[files.len() - 1].path));
                lemma_path_lt_irreflexive(path);
            }
        } else {
            if has_path(rest, path) {
                let i = choose|i: int| 0 <= i < rest.len() && (#[trigger] rest[i]).path == path;
                assert(files[i].path == path);
            }
            if has_path(files, path) {
                let i = choose|i: int| 0 <= i < files.len() && (#[trigger] files[i]).path == path;
                assert(rest[i].path == path);
            }
        }
    }
}

/// A gathered snapshot holds nothing but files that were gathered.
pub proof fn lemma_gathered_holds_only_files(
    files: Seq<FileFingerprintView>,
    file: FileFingerprintView,
)
    requires
        gathered(files).contains(file),
    ensures
        files.contains(file),
    decreases files.len(),
{
    if files.len() > 0 {
        let rest = files.drop_last();
        let last = files.last();
        lemma_gathered(rest, file.path);
        lemma_with_file(gathered(rest), last, file);
        if gathered(rest).contains(file) {
            lemma_gathered_holds_only_files(rest, file);
            let i = choose|i: int| 0 <= i < rest.len() && rest[i] == file;
            assert(files[i] == file);
        } else {
            assert(files[files.len() - 1] == file);
        }
    }
}

} // verus!
