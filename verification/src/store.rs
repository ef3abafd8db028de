//! The snapshot store: the commits of a repository, each with the snapshot
//! that was taken with it. Commit identifiers ascend, and within one
//! commit no path occurs twice.

use crate::fingerprint::{file_views, FileFingerprint, FileFingerprintView};
use crate::snapshot::{
    distinct_paths, gathered, has_path, lemma_rank_bounds, lemma_with_file, sorted, with_file,
    Snapshot,
};
use vstd::prelude::*;
use vstd::string::StringExecFns;

verus! {

/// Why an operation on a repository failed.
#[derive(Clone, Copy, Debug, PartialEq, Eq)]
pub enum StoreError {
    /// There is no repository here: it has to be initialized first.
    NotInitialized,
    /// There is a repository, but its store cannot be read.
    StoreUnavailable,
    /// A commit could not be written; nothing of it has been kept.
    WriteFailure,
}

/// One commit: a point in the history of the project.
#[derive(Debug, PartialEq, Eq)]
pub struct Commit {
    /// The commit's identifier, given by the store.
    pub id: i64,
    /// When the commit was made, in seconds since the epoch.
    pub timestamp: u64,
    /// What the commit is about.
    pub message: String,
    /// Who made the commit.
    pub author: String,
}

/// What a `Commit` stands for.
pub struct CommitView {
    pub id: i64,
    pub timestamp: u64,
    pub message: Seq<char>,
    pub author: Seq<char>,
}

impl View for Commit {
    type V = CommitView;

    open spec fn view(&self) -> CommitView {
        CommitView {
            id: self.id,
            timestamp: self.timestamp,
            message: self.message@,
            author: self.author@,
        }
    }
}

/// The views of a sequence of commits, element by element.
pub open spec fn commit_views(commits: Seq<Commit>) -> Seq<CommitView> {
    Seq::new(commits.len(), |i: int| commits[i]@)
}

/// Whether the identifiers of `commits` ascend strictly.
pub open spec fn ascending(commits: Seq<CommitView>) -> bool {
    forall|i: int, j: int|
        0 <= i < j < commits.len() ==> (#[trigger] commits[i]).id < (#[trigger] commits[j]).id
}

/// Where the commit `id` stands among `commits`, if it is one of them.
pub open spec fn place_of(commits: Seq<CommitView>, id: i64) -> Option<int>
    decreases commits.len(),
{
    if commits.len() == 0 {
        None
    } else if commits.last().id == id {
        Some(commits.len() - 1)
    } else {
        place_of(commits.drop_last(), id)
    }
}

/// `base` with each of `files` added in turn, a file whose path is taken
/// left out.
pub open spec fn extended(
    base: Seq<FileFingerprintView>,
    files: Seq<FileFingerprintView>,
) -> Seq<FileFingerprintView>
    decreases files.len(),
{
    if files.len() == 0 {
        base
    } else {
        with_file(extended(base, files.drop_last()), files.last())
    }
}

/// Whether each of `files` brings a path of its own: one that neither
/// `base` nor another of `files` has.
pub open spec fn all_new(base: Seq<FileFingerprintView>, files: Seq<FileFingerprintView>) -> bool {
    &&& distinct_paths(files)
    &&& forall|i: int| 0 <= i < files.len() ==> !has_path(base, (#[trigger] files[i]).path)
}

/// What a store holds: its commits, oldest first, and for each commit, at
/// the same place, its snapshot.
pub struct StoreView {
    pub commits: Seq<CommitView>,
    pub snapshots: Seq<Seq<FileFingerprintView>>,
}

impl StoreView {
    /// Whether the store is well formed: every commit has its snapshot,
    /// identifiers ascend, and every snapshot is in order.
    pub open spec fn wf(self) -> bool {
        &&& self.commits.len() == self.snapshots.len()
        &&& ascending(self.commits)
        &&& forall|i: int| 0 <= i < self.snapshots.len() ==> sorted(#[trigger] self.snapshots[i])
    }

    /// The identifier of the latest commit, if there is a commit.
    pub open spec fn latest_id(self) -> Option<i64> {
        if self.commits.len() == 0 {
            None
        } else {
            Some(self.commits.last().id)
        }
    }

    /// The identifier that the next commit gets: one more than the latest,
    /// and 1 for the first.
    pub open spec fn next_id(self) -> int {
        match self.latest_id() {
            Some(id) => id + 1,
            None => 1,
        }
    }

    /// The snapshot of the latest commit; empty where there is no commit.
    pub open spec fn latest_snapshot(self) -> Seq<FileFingerprintView> {
        if self.snapshots.len() == 0 {
            seq![]
        } else {
            self.snapshots.last()
        }
    }

    /// The snapshot of the commit `id`, if there is such a commit.
    pub open spec fn snapshot_of(self, id: i64) -> Option<Seq<FileFingerprintView>> {
        match place_of(self.commits, id) {
            Some(i) => Some(self.snapshots[i]),
            None => None,
        }
    }

    /// The store after a commit has been created.
    pub open spec fn with_commit(self, commit: CommitView) -> StoreView {
        StoreView {
            commits: self.commits.push(commit),
            snapshots: self.snapshots.push(seq![]),
        }
    }

    /// The store after `files` have been written for the commit at place
    /// `i`.
    pub open spec fn with_files(self, i: int, files: Seq<FileFingerprintView>) -> StoreView {
        StoreView {
            commits: self.commits,
            snapshots: self.snapshots.update(i, extended(self.snapshots[i], files)),
        }
    }
}

/// The commits of a repository with their snapshots.
#[derive(Debug, PartialEq, Eq)]
pub struct SnapshotStore {
    commits: Vec<Commit>,
    snapshots: Vec<Snapshot>,
}

impl View for SnapshotStore {
    type V = StoreView;

    closed spec fn view(&self) -> StoreView {
        StoreView {
            commits: commit_views(self.commits@),
            snapshots: Seq::new(self.snapshots@.len(), |i: int| self.snapshots@[i]@),
        }
    }
}

impl SnapshotStore {
    /// Whether the store is well formed.
    pub open spec fn wf(&self) -> bool {
        self@.wf()
    }

    /// The store of a repository without commits.
    pub fn new() -> (store: SnapshotStore)
        ensures
            store.wf(),
            store@.commits.len() == 0,
            store@.snapshots.len() == 0,
    {
        SnapshotStore { commits: Vec::new(), snapshots: Vec::new() }
    }

    /// The store that holds `commits`, oldest first, each with the files
    /// that stand at its place in `files`.
    ///
    /// What is handed in must be what a store can hold: as many lists of
    /// files as commits, identifiers that ascend, and within one commit no
    /// path twice. Anything else is taken as a store that cannot be read.
    pub fn load(commits: Vec<Commit>, files: &Vec<Vec<FileFingerprint>>) -> (r: Result<
        SnapshotStore,
        StoreError,
    >)
        ensures
            r.is_ok() <==> {
                &&& commits@.len() == files@.len()
                &&& ascending(commit_views(commits@))
                &&& forall|i: int|
                    0 <= i < files@.len() ==> distinct_paths(file_views((#[trigger] files@[i])@))
            },
            r matches Ok(store) ==> {
                &&& store.wf()
                &&& store@.commits == commit_views(commits@)
                &&& store@.snapshots.len() == files@.len()
                &&& forall|i: int|
                    0 <= i < files@.len() ==> (#[trigger] store@.snapshots[i]) == gathered(
                        file_views(files@[i]@),
                    )
            },
            r matches Err(e) ==> e == StoreError::StoreUnavailable,
    {
        let n = commits.len();
        if files.len() != n {
            return Err(StoreError::StoreUnavailable);
        }
        let mut i: usize = 1;
        while i < n
            invariant
                1 <= i,
                n == commits@.len(),
                forall|j: int| 1 <= j < i && j < n ==> (#[trigger] commits@[j - 1]).id < commits@[j].id,
            decreases n - i,
        {
            if commits[i - 1].id >= commits[i].id {
                proof {
                    let views = commit_views(commits@);
                    assert(views[i - 1].id >= views[i as int].id);
                }
                return Err(StoreError::StoreUnavailable);
            }
            i += 1;
        }
        proof {
            let views = commit_views(commits@);
            assert forall|a: int, b: int| 0 <= a < b < views.len() implies (#[trigger] views[a]).id < (
            #[trigger] views[b]).id by {
                lemma_steps_ascend(commits@, a, b);
            }
        }
        let mut snapshots: Vec<Snapshot> = Vec::new();
        let mut k: usize = 0;
        while k < n
            invariant
                0 <= k <= n,
                n == files@.len(),
                snapshots@.len() == k,
                forall|j: int|
                    0 <= j < k ==> (#[trigger] snapshots@[j]).wf() && snapshots@[j]@ == gathered(
                        file_views(files@[j]@),
                    ),
                forall|j: int| 0 <= j < k ==> distinct_paths(file_views((#[trigger] files@[j])@)),
            decreases n - k,
        {
            match Snapshot::from_files(&files[k]) {
                Some(snapshot) => {
                    snapshots.push(snapshot);
                },
                None => {
                    return Err(StoreError::StoreUnavailable);
                },
            }
            k += 1;
        }
        let store = SnapshotStore { commits, snapshots };
        assert(store@.snapshots.len() == n);
        assert forall|j: int| 0 <= j < n implies (#[trigger] store@.snapshots[j]) == gathered(
            file_views(files@[j]@),
        ) by {
            assert(store@.snapshots[j] == snapshots@[j]@);
        }
        assert forall|j: int| 0 <= j < store@.snapshots.len() implies sorted(
            #[trigger] store@.snapshots[j],
        ) by {
            assert(snapshots@[j].wf());
        }
        Ok(store)
    }

    /// The number of commits.
    pub fn len(&self) -> (n: usize)
        requires
            self.wf(),
        ensures
            n == self@.commits.len(),
    {
        self.commits.len()
    }

    /// The identifier of the latest commit: the highest there is. `None`
    /// where there is no commit.
    pub fn latest_commit_id(&self) -> (r: Option<i64>)
        requires
            self.wf(),
        ensures
            r == self@.latest_id(),
            r matches Some(id) ==> forall|i: int|
                0 <= i < self@.commits.len() ==> (#[trigger] self@.commits[i]).id <= id,
    {
        let n = self.commits.len();
        if n == 0 {
            None
        } else {
            let id = self.commits[n - 1].id;
            assert(self@.commits[n - 1].id == id);
            assert forall|i: int| 0 <= i < self@.commits.len() implies (#[trigger] self@.commits[i]).id
                <= id by {
                if i < n - 1 {
                    assert(self@.commits[i].id < self@.commits[n - 1].id);
                }
            }
            Some(id)
        }
    }

    /// Finds the place of the commit `id`.
    fn find(&self, id: i64) -> (r: Option<usize>)
        requires
            self.wf(),
        ensures
            match r {
                Some(i) => place_of(self@.commits, id) == Some(i as int) && i < self@.commits.len(),
                None => place_of(self@.commits, id).is_none(),
            },
    {
        let mut i: usize = self.commits.len();
        assert(self@.commits.take(i as int) == self@.commits);
        while i > 0
            invariant
                0 <= i <= self.commits.len(),
                self@.commits.len() == self.commits.len(),
                place_of(self@.commits, id) == place_of(self@.commits.take(i as int), id),
            decreases i,
        {
            proof {
                let seen = self@.commits.take(i as int);
                assert(seen.last() == self@.commits[i - 1]);
                assert(seen.drop_last() == self@.commits.take(i - 1));
                assert(self@.commits[i - 1].id == self.commits@[i - 1].id);
            }
            if self.commits[i - 1].id == id {
                return Some(i - 1);
            }
            i -= 1;
        }
        None
    }

    /// Creates a commit and gives it the next identifier: one more than the
    /// latest, so that identifiers ascend. The commit starts with an empty
    /// snapshot. Where the identifiers are used up nothing is created.
    pub fn create_commit(&mut self, timestamp: u64, message: &str, author: &str) -> (r: Result<
        i64,
        StoreError,
    >)
        requires
            old(self).wf(),
        ensures
            final(self).wf(),
            r.is_ok() <==> old(self)@.next_id() <= i64::MAX,
            r matches Ok(id) ==> id == old(self)@.next_id() && final(self)@ == old(self)@.with_commit(
                CommitView { id, timestamp, message: message@, author: author@ },
            ),
            r matches Err(e) ==> e == StoreError::WriteFailure && final(self)@ == old(self)@,
    {
        let id: i64 = match self.latest_commit_id() {
            None => 1,
            Some(latest) => {
                if latest == i64::MAX {
                    return Err(StoreError::WriteFailure);
                }
                latest + 1
            },
        };
        let commit = Commit {
            id,
            timestamp,
            message: String::from_str(message),
            author: String::from_str(author),
        };
        let ghost before = self@;
        self.commits.push(commit);
        self.snapshots.push(Snapshot::new());
        proof {
            let added = CommitView { id, timestamp, message: message@, author: author@ };
            assert(self@.commits =~= before.commits.push(added));
            assert(self@.snapshots[self@.snapshots.len() - 1] =~= Seq::<FileFingerprintView>::empty());
            assert(self@.snapshots =~= before.snapshots.push(seq![]));
            assert forall|i: int, j: int| 0 <= i < j < self@.commits.len() implies (
            #[trigger] self@.commits[i]).id < (#[trigger] self@.commits[j]).id by {
                if j < before.commits.len() {
                    assert(before.commits[i].id < before.commits[j].id);
                } else {
                    assert(before.commits[i].id <= before.commits.last().id);
                }
            }
            assert forall|i: int| 0 <= i < self@.snapshots.len() implies sorted(
                #[trigger] self@.snapshots[i],
            ) by {
                if i < before.snapshots.len() {
                    assert(sorted(before.snapshots[i]));
                }
            }
        }
        Ok(id)
    }

    /// Writes `files` for the commit `commit_id`, all of them or none.
    ///
    /// The write fails, and leaves the store as it was, where there is no
    /// such commit or where a file's path is taken already, by a file of the
    /// commit or by another of `files`.
    pub fn write_fingerprints(&mut self, commit_id: i64, files: &Vec<FileFingerprint>) -> (r: Result<
        (),
        StoreError,
    >)
        requires
            old(self).wf(),
        ensures
            final(self).wf(),
            r.is_ok() <==> (place_of(old(self)@.commits, commit_id) matches Some(i) && all_new(
                old(self)@.snapshots[i],
                file_views(files@),
            )),
            r.is_ok() ==> final(self)@ == old(self)@.with_files(
                place_of(old(self)@.commits, commit_id).unwrap(),
                file_views(files@),
            ),
            r matches Err(e) ==> e == StoreError::WriteFailure && final(self)@ == old(self)@,
    {
        let at = match self.find(commit_id) {
            Some(at) => at,
            None => {
                return Err(StoreError::WriteFailure);
            },
        };
        let ghost base = self@.snapshots[at as int];
        let ghost all = file_views(files@);
        assert(self.snapshots@[at as int]@ == base);
        let snapshot = match extend(&self.snapshots[at], files) {
            Some(snapshot) => snapshot,
            None => {
                return Err(StoreError::WriteFailure);
            },
        };
        let ghost before = self@;
        self.snapshots.set(at, snapshot);
        proof {
            assert(self@.snapshots =~= before.snapshots.update(at as int, extended(base, all)));
            assert forall|j: int| 0 <= j < self@.snapshots.len() implies sorted(
                #[trigger] self@.snapshots[j],
            ) by {
                if j != at {
                    assert(sorted(before.snapshots[j]));
                }
            }
        }
        Ok(())
    }

    /// Takes the latest commit back, with its snapshot: what a commit does
    /// that could not be written in full.
    pub(crate) fn discard_latest(&mut self)
        requires
            old(self).wf(),
            old(self)@.commits.len() > 0,
        ensures
            final(self).wf(),
            final(self)@.commits == old(self)@.commits.drop_last(),
            final(self)@.snapshots == old(self)@.snapshots.drop_last(),
    {
        let ghost before = self@;
        self.commits.pop();
        self.snapshots.pop();
        proof {
            assert(self@.commits =~= before.commits.drop_last());
            assert(self@.snapshots =~= before.snapshots.drop_last());
            assert forall|i: int, j: int| 0 <= i < j < self@.commits.len() implies (
            #[trigger] self@.commits[i]).id < (#[trigger] self@.commits[j]).id by {
                assert(before.commits[i].id < before.commits[j].id);
            }
            assert forall|i: int| 0 <= i < self@.snapshots.len() implies sorted(
                #[trigger] self@.snapshots[i],
            ) by {
                assert(sorted(before.snapshots[i]));
            }
        }
    }

    /// The snapshot of the commit `commit_id`; `None` where there is no
    /// such commit.
    pub fn fingerprints_for(&self, commit_id: i64) -> (r: Option<&Snapshot>)
        requires
            self.wf(),
        ensures
            match r {
                Some(snapshot) => snapshot.wf() && self@.snapshot_of(commit_id) == Some(snapshot@),
                None => self@.snapshot_of(commit_id).is_none(),
            },
    {
        match self.find(commit_id) {
            Some(at) => {
                assert(self@.snapshots[at as int] == self.snapshots@[at as int]@);
                Some(&self.snapshots[at])
            },
            None => None,
        }
    }

    /// The snapshot of the latest commit; `None` where there is no commit.
    pub fn latest_snapshot(&self) -> (r: Option<&Snapshot>)
        requires
            self.wf(),
        ensures
            r.is_some() <==> self@.commits.len() > 0,
            r matches Some(snapshot) ==> snapshot.wf() && snapshot@ == self@.latest_snapshot(),
    {
        let n = self.snapshots.len();
        if n == 0 {
            None
        } else {
            assert(self@.snapshots[n - 1] == self.snapshots@[n - 1]@);
            Some(&self.snapshots[n - 1])
        }
    }

    /// All commits, in ascending order of their identifiers.
    pub fn all_commits(&self) -> (commits: &Vec<Commit>)
        requires
            self.wf(),
        ensures
            commit_views(commits@) == self@.commits,
            ascending(commit_views(commits@)),
    {
        &self.commits
    }
}

/// The snapshot `base` with `files` added, provided that each of them
/// brings a path of its own; `None` where one does not.
pub fn extend(base: &Snapshot, files: &Vec<FileFingerprint>) -> (r: Option<Snapshot>)
    requires
        base.wf(),
    ensures
        r.is_some() <==> all_new(base@, file_views(files@)),
        r matches Some(s) ==> s.wf() && s@ == extended(base@, file_views(files@)),
{
    let ghost all = file_views(files@);
    let mut snapshot = base.duplicate();
    let mut i: usize = 0;
    assert(all.take(0) == Seq::<FileFingerprintView>::empty());
    while i < files.len()
        invariant
            0 <= i <= files.len(),
            all == file_views(files@),
            base.wf(),
            snapshot.wf(),
            snapshot@ == extended(base@, all.take(i as int)),
            snapshot@.len() == base@.len() + i,
        decreases files.len() - i,
    {
        let file = files[i].duplicate();
        proof {
            let done = all.take(i + 1);
            assert(done.drop_last() == all.take(i as int));
            assert(done.last() == file@);
            lemma_rank_bounds(snapshot@, file@.path);
        }
        let added = snapshot.insert(file);
        if !added {
            proof {
                lemma_extended(base@, all.take(i + 1));
                if all_new(base@, all) {
                    lemma_all_new_prefix(base@, all, i + 1);
                }
            }
            return None;
        }
        i += 1;
    }
    proof {
        assert(all.take(files.len() as int) == all);
        lemma_extended(base@, all);
    }
    Some(snapshot)
}

/// The place that `place_of` gives holds the commit asked for, and no
/// commit has that identifier where it gives none.
pub proof fn lemma_place_of(commits: Seq<CommitView>, id: i64)
    ensures
        match place_of(commits, id) {
            Some(i) => 0 <= i < commits.len() && commits[i].id == id,
            None => forall|i: int| 0 <= i < commits.len() ==> (#[trigger] commits[i]).id != id,
        },
    decreases commits.len(),
{
    if commits.len() > 0 && commits.last().id != id {
        let rest = commits.drop_last();
        lemma_place_of(rest, id);
        if place_of(rest, id).is_none() {
            assert forall|i: int| 0 <= i < commits.len() implies (#[trigger] commits[i]).id
                != id by {
                if i < rest.len() {
                    assert(rest[i].id != id);
                }
            }
        }
    }
}

/// A commit that has just been created stands at the end.
pub proof fn lemma_place_of_latest(commits: Seq<CommitView>)
    requires
        commits.len() > 0,
    ensures
        place_of(commits, commits.last().id) == Some(commits.len() - 1),
{
}

/// Adding files keeps a snapshot in order. Every file was added exactly
/// when each brought a path of its own, and then each is there.
pub proof fn lemma_extended(base: Seq<FileFingerprintView>, files: Seq<FileFingerprintView>)
    requires
        sorted(base),
    ensures
        sorted(extended(base, files)),
        extended(base, files).len() <= base.len() + files.len(),
        all_new(base, files) <==> extended(base, files).len() == base.len() + files.len(),
        forall|path: Seq<char>|
            has_path(extended(base, files), path) <==> has_path(base, path) || has_path(
                files,
                path,
            ),
    decreases files.len(),
{
    if files.len() > 0 {
        let rest = files.drop_last();
        let last = files.last();
        let before = extended(base, rest);
        let after = extended(base, files);
        lemma_extended(base, rest);
        lemma_with_file(before, last, last);
        lemma_rank_bounds(before, last.path);
        assert forall|path: Seq<char>|
            has_path(after, path) <==> has_path(base, path) || has_path(files, path) by {
            lemma_with_file(before, last, FileFingerprintView { path, fingerprint: last.fingerprint });
            if has_path(rest, path) {
                let i = choose|i: int| 0 <= i < rest.len() && (#[trigger] rest[i]).path == path;
                assert(files[i].path == path);
            }
            if path == last.path {
                assert(files[files.len() - 1].path == path);
            }
            if has_path(files, path) && path != last.path {
                let i = choose|i: int| 0 <= i < files.len() && (#[trigger] files[i]).path == path;
                assert(rest[i].path == path);
            }
        }
        if all_new(base, files) {
            assert(all_new(base, rest)) by {
                assert forall|i: int, j: int| 0 <= i < j < rest.len() implies (#[trigger] rest[i]).path
                    != (#[trigger] rest[j]).path by {
                    assert(rest[i] == files[i] && rest[j] == files[j]);
                }
                assert forall|i: int| 0 <= i < rest.len() implies !has_path(
                    base,
                    (#[trigger] rest[i]).path,
                ) by {
                    assert(rest[i] == files[i]);
                }
            }
            assert(!has_path(base, files[files.len() - 1].path));
            if has_path(rest, last.path) {
                let i = choose|i: int| 0 <= i < rest.len() && (#[trigger] rest[i]).path == last.path;
                assert(files[i].path == files[files.len() - 1].path);
            }
            assert(!has_path(before, last.path));
        }
        if after.len() == base.len() + files.len() {
            assert(before.len() == base.len() + rest.len());
            assert(!has_path(before, last.path));
            assert(all_new(base, files)) by {
                assert forall|i: int, j: int| 0 <= i < j < files.len() implies (
                #[trigger] files[i]).path != (#[trigger] files[j]).path by {
                    if j < rest.len() {
                        assert(rest[i] == files[i] && rest[j] == files[j]);
                    } else {
                        assert(rest[i].path == files[i].path);
                    }
                }
                assert forall|i: int| 0 <= i < files.len() implies !has_path(
                    base,
                    (#[trigger] files[i]).path,
                ) by {
                    if i < rest.len() {
                        assert(rest[i] == files[i]);
                    }
                }
            }
        }
    } else {
        assert(all_new(base, files));
    }
}

/// Files added to an empty snapshot are the files gathered.
pub proof fn lemma_extended_from_nothing(files: Seq<FileFingerprintView>)
    ensures
        extended(seq![], files) == gathered(files),
    decreases files.len(),
{
    if files.len() > 0 {
        lemma_extended_from_nothing(files.drop_last());
    }
}

/// Each of the first `k` of `files` brings a path of its own where each of
/// `files` does.
pub proof fn lemma_all_new_prefix(
    base: Seq<FileFingerprintView>,
    files: Seq<FileFingerprintView>,
    k: int,
)
    requires
        0 <= k <= files.len(),
        all_new(base, files),
    ensures
        all_new(base, files.take(k)),
{
    let first = files.take(k);
    assert forall|i: int, j: int| 0 <= i < j < first.len() implies (#[trigger] first[i]).path != (
    #[trigger] first[j]).path by {
        assert(first[i] == files[i] && first[j] == files[j]);
    }
    assert forall|i: int| 0 <= i < first.len() implies !has_path(base, (#[trigger] first[i]).path) by {
        assert(first[i] == files[i]);
    }
}

/// Commits of which each has a higher identifier than the one before it
/// have ascending identifiers.
proof fn lemma_steps_ascend(commits: Seq<Commit>, a: int, b: int)
    requires
        0 <= a < b < commits.len(),
        forall|j: int| 1 <= j < commits.len() ==> (#[trigger] commits[j - 1]).id < commits[j].id,
    ensures
        commit_views(commits)[a].id < commit_views(commits)[b].id,
    decreases b - a,
{
    assert(commits[b - 1].id < commits[b].id);
    if a < b - 1 {
        lemma_steps_ascend(commits, a, b - 1);
    }
}

} // verus!
