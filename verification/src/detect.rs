//! The change detector: compares the files of the project as they are now
//! against the snapshot of the latest commit.
//!
//! A file that the snapshot does not know is untracked; one whose
//! fingerprint differs from the recorded one is modified; the others are
//! unchanged. A file that the snapshot knows and that is gone from the
//! project is not reported.

use crate::fingerprint::{FileFingerprint, FileFingerprintView};
use crate::snapshot::{fingerprint_of, lemma_sorted_lookup, sorted, Snapshot};
use crate::text::views;
use vstd::prelude::*;

verus! {

/// How a file of the project stands to the latest snapshot.
#[derive(Clone, Copy, Debug, PartialEq, Eq)]
pub enum Change {
    /// The snapshot does not know the file's path.
    Untracked,
    /// The snapshot knows the path with another fingerprint.
    Modified,
    /// The snapshot knows the path with this fingerprint.
    Unchanged,
}

/// How `file` stands to the snapshot `prior`.
pub open spec fn change_of(prior: Seq<FileFingerprintView>, file: FileFingerprintView) -> Change {
    match fingerprint_of(prior, file.path) {
        None => Change::Untracked,
        Some(recorded) => if recorded == file.fingerprint {
            Change::Unchanged
        } else {
            Change::Modified
        },
    }
}

/// The paths of those of `current` that stand to `prior` as `change` says,
/// in the order of `current`.
pub open spec fn paths_with(
    prior: Seq<FileFingerprintView>,
    current: Seq<FileFingerprintView>,
    change: Change,
) -> Seq<Seq<char>>
    decreases current.len(),
{
    if current.len() == 0 {
        seq![]
    } else {
        let before = paths_with(prior, current.drop_last(), change);
        if change_of(prior, current.last()) == change {
            before.push(current.last().path)
        } else {
            before
        }
    }
}

/// What a comparison found: the paths of the untracked, the modified and
/// the unchanged files, each list in the order of paths.
#[derive(Debug, PartialEq, Eq)]
pub struct StatusReport {
    /// Files that the latest snapshot does not know.
    pub untracked: Vec<String>,
    /// Files whose fingerprint differs from the recorded one.
    pub modified: Vec<String>,
    /// Files whose fingerprint is the recorded one.
    pub unchanged: Vec<String>,
}

impl StatusReport {
    /// Whether the report is the comparison of `current` against `prior`.
    pub open spec fn compares(
        &self,
        prior: Seq<FileFingerprintView>,
        current: Seq<FileFingerprintView>,
    ) -> bool {
        &&& views(self.untracked@) == paths_with(prior, current, Change::Untracked)
        &&& views(self.modified@) == paths_with(prior, current, Change::Modified)
        &&& views(self.unchanged@) == paths_with(prior, current, Change::Unchanged)
    }

    /// Tests whether nothing has changed: no file is untracked and none is
    /// modified, however many are unchanged.
    pub fn is_clean(&self) -> (r: bool)
        ensures
            r == (self.untracked@.len() == 0 && self.modified@.len() == 0),
    {
        self.untracked.len() == 0 && self.modified.len() == 0
    }
}

/// Classifies one file against the snapshot `prior`.
pub fn classify(prior: &Snapshot, file: &FileFingerprint) -> (change: Change)
    requires
        prior.wf(),
    ensures
        change == change_of(prior@, file@),
{
    match prior.get(file.path.as_str()) {
        None => Change::Untracked,
        Some(recorded) => if recorded.same_as(&file.fingerprint) {
            Change::Unchanged
        } else {
            Change::Modified
        },
    }
}

/// Compares the files of `current` against the snapshot `prior`.
pub fn diff(prior: &Snapshot, current: &Snapshot) -> (report: StatusReport)
    requires
        prior.wf(),
        current.wf(),
    ensures
        report.compares(prior@, current@),
{
    let mut untracked: Vec<String> = Vec::new();
    let mut modified: Vec<String> = Vec::new();
    let mut unchanged: Vec<String> = Vec::new();
    let n = current.len();
    let mut i: usize = 0;
    proof {
        assert(current@.take(0) == Seq::<FileFingerprintView>::empty());
        assert(views(untracked@) == Seq::<Seq<char>>::empty());
        assert(views(modified@) == Seq::<Seq<char>>::empty());
        assert(views(unchanged@) == Seq::<Seq<char>>::empty());
    }
    while i < n
        invariant
            0 <= i <= n,
            n == current@.len(),
            prior.wf(),
            views(untracked@) == paths_with(prior@, current@.take(i as int), Change::Untracked),
            views(modified@) == paths_with(prior@, current@.take(i as int), Change::Modified),
            views(unchanged@) == paths_with(prior@, current@.take(i as int), Change::Unchanged),
        decreases n - i,
    {
        let file = current.entry(i);
        let path = file.path.clone();
        proof {
            let done = current@.take(i + 1);
            assert(done.drop_last() == current@.take(i as int));
            assert(done.last() == file@);
            assert(views(untracked@.push(path)) == views(untracked@).push(path@));
            assert(views(modified@.push(path)) == views(modified@).push(path@));
            assert(views(unchanged@.push(path)) == views(unchanged@).push(path@));
        }
        match classify(prior, file) {
            Change::Untracked => {
                untracked.push(path);
            },
            Change::Modified => {
                modified.push(path);
            },
            Change::Unchanged => {
                unchanged.push(path);
            },
        }
        i += 1;
    }
    assert(current@.take(n as int) == current@);
    StatusReport { untracked, modified, unchanged }
}

/// Every file of the project is in exactly one of the three lists of a
/// comparison, and nothing else is in any of them: the lists have as many
/// paths together as there are files.
pub proof fn lemma_comparison_is_complete(
    prior: Seq<FileFingerprintView>,
    current: Seq<FileFingerprintView>,
)
    ensures
        paths_with(prior, current, Change::Untracked).len() + paths_with(
            prior,
            current,
            Change::Modified,
        ).len() + paths_with(prior, current, Change::Unchanged).len() == current.len(),
    decreases current.len(),
{
    if current.len() > 0 {
        lemma_comparison_is_complete(prior, current.drop_last());
    }
}

/// A path is in the list of a comparison exactly when a file of the project
/// has that path and stands to the snapshot as the list says. So a path of
/// the snapshot that no file of the project has is in no list.
pub proof fn lemma_paths_with(
    prior: Seq<FileFingerprintView>,
    current: Seq<FileFingerprintView>,
    change: Change,
    path: Seq<char>,
)
    ensures
        paths_with(prior, current, change).contains(path) <==> exists|i: int|
            0 <= i < current.len() && (#[trigger] current[i]).path == path && change_of(
                prior,
                current[i],
            ) == change,
    decreases current.len(),
{
    if current.len() > 0 {
        let rest = current.drop_last();
        let last = current.last();
        let before = paths_with(prior, rest, change);
        let all = paths_with(prior, current, change);
        lemma_paths_with(prior, rest, change, path);
        let here = |i: int|
            0 <= i < current.len() && current[i].path == path && change_of(prior, current[i])
                == change;
        if all.contains(path) {
            let k = choose|k: int| 0 <= k < all.len() && all[k] == path;
            if k < before.len() {
                assert(before[k] == path);
                let i = choose|i: int|
                    0 <= i < rest.len() && (#[trigger] rest[i]).path == path && change_of(
                        prior,
                        rest[i],
                    ) == change;
                assert(current[i].path == path && change_of(prior, current[i]) == change);
            } else {
                assert(current[current.len() - 1].path == path);
            }
        }
        if exists|i: int|
            0 <= i < current.len() && (#[trigger] current[i]).path == path && change_of(
                prior,
                current[i],
            ) == change {
            let i = choose|i: int|
                0 <= i < current.len() && (#[trigger] current[i]).path == path && change_of(
                    prior,
                    current[i],
                ) == change;
            if i < rest.len() {
                assert(rest[i].path == path && change_of(prior, rest[i]) == change);
                let k = choose|k: int| 0 <= k < before.len() && before[k] == path;
                assert(all[k] == path);
            } else {
                assert(all[all.len() - 1] == path);
            }
        }
    }
}

/// Compared against itself a snapshot shows no change: no file is
/// untracked and none is modified.
pub proof fn lemma_no_change_against_itself(files: Seq<FileFingerprintView>)
    requires
        sorted(files),
    ensures
        paths_with(files, files, Change::Untracked).len() == 0,
        paths_with(files, files, Change::Modified).len() == 0,
{
    lemma_all_unchanged(files, files);
}

/// Where every file of `current` is recorded in `prior` as it is, the
/// comparison finds no file untracked and none modified.
pub proof fn lemma_all_unchanged(prior: Seq<FileFingerprintView>, current: Seq<FileFingerprintView>)
    requires
        sorted(prior),
        forall|i: int| 0 <= i < current.len() ==> prior.contains(#[trigger] current[i]),
    ensures
        paths_with(prior, current, Change::Untracked).len() == 0,
        paths_with(prior, current, Change::Modified).len() == 0,
    decreases current.len(),
{
    if current.len() > 0 {
        let rest = current.drop_last();
        let last = current.last();
        assert forall|i: int| 0 <= i < rest.len() implies prior.contains(#[trigger] rest[i]) by {
            assert(rest[i] == current[i]);
        }
        lemma_all_unchanged(prior, rest);
        assert(prior.contains(current[current.len() - 1]));
        let k = choose|k: int| 0 <= k < prior.len() && prior[k] == last;
        lemma_sorted_lookup(prior, k);
    }
}

} // verus!
