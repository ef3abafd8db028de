//! The commit engine: the two operations on a repository, `status` and
//! `commit`, and the log of its commits.

use crate::detect::{diff, lemma_no_change_against_itself, paths_with, Change, StatusReport};
use crate::fingerprint::{
    fingerprint_all, lemma_recorded, lemma_recorded_all, lemma_recorded_all_holds, proper_path,
    recorded, recorded_all,
    FileFingerprintView, Observed,
};
use crate::snapshot::{
    distinct_paths, gathered, lemma_gathered, lemma_gathered_distinct,
    lemma_gathered_holds_only_files, lemma_sorted_occurs_once,
    occurrences, overlaid, sorted, Snapshot,
};
use crate::store::{
    all_new, lemma_extended, lemma_extended_from_nothing, lemma_place_of_latest, CommitView,
    SnapshotStore, StoreError, StoreView,
};
use crate::ignore::set_matches;
use crate::text::{path_prefix, views};
use globset::GlobSet;
use vstd::prelude::*;

verus! {

/// The author that every commit is recorded under: `local-user`.
pub open spec fn author() -> Seq<char> {
    seq!['l', 'o', 'c', 'a', 'l', '-', 'u', 's', 'e', 'r']
}

/// What `status` tells: how many commits there are, and how the files of
/// the project stand to the latest of them.
#[derive(Debug, PartialEq, Eq)]
pub struct Status {
    /// The number of commits recorded so far.
    pub commits: usize,
    /// The comparison of the project's files against the latest snapshot.
    pub report: StatusReport,
}

/// Whether the store `after` is the store `before` with one more commit,
/// made at `timestamp` with `message` from what the scan `observed`. A
/// commit is only made of files with distinct paths.
pub open spec fn committed(
    before: StoreView,
    after: StoreView,
    id: i64,
    timestamp: u64,
    message: Seq<char>,
    root: Seq<char>,
    set: GlobSet,
    observed: Seq<Observed>,
) -> bool {
    &&& id == before.next_id()
    &&& distinct_paths(recorded_all(root, set, observed))
    &&& after.commits == before.commits.push(
        CommitView { id, timestamp, message, author: author() },
    )
    &&& after.snapshots == before.snapshots.push(gathered(recorded_all(root, set, observed)))
}

/// Whether the scan saw a file of the project at `root` whose path relative
/// to the root is `path`.
pub open spec fn seen_at(root: Seq<char>, observed: Seq<Observed>, path: Seq<char>) -> bool {
    exists|k: int|
        0 <= k < observed.len() && (#[trigger] observed[k]).path@ == path_prefix(root) + path
}

/// Whether every row of `snapshot` is a file that the scan saw under the
/// project at `root`, under a path that can stand in a snapshot: relative
/// to the root, every segment with a name, none of them the control
/// directory, and not excluded by the ignore set `set`.
pub open spec fn rows_are_proper(
    snapshot: Seq<FileFingerprintView>,
    root: Seq<char>,
    set: GlobSet,
    observed: Seq<Observed>,
) -> bool {
    forall|j: int|
        0 <= j < snapshot.len() ==> proper_path((#[trigger] snapshot[j]).path) && snapshot[j].path.len()
            > 0 && snapshot[j].path[0] != '/' && !set_matches(set, snapshot[j].path) && seen_at(
            root,
            observed,
            snapshot[j].path,
        )
}

/// Whether `snapshot` has a row for every file that the scan saw under the
/// project at `root`, could read and did not find excluded: the file's
/// state under its path relative to the root.
pub open spec fn every_file_has_a_row(
    snapshot: Seq<FileFingerprintView>,
    root: Seq<char>,
    set: GlobSet,
    observed: Seq<Observed>,
) -> bool {
    forall|k: int|
        0 <= k < observed.len() && recorded(root, set, #[trigger] observed[k]).is_some()
            ==> snapshot.contains(recorded(root, set, observed[k]).unwrap())
}

/// Whether the timestamps of `commits` never go back.
pub open spec fn timestamps_in_order(commits: Seq<CommitView>) -> bool {
    forall|i: int, j: int|
        0 <= i < j < commits.len() ==> (#[trigger] commits[i]).timestamp <= (
        #[trigger] commits[j]).timestamp
}

/// Compares the project as the scan `observed` it against the latest
/// snapshot of `store`, or against the empty snapshot where there is no
/// commit yet. The store is only read.
pub fn status(
    store: &SnapshotStore,
    root: &str,
    ignore_set: &GlobSet,
    observed: &Vec<Observed>,
) -> (r: Status)
    requires
        store.wf(),
    ensures
        r.commits == store@.commits.len(),
        r.report.compares(store@.latest_snapshot(), overlaid(recorded_all(root@, *ignore_set, observed@))),
{
    let files = fingerprint_all(root, ignore_set, observed);
    let current = Snapshot::overlay(&files);
    let report = match store.latest_snapshot() {
        Some(prior) => diff(prior, &current),
        None => {
            let prior = Snapshot::new();
            assert(prior@ =~= store@.latest_snapshot());
            diff(&prior, &current)
        },
    };
    Status { commits: store.len(), report }
}

/// Records the project as the scan `observed` it: creates a commit and
/// writes the fingerprint of every file for it.
///
/// The commit is made as a whole or not at all. It is not made where two
/// files of the scan have one path, or where the identifiers are used up;
/// the store is then as it was. Where it is made, every file of the scan
/// is in its snapshot, and every path there exactly once.
pub fn commit(
    store: &mut SnapshotStore,
    timestamp: u64,
    message: &str,
    root: &str,
    ignore_set: &GlobSet,
    observed: &Vec<Observed>,
) -> (r: Result<i64, StoreError>)
    requires
        old(store).wf(),
    ensures
        final(store).wf(),
        r.is_ok() <==> old(store)@.next_id() <= i64::MAX && distinct_paths(recorded_all(root@, *ignore_set, observed@)),
        r matches Ok(id) ==> committed(
            old(store)@,
            final(store)@,
            id,
            timestamp,
            message@,
            root@,
            *ignore_set,
            observed@,
        ),
        r matches Ok(id) ==> final(store)@.latest_snapshot().len() == recorded_all(root@, *ignore_set, observed@).len(),
        r matches Ok(id) ==> every_file_has_a_row(
            final(store)@.latest_snapshot(),
            root@,
            *ignore_set,
            observed@,
        ),
        r matches Ok(id) ==> rows_are_proper(
            final(store)@.latest_snapshot(),
            root@,
            *ignore_set,
            observed@,
        ),
        r matches Ok(id) ==> forall|i: int|
            0 <= i < recorded_all(root@, *ignore_set, observed@).len() ==> final(store)@.latest_snapshot().contains(
                #[trigger] recorded_all(root@, *ignore_set, observed@)[i],
            ) && occurrences(final(store)@.latest_snapshot(), recorded_all(root@, *ignore_set, observed@)[i].path) == 1,
        r matches Err(e) ==> e == StoreError::WriteFailure && final(store)@ == old(store)@,
{
    let files = fingerprint_all(root, ignore_set, observed);
    let ghost recorded = recorded_all(root@, *ignore_set, observed@);
    let ghost before = store@;
    proof {
        reveal_strlit("local-user");
        assert("local-user"@ == author());
    }
    let id = match store.create_commit(timestamp, message, "local-user") {
        Ok(id) => id,
        Err(e) => {
            return Err(e);
        },
    };
    proof {
        lemma_place_of_latest(store@.commits);
        lemma_extended_from_nothing(recorded);
        lemma_extended(seq![], recorded);
        assert(all_new(seq![], recorded) <==> distinct_paths(recorded));
    }
    match store.write_fingerprints(id, &files) {
        Ok(()) => {
            proof {
                assert(store@.snapshots =~= before.snapshots.push(gathered(recorded)));
                lemma_commit_records_each_file_once(recorded);
                lemma_rows_are_proper(root@, *ignore_set, observed@);
                lemma_every_file_has_a_row(root@, *ignore_set, observed@);
            }
            Ok(id)
        },
        Err(e) => {
            store.discard_latest();
            proof {
                assert(store@.commits =~= before.commits);
                assert(store@.snapshots =~= before.snapshots);
            }
            Err(e)
        },
    }
}

/// Every file of a commit is in the commit's snapshot, and its path is
/// there exactly once; and the snapshot holds nothing else.
pub proof fn lemma_commit_records_each_file_once(files: Seq<FileFingerprintView>)
    requires
        distinct_paths(files),
    ensures
        gathered(files).len() == files.len(),
        forall|i: int|
            0 <= i < files.len() ==> gathered(files).contains(#[trigger] files[i]) && occurrences(
                gathered(files),
                files[i].path,
            ) == 1,
{
    lemma_gathered_distinct(files);
    assert forall|i: int| 0 <= i < files.len() implies gathered(files).contains(
        #[trigger] files[i],
    ) && occurrences(gathered(files), files[i].path) == 1 by {
        lemma_gathered(files, files[i].path);
        lemma_sorted_occurs_once(gathered(files), files[i].path);
    }
}

/// A commit's snapshot has a row for every file that the scan saw under
/// the project root, could read and did not find excluded.
pub proof fn lemma_every_file_has_a_row(root: Seq<char>, set: GlobSet, observed: Seq<Observed>)
    requires
        distinct_paths(recorded_all(root, set, observed)),
    ensures
        every_file_has_a_row(gathered(recorded_all(root, set, observed)), root, set, observed),
{
    let files = recorded_all(root, set, observed);
    lemma_gathered_distinct(files);
    assert forall|k: int|
        0 <= k < observed.len() && recorded(root, set, #[trigger] observed[k]).is_some() implies gathered(
        files,
    ).contains(recorded(root, set, observed[k]).unwrap()) by {
        lemma_recorded_all_holds(root, set, observed, k);
        let file = recorded(root, set, observed[k]).unwrap();
        let i = choose|i: int| 0 <= i < files.len() && files[i] == file;
        assert(gathered(files).contains(files[i]));
    }
}

/// Every row of a commit's snapshot is a file that the scan saw under the
/// project root, under a path that can stand in a snapshot.
pub proof fn lemma_rows_are_proper(root: Seq<char>, set: GlobSet, observed: Seq<Observed>)
    ensures
        rows_are_proper(gathered(recorded_all(root, set, observed)), root, set, observed),
{
    let snapshot = gathered(recorded_all(root, set, observed));
    assert forall|j: int| 0 <= j < snapshot.len() implies proper_path((#[trigger] snapshot[j]).path)
        && snapshot[j].path.len() > 0 && snapshot[j].path[0] != '/' && !set_matches(
        set,
        snapshot[j].path,
    ) && seen_at(root, observed, snapshot[j].path) by {
        let row = snapshot[j];
        assert(snapshot.contains(row));
        lemma_gathered_holds_only_files(recorded_all(root, set, observed), row);
        lemma_recorded_all(root, set, observed, row);
        let k = choose|k: int|
            0 <= k < observed.len() && recorded(root, set, #[trigger] observed[k]) == Some(row);
        lemma_recorded(root, set, observed[k]);
    }
}

/// A commit followed at once by `status` shows no change: with the project
/// as it was when the commit was made, no file is untracked and none is
/// modified.
pub proof fn lemma_status_after_commit_is_clean(
    before: StoreView,
    after: StoreView,
    id: i64,
    timestamp: u64,
    message: Seq<char>,
    root: Seq<char>,
    set: GlobSet,
    observed: Seq<Observed>,
)
    requires
        before.wf(),
        committed(before, after, id, timestamp, message, root, set, observed),
    ensures
        paths_with(
            after.latest_snapshot(),
            overlaid(recorded_all(root, set, observed)),
            Change::Untracked,
        ).len() == 0,
        paths_with(
            after.latest_snapshot(),
            overlaid(recorded_all(root, set, observed)),
            Change::Modified,
        ).len() == 0,
{
    let files = recorded_all(root, set, observed);
    lemma_gathered_distinct(files);
    lemma_gathered(files, seq![]);
    assert(after.latest_snapshot() == gathered(files));
    lemma_no_change_against_itself(gathered(files));
}

/// `status` is repeatable: two comparisons of the same project against the
/// same snapshot list the same paths.
pub proof fn lemma_status_is_repeatable(
    prior: Seq<FileFingerprintView>,
    current: Seq<FileFingerprintView>,
    first: StatusReport,
    second: StatusReport,
)
    requires
        first.compares(prior, current),
        second.compares(prior, current),
    ensures
        views(first.untracked@) == views(second.untracked@),
        views(first.modified@) == views(second.modified@),
        views(first.unchanged@) == views(second.unchanged@),
{
}

/// A new commit keeps the log in order: identifiers still ascend, and the
/// timestamps still never go back, provided that the clock did not.
pub proof fn lemma_commit_keeps_log_in_order(before: StoreView, commit: CommitView)
    requires
        before.wf(),
        commit.id == before.next_id(),
        timestamps_in_order(before.commits),
        before.commits.len() > 0 ==> before.commits.last().timestamp <= commit.timestamp,
    ensures
        before.with_commit(commit).wf(),
        timestamps_in_order(before.with_commit(commit).commits),
{
    let after = before.with_commit(commit);
    assert forall|i: int, j: int| 0 <= i < j < after.commits.len() implies (
    #[trigger] after.commits[i]).id < (#[trigger] after.commits[j]).id by {
        if j < before.commits.len() {
            assert(before.commits[i].id < before.commits[j].id);
        } else if i < before.commits.len() - 1 {
            assert(before.commits[i].id < before.commits[before.commits.len() - 1].id);
        }
    }
    assert forall|i: int, j: int| 0 <= i < j < after.commits.len() implies (
    #[trigger] after.commits[i]).timestamp <= (#[trigger] after.commits[j]).timestamp by {
        if j < before.commits.len() {
            assert(before.commits[i].timestamp <= before.commits[j].timestamp);
        } else if i < before.commits.len() - 1 {
            assert(before.commits[i].timestamp <= before.commits[before.commits.len()
                - 1].timestamp);
        }
    }
    assert forall|i: int| 0 <= i < after.snapshots.len() implies sorted(
        #[trigger] after.snapshots[i],
    ) by {
        if i < before.snapshots.len() {
            assert(sorted(before.snapshots[i]));
        }
    }
}

} // verus!
