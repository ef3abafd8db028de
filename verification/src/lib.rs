//! Genie: a personal version-control engine. It records snapshots of a
//! directory tree and reports what has changed since the latest one.

use crate::engine::{commit, committed, every_file_has_a_row, rows_are_proper, status, Status};
use crate::fingerprint::{recorded_all, Observed};
use crate::snapshot::{distinct_paths, overlaid};
use crate::store::{ascending, commit_views, Commit, SnapshotStore, StoreError};
use globset::GlobSet;
use vstd::prelude::*;

pub use crate::cli::{Cli, Commands};
pub use crate::ignore::build_ignore_set;
pub use crate::init::{init_project, Config};
pub use crate::registry::{add_to_registry, RegistryEntry};
pub use crate::scan::list_files_recursive;

pub mod cli;
pub mod detect;
pub mod engine;
pub mod fingerprint;
pub mod ignore;
pub mod init;
pub mod paths;
pub mod registry;
pub mod scan;
pub mod snapshot;
pub mod store;
pub mod text;

verus! {

/// What stands where a project's repository is looked for.
#[derive(Debug, PartialEq, Eq)]
pub enum Repository {
    /// No control directory: the project has not been initialized.
    NotInitialized,
    /// A control directory whose store cannot be read.
    Unavailable,
    /// A repository, with what its store holds.
    Open(SnapshotStore),
}

impl Repository {
    /// Whether the repository's store, if it has one, is well formed.
    pub open spec fn wf(&self) -> bool {
        match self {
            Repository::Open(store) => store.wf(),
            _ => true,
        }
    }

    /// The error that an operation meets where there is no store to work
    /// on.
    pub open spec fn failure(&self) -> Option<StoreError> {
        match self {
            Repository::NotInitialized => Some(StoreError::NotInitialized),
            Repository::Unavailable => Some(StoreError::StoreUnavailable),
            Repository::Open(_) => None,
        }
    }
}

/// Says what stands at a project root, from what was found there: no
/// repository where the control directory is missing, one that cannot be
/// read where the control directory is there and the store could not be
/// loaded, and otherwise the repository with its store.
pub fn open_repository(control_dir_exists: bool, store: Option<SnapshotStore>) -> (repo: Repository)
    requires
        store matches Some(s) ==> s.wf(),
    ensures
        repo.wf(),
        repo == match (control_dir_exists, store) {
            (false, _) => Repository::NotInitialized,
            (true, None) => Repository::Unavailable,
            (true, Some(s)) => Repository::Open(s),
        },
{
    if !control_dir_exists {
        Repository::NotInitialized
    } else {
        match store {
            Some(s) => Repository::Open(s),
            None => Repository::Unavailable,
        }
    }
}

/// The status of the project at `root`: the number of commits, and the
/// files that are untracked or modified since the latest one. Of what the
/// scan `observed`, the files under the root count that could be read and
/// that the ignore set does not exclude.
///
/// Where there is no repository, or none that can be read, that is what
/// the caller is told; the repository is never changed.
pub fn show_status(
    repo: &Repository,
    root: &str,
    ignore_set: &GlobSet,
    observed: &Vec<Observed>,
) -> (r: Result<Status, StoreError>)
    requires
        repo.wf(),
    ensures
        match *repo {
            Repository::Open(store) => r matches Ok(s) && s.commits == store@.commits.len()
                && s.report.compares(store@.latest_snapshot(), overlaid(recorded_all(root@, *ignore_set, observed@))),
            _ => r.is_err() && r.err() == repo.failure(),
        },
{
    match repo {
        Repository::NotInitialized => Err(StoreError::NotInitialized),
        Repository::Unavailable => Err(StoreError::StoreUnavailable),
        Repository::Open(store) => Ok(status(store, root, ignore_set, observed)),
    }
}

/// Makes a commit of the project at `root` as the scan `observed` it, and
/// returns the new commit's identifier. The commit holds the files under
/// the root that could be read and that the ignore set does not exclude,
/// each under its path relative to the root.
///
/// Where there is no repository, or none that can be read, that is what
/// the caller is told. Where the commit cannot be written in full nothing
/// of it is kept.
pub fn make_commit(
    repo: &mut Repository,
    timestamp: u64,
    message: &str,
    root: &str,
    ignore_set: &GlobSet,
    observed: &Vec<Observed>,
) -> (r: Result<i64, StoreError>)
    requires
        old(repo).wf(),
    ensures
        final(repo).wf(),
        match *old(repo) {
            Repository::Open(before) => *final(repo) matches Repository::Open(after) && {
                &&& r.is_ok() <==> before@.next_id() <= i64::MAX && distinct_paths(
                    recorded_all(root@, *ignore_set, observed@),
                )
                &&& r matches Ok(id) ==> committed(
                    before@,
                    after@,
                    id,
                    timestamp,
                    message@,
                    root@,
                    *ignore_set,
                    observed@,
                )
                &&& r.is_ok() ==> every_file_has_a_row(
                    after@.latest_snapshot(),
                    root@,
                    *ignore_set,
                    observed@,
                )
                &&& r.is_ok() ==> rows_are_proper(
                    after@.latest_snapshot(),
                    root@,
                    *ignore_set,
                    observed@,
                )
                &&& r matches Err(e) ==> e == StoreError::WriteFailure && after@ == before@
            },
            _ => r.is_err() && r.err() == old(repo).failure() && *final(repo) == *old(repo),
        },
{
    match repo {
        Repository::NotInitialized => Err(StoreError::NotInitialized),
        Repository::Unavailable => Err(StoreError::StoreUnavailable),
        Repository::Open(store) => commit(store, timestamp, message, root, ignore_set, observed),
    }
}

/// The log of the project: all commits, in ascending order of their
/// identifiers.
pub fn show_log(repo: &Repository) -> (r: Result<&Vec<Commit>, StoreError>)
    requires
        repo.wf(),
    ensures
        match *repo {
            Repository::Open(store) => r matches Ok(commits) && commit_views(commits@)
                == store@.commits && ascending(commit_views(commits@)),
            _ => r.is_err() && r.err() == repo.failure(),
        },
{
    match repo {
        Repository::NotInitialized => Err(StoreError::NotInitialized),
        Repository::Unavailable => Err(StoreError::StoreUnavailable),
        Repository::Open(store) => Ok(store.all_commits()),
    }
}

} // verus!
