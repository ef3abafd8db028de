//! Fingerprints: the compact record of a file's state by which a change is
//! detected. A repository uses one of two strategies throughout: a file's
//! size and modification time, or a digest of its contents.

use crate::text::{
    every_segment_named, has_segment, lemma_relative_to, path_has_segment, path_prefix,
    relative_path, relative_to,
};
use crate::ignore::{is_ignored, set_matches};
use globset::GlobSet;
use vstd::prelude::*;
use vstd::string::StringExecFns;

verus! {

/// How a repository fingerprints its files.
#[derive(Clone, Copy, Debug, PartialEq, Eq)]
pub enum Strategy {
    /// By size and modification time: cheap, but blind to a rewrite that
    /// keeps both.
    Metadata,
    /// By a digest of the contents: exact, at the cost of reading each file.
    ContentHash,
}

/// The state of one file, under either strategy.
#[derive(Debug, PartialEq, Eq)]
pub enum Fingerprint {
    /// Size in bytes and time of last modification, in seconds since the
    /// epoch.
    Metadata { size: u64, modified: u64 },
    /// The hex-encoded digest of the file's contents.
    ContentHash { digest: String },
}

/// What a `Fingerprint` stands for.
pub enum FingerprintView {
    Metadata { size: u64, modified: u64 },
    ContentHash { digest: Seq<char> },
}

impl View for Fingerprint {
    type V = FingerprintView;

    open spec fn view(&self) -> FingerprintView {
        match *self {
            Fingerprint::Metadata { size, modified } => FingerprintView::Metadata { size, modified },
            Fingerprint::ContentHash { digest } => FingerprintView::ContentHash { digest: digest@ },
        }
    }
}

/// A file of the project with its fingerprint.
#[derive(Debug, PartialEq, Eq)]
pub struct FileFingerprint {
    /// The file's path, relative to the project root.
    pub path: String,
    /// The file's state.
    pub fingerprint: Fingerprint,
}

/// What a `FileFingerprint` stands for.
pub struct FileFingerprintView {
    pub path: Seq<char>,
    pub fingerprint: FingerprintView,
}

impl View for FileFingerprint {
    type V = FileFingerprintView;

    open spec fn view(&self) -> FileFingerprintView {
        FileFingerprintView { path: self.path@, fingerprint: self.fingerprint@ }
    }
}

/// The views of a sequence of files, element by element.
pub open spec fn file_views(files: Seq<FileFingerprint>) -> Seq<FileFingerprintView> {
    Seq::new(files.len(), |i: int| files[i]@)
}

/// The name of the control directory, `.genie`.
pub open spec fn control_dir() -> Seq<char> {
    seq!['.', 'g', 'e', 'n', 'i', 'e']
}

/// What a scan saw of one file: where it is, and the file's state if it
/// could be read.
#[derive(Debug, PartialEq, Eq)]
pub struct Observed {
    /// The file's path as the scan found it, with `/` between its segments.
    pub path: String,
    /// The file's fingerprint; `None` where the file could not be read.
    pub state: Option<Fingerprint>,
}

/// Whether `path` can stand in a snapshot: every segment of it has a name,
/// and none is the control directory.
pub open spec fn proper_path(path: Seq<char>) -> bool {
    every_segment_named(path) && !has_segment(path, control_dir())
}

/// The fingerprint that an observation yields for the project at `root`
/// under the ignore set `set`, if any: the file's state under its path
/// relative to the root. A file that does not lie under the root, one whose
/// path relative to the root leads through a control directory, one that
/// the ignore set excludes and one that could not be read yield none. What
/// the root's own path is made of plays no part.
pub open spec fn recorded(root: Seq<char>, set: GlobSet, observed: Observed) -> Option<
    FileFingerprintView,
> {
    match (relative_to(root, observed.path@), observed.state) {
        (Some(rel), Some(state)) => if has_segment(rel, control_dir()) || set_matches(set, rel) {
            None
        } else {
            Some(FileFingerprintView { path: rel, fingerprint: state@ })
        },
        _ => None,
    }
}

/// The fingerprints that a scan's observations yield, in the scan's order.
pub open spec fn recorded_all(root: Seq<char>, set: GlobSet, observed: Seq<Observed>) -> Seq<
    FileFingerprintView,
>
    decreases observed.len(),
{
    if observed.len() == 0 {
        seq![]
    } else {
        let before = recorded_all(root, set, observed.drop_last());
        match recorded(root, set, observed.last()) {
            Some(file) => before.push(file),
            None => before,
        }
    }
}

impl Fingerprint {
    /// The fingerprint of a file under the metadata strategy. A modification
    /// time that the file system does not tell counts as the epoch.
    pub fn from_metadata(size: u64, modified: Option<u64>) -> (r: Fingerprint)
        ensures
            r@ == (FingerprintView::Metadata {
                size,
                modified: match modified {
                    Some(t) => t,
                    None => 0,
                },
            }),
    {
        match modified {
            Some(t) => Fingerprint::Metadata { size, modified: t },
            None => Fingerprint::Metadata { size, modified: 0 },
        }
    }

    /// The fingerprint of a file under the content strategy.
    pub fn from_digest(digest: &str) -> (r: Fingerprint)
        ensures
            r@ == (FingerprintView::ContentHash { digest: digest@ }),
    {
        Fingerprint::ContentHash { digest: String::from_str(digest) }
    }

    /// The strategy that made this fingerprint.
    pub fn strategy(&self) -> (r: Strategy)
        ensures
            r == Strategy::Metadata <==> self@ is Metadata,
            r == Strategy::ContentHash <==> self@ is ContentHash,
    {
        match self {
            Fingerprint::Metadata { .. } => Strategy::Metadata,
            Fingerprint::ContentHash { .. } => Strategy::ContentHash,
        }
    }

    /// Tests whether two fingerprints tell the same state: under the
    /// metadata strategy the same size and the same time, under the content
    /// strategy the same digest. Fingerprints of different strategies never
    /// tell the same state.
    pub fn same_as(&self, other: &Fingerprint) -> (r: bool)
        ensures
            r == (self@ == other@),
    {
        match self {
            Fingerprint::Metadata { size, modified } => match other {
                Fingerprint::Metadata { size: other_size, modified: other_modified } => {
                    *size == *other_size && *modified == *other_modified
                },
                Fingerprint::ContentHash { .. } => false,
            },
            Fingerprint::ContentHash { digest } => match other {
                Fingerprint::Metadata { .. } => false,
                Fingerprint::ContentHash { digest: other_digest } => *digest == *other_digest,
            },
        }
    }

    /// A copy of this fingerprint.
    pub fn duplicate(&self) -> (r: Fingerprint)
        ensures
            r@ == self@,
    {
        match self {
            Fingerprint::Metadata { size, modified } => Fingerprint::Metadata {
                size: *size,
                modified: *modified,
            },
            Fingerprint::ContentHash { digest } => Fingerprint::ContentHash {
                digest: digest.clone(),
            },
        }
    }
}

impl FileFingerprint {
    /// A copy of this file's record.
    pub fn duplicate(&self) -> (r: FileFingerprint)
        ensures
            r@ == self@,
    {
        FileFingerprint { path: self.path.clone(), fingerprint: self.fingerprint.duplicate() }
    }
}

/// Fingerprints one observed file of the project at `root`, or skips it: a
/// file outside the project root, inside a control directory of the
/// project, excluded by the ignore set or unreadable is left out.
pub fn fingerprint(root: &str, ignore_set: &GlobSet, observed: &Observed) -> (r: Option<FileFingerprint>)
    ensures
        match r {
            Some(file) => recorded(root@, *ignore_set, *observed) == Some(file@),
            None => recorded(root@, *ignore_set, *observed).is_none(),
        },
{
    proof {
        reveal_strlit(".genie");
        assert(".genie"@ == control_dir());
    }
    match relative_path(root, observed.path.as_str()) {
        Some(rel) => {
            if path_has_segment(rel.as_str(), ".genie") || is_ignored(ignore_set, rel.as_str()) {
                return None;
            }
            match &observed.state {
                Some(state) => Some(FileFingerprint { path: rel, fingerprint: state.duplicate() }),
                None => None,
            }
        },
        None => None,
    }
}

/// Fingerprints every observed file that can be, in the order of the scan.
pub fn fingerprint_all(root: &str, ignore_set: &GlobSet, observed: &Vec<Observed>) -> (files: Vec<FileFingerprint>)
    ensures
        file_views(files@) == recorded_all(root@, *ignore_set, observed@),
{
    let mut files: Vec<FileFingerprint> = Vec::new();
    let mut i: usize = 0;
    assert(observed@.take(0) == Seq::<Observed>::empty());
    assert(file_views(files@) == Seq::<FileFingerprintView>::empty());
    while i < observed.len()
        invariant
            0 <= i <= observed.len(),
            file_views(files@) == recorded_all(root@, *ignore_set, observed@.take(i as int)),
        decreases observed.len() - i,
    {
        proof {
            let done = observed@.take(i + 1);
            assert(done.drop_last() == observed@.take(i as int));
            assert(done.last() == observed@[i as int]);
        }
        match fingerprint(root, ignore_set, &observed[i]) {
            Some(file) => {
                assert(file_views(files@.push(file)) == file_views(files@).push(file@));
                files.push(file);
            },
            None => {},
        }
        i += 1;
    }
    assert(observed@.take(observed.len() as int) == observed@);
    files
}

/// What an observation yields is the observed file under its path relative
/// to the root: the root's prefix and that path make up the file's path,
/// every segment of the path has a name, and none is the control directory.
pub proof fn lemma_recorded(root: Seq<char>, set: GlobSet, observed: Observed)
    requires
        recorded(root, set, observed).is_some(),
    ensures
        observed.path@ == path_prefix(root) + recorded(root, set, observed).unwrap().path,
        proper_path(recorded(root, set, observed).unwrap().path),
        !set_matches(set, recorded(root, set, observed).unwrap().path),
        recorded(root, set, observed).unwrap().path.len() > 0,
        recorded(root, set, observed).unwrap().path[0] != '/',
        observed.state.is_some(),
        recorded(root, set, observed).unwrap().fingerprint == observed.state.unwrap()@,
{
    lemma_relative_to(root, observed.path@);
}

/// Every fingerprint that a scan's observations yield is the one that one
/// of the observations yields.
pub proof fn lemma_recorded_all(
    root: Seq<char>,
    set: GlobSet,
    observed: Seq<Observed>,
    file: FileFingerprintView,
)
    requires
        recorded_all(root, set, observed).contains(file),
    ensures
        exists|k: int| 0 <= k < observed.len() && recorded(root, set, #[trigger] observed[k]) == Some(file),
    decreases observed.len(),
{
    if observed.len() > 0 {
        let rest = observed.drop_last();
        let before = recorded_all(root, set, rest);
        let all = recorded_all(root, set, observed);
        let i = choose|i: int| 0 <= i < all.len() && all[i] == file;
        if i < before.len() {
            assert(before[i] == file);
            lemma_recorded_all(root, set, rest, file);
            let k = choose|k: int| 0 <= k < rest.len() && recorded(root, set, #[trigger] rest[k]) == Some(file);
            assert(observed[k] == rest[k]);
        } else {
            assert(recorded(root, set, observed[observed.len() - 1]) == Some(file));
        }
    }
}

/// Every fingerprint that one of a scan's observations yields is among
/// those that the scan's observations yield.
pub proof fn lemma_recorded_all_holds(
    root: Seq<char>,
    set: GlobSet,
    observed: Seq<Observed>,
    k: int,
)
    requires
        0 <= k < observed.len(),
        recorded(root, set, observed[k]).is_some(),
    ensures
        recorded_all(root, set, observed).contains(recorded(root, set, observed[k]).unwrap()),
    decreases observed.len(),
{
    let rest = observed.drop_last();
    let before = recorded_all(root, set, rest);
    let all = recorded_all(root, set, observed);
    let file = recorded(root, set, observed[k]).unwrap();
    if k < observed.len() - 1 {
        assert(rest[k] == observed[k]);
        lemma_recorded_all_holds(root, set, rest, k);
        let i = choose|i: int| 0 <= i < before.len() && before[i] == file;
        assert(all[i] == file);
    } else {
        assert(observed.last() == observed[k]);
        assert(all[all.len() - 1] == file);
    }
}

} // verus!
