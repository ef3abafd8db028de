//! The tree scanner: lists the files under the project root, leaving out
//! what the ignore set excludes and every control directory.
//!
//! Reading a directory is the caller's part. The scanner is the other
//! half: when a directory is entered it decides for each entry whether to
//! skip it, list it or go down into it; then it works through the open
//! directories, innermost first, and asks for the next directory to be
//! read.

use crate::fingerprint::control_dir;
use crate::ignore::{is_ignored, set_matches};
use crate::text::{file_name, last_segment, relative_path, relative_to, same_text, views};
use globset::GlobSet;
use vstd::prelude::*;

verus! {

/// One entry of a directory, as its listing gives it.
#[derive(Debug, PartialEq, Eq)]
pub struct DirEntry {
    /// The entry's path, with `/` between its segments.
    pub path: String,
    /// Whether the entry is a directory.
    pub is_dir: bool,
}

/// What a `DirEntry` stands for.
pub struct EntryView {
    pub path: Seq<char>,
    pub is_dir: bool,
}

impl View for DirEntry {
    type V = EntryView;

    open spec fn view(&self) -> EntryView {
        EntryView { path: self.path@, is_dir: self.is_dir }
    }
}

/// The views of a sequence of entries, element by element.
pub open spec fn entry_views(entries: Seq<DirEntry>) -> Seq<EntryView> {
    Seq::new(entries.len(), |i: int| entries[i]@)
}

/// What the scanner does with an entry.
#[derive(Clone, Copy, Debug, PartialEq, Eq)]
pub enum EntryAction {
    /// Leave it out, and with it all that lies beneath it.
    Skip,
    /// Go down into the directory.
    Descend,
    /// List the file.
    Collect,
}

/// Whether the ignore set `set` excludes `entry` of the project at `root`:
/// whether the entry lies under the root and the set matches its path
/// relative to the root.
pub open spec fn excluded_by(set: GlobSet, root: Seq<char>, entry: EntryView) -> bool {
    relative_to(root, entry.path).is_some() && set_matches(
        set,
        relative_to(root, entry.path).unwrap(),
    )
}

/// What the scanner does with `entry`, given whether the ignore set
/// excludes it.
///
/// An entry that is excluded is skipped. Of the others a directory is gone
/// down into, unless it is a control directory, and anything else is
/// listed.
pub open spec fn action_given(excluded: bool, entry: EntryView) -> EntryAction {
    if excluded {
        EntryAction::Skip
    } else if entry.is_dir {
        if last_segment(entry.path) == control_dir() {
            EntryAction::Skip
        } else {
            EntryAction::Descend
        }
    } else {
        EntryAction::Collect
    }
}

/// What the scanner does with `entry` of the project at `root` under the
/// ignore set `set`.
pub open spec fn action_for(set: GlobSet, root: Seq<char>, entry: EntryView) -> EntryAction {
    action_given(excluded_by(set, root, entry), entry)
}

/// An entry together with what the scanner is to do with it.
pub struct Planned {
    pub entry: EntryView,
    pub action: EntryAction,
}

/// `entries`, each with the action that stands at its place in `actions`.
pub open spec fn planned(entries: Seq<EntryView>, actions: Seq<EntryAction>) -> Seq<Planned> {
    Seq::new(entries.len(), |i: int| Planned { entry: entries[i], action: actions[i] })
}

/// `entries`, each with what the scanner does with it in the project at
/// `root` under the ignore set `set`.
pub open spec fn planned_by(set: GlobSet, root: Seq<char>, entries: Seq<EntryView>) -> Seq<
    Planned,
> {
    Seq::new(
        entries.len(),
        |i: int| Planned { entry: entries[i], action: action_for(set, root, entries[i]) },
    )
}

/// What a `Walk` stands for.
pub struct WalkView {
    /// The entries still to be looked at, one sequence for each directory
    /// that is open, the innermost directory last.
    pub pending: Seq<Seq<Planned>>,
    /// The files listed so far.
    pub files: Seq<Seq<char>>,
}

/// Where a run of the scanner stops: the state it has reached, and the
/// directory it asks for, or none when the scan is over.
pub struct Pause {
    pub walk: WalkView,
    pub wanted: Option<Seq<char>>,
}

/// Runs the scanner from `walk` until it needs a directory read or has
/// nothing left to look at.
///
/// The entries of the innermost open directory are taken in order. A
/// skipped entry is passed over, a file is listed, and at a directory to
/// go down into the run stops and asks for it. A directory with no entries
/// left is closed.
pub open spec fn advance(walk: WalkView) -> Pause
    decreases walk.pending.len(), (if walk.pending.len() > 0 {
            walk.pending.last().len()
        } else {
            0
        }),
{
    if walk.pending.len() == 0 {
        Pause { walk, wanted: None }
    } else {
        let top = walk.pending.last();
        if top.len() == 0 {
            advance(WalkView { pending: walk.pending.drop_last(), files: walk.files })
        } else {
            let rest = walk.pending.update(walk.pending.len() - 1, top.drop_first());
            match top[0].action {
                EntryAction::Skip => advance(WalkView { pending: rest, files: walk.files }),
                EntryAction::Collect => advance(
                    WalkView { pending: rest, files: walk.files.push(top[0].entry.path) },
                ),
                EntryAction::Descend => Pause {
                    walk: WalkView { pending: rest, files: walk.files },
                    wanted: Some(top[0].entry.path),
                },
            }
        }
    }
}

/// A directory tree as a scan meets it: an entry, what the scanner does
/// with it and, where the entry is a directory, the trees of the entries
/// that its listing gives.
pub struct Node {
    pub entry: EntryView,
    pub action: EntryAction,
    pub children: Seq<Node>,
}

/// The planned entries of a directory whose trees are `nodes`.
pub open spec fn plans_of(nodes: Seq<Node>) -> Seq<Planned> {
    Seq::new(nodes.len(), |i: int| Planned { entry: nodes[i].entry, action: nodes[i].action })
}

/// The planned entries of each of the open directories `open`.
pub open spec fn shapes(open: Seq<Seq<Node>>) -> Seq<Seq<Planned>> {
    Seq::new(open.len(), |i: int| plans_of(open[i]))
}

/// The files under one entry: none where the entry is skipped, the entry
/// itself where it is listed, and the files of its directory where the
/// scanner goes down into it.
pub open spec fn files_under(node: Node) -> Seq<Seq<char>>
    decreases node,
{
    match node.action {
        EntryAction::Skip => seq![],
        EntryAction::Collect => seq![node.entry.path],
        EntryAction::Descend => files_in(node.children),
    }
}

/// The files of a directory whose trees are `nodes`: the files under its
/// first entry, then those under the second, and so on.
pub open spec fn files_in(nodes: Seq<Node>) -> Seq<Seq<char>>
    decreases nodes,
{
    if nodes.len() == 0 {
        seq![]
    } else {
        files_under(nodes[0]) + files_in(nodes.subrange(1, nodes.len() as int))
    }
}

/// The files that a scan has still to list when the directories `open`
/// are open with these trees left: those of the innermost directory first.
pub open spec fn files_to_come(open: Seq<Seq<Node>>) -> Seq<Seq<char>>
    decreases open.len(),
{
    if open.len() == 0 {
        seq![]
    } else {
        files_in(open.last()) + files_to_come(open.drop_last())
    }
}

/// Whether a scan lists `path` under `node`: the entry is to be listed and
/// has that path, or the scanner goes down into it and lists the path among
/// its children. Under a skipped entry nothing is listed.
pub open spec fn lists_under(node: Node, path: Seq<char>) -> bool
    decreases node,
{
    match node.action {
        EntryAction::Skip => false,
        EntryAction::Collect => node.entry.path == path,
        EntryAction::Descend => lists(node.children, path),
    }
}

/// Whether a scan of a directory whose trees are `nodes` lists `path`:
/// whether it lists it under one of the entries.
pub open spec fn lists(nodes: Seq<Node>, path: Seq<char>) -> bool
    decreases nodes,
{
    exists|i: int| 0 <= i < nodes.len() && lists_under(#[trigger] nodes[i], path)
}

/// Decides what the scanner does with one entry, given whether the ignore
/// set excludes it.
pub fn entry_action(excluded: bool, entry: &DirEntry) -> (action: EntryAction)
    ensures
        action == action_given(excluded, entry@),
{
    if excluded {
        return EntryAction::Skip;
    }
    if entry.is_dir {
        proof {
            reveal_strlit(".genie");
            assert(".genie"@ == control_dir());
        }
        let name = file_name(entry.path.as_str());
        if same_text(name.as_str(), ".genie") {
            EntryAction::Skip
        } else {
            EntryAction::Descend
        }
    } else {
        EntryAction::Collect
    }
}

/// Decides what the scanner does with one entry of the project at `root`
/// under an ignore set.
pub fn classify_entry(root: &str, entry: &DirEntry, ignore_set: &GlobSet) -> (action: EntryAction)
    ensures
        action == action_for(*ignore_set, root@, entry@),
{
    let excluded = match relative_path(root, entry.path.as_str()) {
        Some(rel) => is_ignored(ignore_set, rel.as_str()),
        None => false,
    };
    entry_action(excluded, entry)
}

/// A directory that the scan has entered, with what is to be done with
/// each of its entries and the place that the scan has come to.
#[derive(Debug, PartialEq, Eq)]
struct Frame {
    entries: Vec<DirEntry>,
    actions: Vec<EntryAction>,
    next: usize,
}

impl View for Frame {
    type V = Seq<Planned>;

    closed spec fn view(&self) -> Seq<Planned> {
        planned(entry_views(self.entries@), self.actions@).skip(self.next as int)
    }
}

/// A scan in progress.
#[derive(Debug, PartialEq, Eq)]
pub struct Walk {
    frames: Vec<Frame>,
    files: Vec<String>,
}

impl View for Walk {
    type V = WalkView;

    closed spec fn view(&self) -> WalkView {
        WalkView {
            pending: Seq::new(self.frames@.len(), |i: int| self.frames@[i]@),
            files: views(self.files@),
        }
    }
}

impl Walk {
    /// Whether the scan is well formed: every open directory has an action
    /// for each of its entries, and none is past its end.
    pub closed spec fn wf(&self) -> bool {
        forall|i: int|
            0 <= i < self.frames@.len() ==> (#[trigger] self.frames@[i]).next
                <= self.frames@[i].entries@.len() && self.frames@[i].actions@.len()
                == self.frames@[i].entries@.len()
    }

    /// A scan that has not begun: no directory is open and no file listed.
    pub fn new() -> (walk: Walk)
        ensures
            walk.wf(),
            walk@.pending.len() == 0,
            walk@.files.len() == 0,
    {
        Walk { frames: Vec::new(), files: Vec::new() }
    }

    /// Opens a directory whose entries are `listing`, in the order in which
    /// they are to be looked at, with what is to be done with each.
    pub fn enter_planned(&mut self, listing: Vec<DirEntry>, actions: Vec<EntryAction>)
        requires
            old(self).wf(),
            listing@.len() == actions@.len(),
        ensures
            final(self).wf(),
            final(self)@.pending == old(self)@.pending.push(
                planned(entry_views(listing@), actions@),
            ),
            final(self)@.files == old(self)@.files,
    {
        let ghost before = self@;
        let frame = Frame { entries: listing, actions, next: 0 };
        assert(frame@ =~= planned(entry_views(listing@), actions@));
        self.frames.push(frame);
        assert(self@.pending =~= before.pending.push(planned(entry_views(listing@), actions@)));
    }

    /// Opens a directory of the project at `root` whose entries are
    /// `listing`, in the order in which they are to be looked at, and
    /// decides under the ignore set what is to be done with each. A
    /// directory that could not be read is entered with no entries.
    pub fn enter(&mut self, listing: Vec<DirEntry>, root: &str, ignore_set: &GlobSet)
        requires
            old(self).wf(),
        ensures
            final(self).wf(),
            final(self)@.pending == old(self)@.pending.push(
                planned_by(*ignore_set, root@, entry_views(listing@)),
            ),
            final(self)@.files == old(self)@.files,
    {
        let mut actions: Vec<EntryAction> = Vec::new();
        let mut i: usize = 0;
        while i < listing.len()
            invariant
                0 <= i <= listing.len(),
                actions@.len() == i,
                forall|j: int|
                    0 <= j < i ==> actions@[j] == action_for(
                        *ignore_set,
                        root@,
                        (#[trigger] listing@[j])@,
                    ),
            decreases listing.len() - i,
        {
            actions.push(classify_entry(root, &listing[i], ignore_set));
            i += 1;
        }
        assert(planned(entry_views(listing@), actions@) =~= planned_by(
            *ignore_set,
            root@,
            entry_views(listing@),
        ));
        self.enter_planned(listing, actions);
    }

    /// The files listed so far, in the order in which the scan came to
    /// them.
    pub fn files(&self) -> (files: &Vec<String>)
        ensures
            views(files@) == self@.files,
    {
        &self.files
    }

    /// Ends the scan and hands out the files it has listed.
    pub fn into_files(self) -> (files: Vec<String>)
        ensures
            views(files@) == self@.files,
    {
        self.files
    }
}

/// Carries the scan on: looks at entries until a directory has to be read,
/// whose path is returned, or until nothing is left, when `None` is
/// returned and the scan is over. The caller reads the directory and enters
/// it with `Walk::enter` before it carries on.
pub fn list_files_recursive(walk: &mut Walk) -> (wanted: Option<String>)
    requires
        old(walk).wf(),
    ensures
        final(walk).wf(),
        final(walk)@ == advance(old(walk)@).walk,
        match wanted {
            Some(dir) => advance(old(walk)@).wanted == Some(dir@),
            None => advance(old(walk)@).wanted.is_none(),
        },
{
    let ghost goal = advance(walk@);
    while walk.frames.len() > 0
        invariant
            walk.wf(),
            goal == advance(old(walk)@),
            advance(walk@) == goal,
        decreases walk.frames@.len(), (if walk.frames@.len() > 0 {
                walk.frames@.last().entries@.len() - walk.frames@.last().next
            } else {
                0
            }),
    {
        let ghost before = walk@;
        let mut frame = walk.frames.pop().unwrap();
        assert(frame@ == before.pending.last());
        if frame.next >= frame.entries.len() {
            assert(walk@.pending =~= before.pending.drop_last());
            assert(before.pending.last().len() == 0);
        } else {
            let action = frame.actions[frame.next];
            let path = frame.entries[frame.next].path.clone();
            let ghost top = before.pending.last();
            assert(top[0].action == action);
            assert(top[0].entry.path == path@);
            frame.next = frame.next + 1;
            assert(frame@ =~= top.drop_first());
            walk.frames.push(frame);
            assert(walk@.pending =~= before.pending.update(before.pending.len() - 1, top.drop_first()));
            match action {
                EntryAction::Skip => {},
                EntryAction::Collect => {
                    assert(views(walk.files@.push(path)) =~= views(walk.files@).push(path@));
                    walk.files.push(path);
                },
                EntryAction::Descend => {
                    assert(walk@ == advance(before).walk);
                    return Some(path);
                },
            }
        }
    }
    assert(walk@.pending.len() == 0);
    None
}

/// A run of the scanner lists files as the tree has them.
///
/// Let the open directories of `walk` have the trees `open`. When the run
/// ends the scan, it has listed all files that were to come. When it stops
/// at a directory, that directory is `wanted`, one to go down into; and
/// once it has been entered with its children, the files listed and the
/// files to come are together what they were before the run. So a scan
/// that enters each directory asked for with that directory's entries ends
/// with the files of the root, in the order of `files_in`.
pub proof fn lemma_run_follows_tree(walk: WalkView, open: Seq<Seq<Node>>) -> (r: (
    Seq<Seq<Node>>,
    Option<Node>,
))
    requires
        walk.pending == shapes(open),
    ensures
        advance(walk).walk.pending == shapes(r.0),
        match r.1 {
            None => {
                &&& advance(walk).wanted.is_none()
                &&& r.0.len() == 0
                &&& advance(walk).walk.files == walk.files + files_to_come(open)
            },
            Some(wanted) => {
                &&& advance(walk).wanted == Some(wanted.entry.path)
                &&& wanted.action == EntryAction::Descend
                &&& advance(walk).walk.files + files_to_come(r.0.push(wanted.children))
                    == walk.files + files_to_come(open)
            },
        },
    decreases walk.pending.len(), (if walk.pending.len() > 0 {
            walk.pending.last().len()
        } else {
            0
        }),
{
    if walk.pending.len() == 0 {
        assert(walk.files + files_to_come(open) =~= walk.files);
        (open, None)
    } else {
        let top = walk.pending.last();
        let nodes = open.last();
        assert(top == plans_of(nodes));
        if top.len() == 0 {
            let shorter = WalkView { pending: walk.pending.drop_last(), files: walk.files };
            assert(shorter.pending =~= shapes(open.drop_last()));
            assert(files_to_come(open) =~= files_to_come(open.drop_last()));
            lemma_run_follows_tree(shorter, open.drop_last())
        } else {
            let node = nodes[0];
            let rest = walk.pending.update(walk.pending.len() - 1, top.drop_first());
            let rest_open = open.update(open.len() - 1, nodes.subrange(1, nodes.len() as int));
            assert(top[0].entry == node.entry && top[0].action == node.action);
            assert(rest =~= shapes(rest_open)) by {
                assert(top.drop_first() =~= plans_of(nodes.subrange(1, nodes.len() as int)));
            }
            assert(rest_open.drop_last() =~= open.drop_last());
            assert(files_to_come(open) =~= files_under(node) + files_to_come(rest_open));
            match node.action {
                EntryAction::Skip => {
                    lemma_run_follows_tree(WalkView { pending: rest, files: walk.files }, rest_open)
                },
                EntryAction::Collect => {
                    let listed = walk.files.push(node.entry.path);
                    let r = lemma_run_follows_tree(
                        WalkView { pending: rest, files: listed },
                        rest_open,
                    );
                    assert(listed + files_to_come(rest_open) =~= walk.files + files_to_come(open));
                    r
                },
                EntryAction::Descend => {
                    let entered = rest_open.push(node.children);
                    assert(entered.drop_last() =~= rest_open);
                    assert(walk.files + files_to_come(entered) =~= walk.files + files_to_come(
                        open,
                    ));
                    (rest_open, Some(node))
                },
            }
        }
    }
}

/// The files under an entry are those that a scan lists under it: none
/// under a skipped entry, and under a directory every file that is reached
/// through directories gone down into, and no other.
pub proof fn lemma_files_under(node: Node, path: Seq<char>)
    ensures
        files_under(node).contains(path) <==> lists_under(node, path),
    decreases node,
{
    match node.action {
        EntryAction::Skip => {},
        EntryAction::Collect => {
            assert(files_under(node)[0] == node.entry.path);
        },
        EntryAction::Descend => {
            lemma_files_in(node.children, path);
        },
    }
}

/// The files of a directory are those that a scan lists in it.
pub proof fn lemma_files_in(nodes: Seq<Node>, path: Seq<char>)
    ensures
        files_in(nodes).contains(path) <==> lists(nodes, path),
    decreases nodes,
{
    if nodes.len() > 0 {
        let rest = nodes.subrange(1, nodes.len() as int);
        let first = files_under(nodes[0]);
        let others = files_in(rest);
        let all = files_in(nodes);
        lemma_files_under(nodes[0], path);
        lemma_files_in(rest, path);
        if all.contains(path) {
            let k = choose|k: int| 0 <= k < all.len() && all[k] == path;
            if k < first.len() {
                assert(first[k] == path);
                assert(lists_under(nodes[0], path));
            } else {
                assert(others[k - first.len()] == path);
                let j = choose|j: int| 0 <= j < rest.len() && lists_under(#[trigger] rest[j], path);
                assert(rest[j] == nodes[j + 1]);
                assert(lists_under(nodes[j + 1], path));
            }
        }
        if lists(nodes, path) {
            let i = choose|i: int| 0 <= i < nodes.len() && lists_under(#[trigger] nodes[i], path);
            if i == 0 {
                let k = choose|k: int| 0 <= k < first.len() && first[k] == path;
                assert(all[k] == path);
            } else {
                assert(rest[i - 1] == nodes[i]);
                assert(lists_under(rest[i - 1], path));
                let k = choose|k: int| 0 <= k < others.len() && others[k] == path;
                assert(all[first.len() + k] == path);
            }
        }
    }
}

} // verus!
