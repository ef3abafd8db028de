//! The registry of projects known on this machine: a list of entries, one
//! per project root, in the order in which the projects were first seen.

use vstd::prelude::*;
use vstd::string::StringExecFns;

verus! {

/// One known project.
#[derive(Clone, Debug, PartialEq, Eq)]
pub struct RegistryEntry {
    /// The project's name.
    pub name: String,
    /// The project's root directory.
    pub path: String,
    /// When the project was created, in seconds since the epoch.
    pub created_at_unix: u64,
}

/// Whether some entry of `entries` has the root `path`.
pub open spec fn knows_path(entries: Seq<RegistryEntry>, path: Seq<char>) -> bool {
    exists|i: int| 0 <= i < entries.len() && (#[trigger] entries[i]).path@ == path
}

/// Whether no two of `entries` have the same root.
pub open spec fn distinct_roots(entries: Seq<RegistryEntry>) -> bool {
    forall|i: int, j: int|
        0 <= i < j < entries.len() ==> (#[trigger] entries[i]).path@ != (#[trigger] entries[j]).path@
}

/// Whether `entries[i]` is the first entry named `name`.
pub open spec fn first_named(entries: Seq<RegistryEntry>, name: Seq<char>, i: int) -> bool {
    &&& 0 <= i < entries.len()
    &&& entries[i].name@ == name
    &&& forall|j: int| 0 <= j < i ==> (#[trigger] entries[j]).name@ != name
}

/// Tests whether a project with root `path` is registered.
pub fn is_registered(entries: &Vec<RegistryEntry>, path: &str) -> (r: bool)
    ensures
        r == knows_path(entries@, path@),
{
    let wanted = String::from_str(path);
    let mut i: usize = 0;
    while i < entries.len()
        invariant
            0 <= i <= entries.len(),
            wanted@ == path@,
            forall|j: int| 0 <= j < i ==> (#[trigger] entries@[j]).path@ != path@,
        decreases entries.len() - i,
    {
        if entries[i].path == wanted {
            return true;
        }
        i += 1;
    }
    false
}

/// Registers a project unless one with the same root is registered already.
///
/// Returns whether the entry was added, that is whether the registry has
/// changed and is to be saved. A new entry goes to the end; the entries
/// that were there stay as they are.
pub fn add_to_registry(
    entries: &mut Vec<RegistryEntry>,
    name: &str,
    path: &str,
    created_at_unix: u64,
) -> (added: bool)
    ensures
        added == !knows_path(old(entries)@, path@),
        !added ==> final(entries)@ == old(entries)@,
        added ==> final(entries)@.len() == old(entries)@.len() + 1,
        added ==> final(entries)@.drop_last() == old(entries)@,
        added ==> final(entries)@.last().name@ == name@,
        added ==> final(entries)@.last().path@ == path@,
        added ==> final(entries)@.last().created_at_unix == created_at_unix,
        distinct_roots(old(entries)@) ==> distinct_roots(final(entries)@),
{
    if is_registered(entries, path) {
        return false;
    }
    let entry = RegistryEntry {
        name: String::from_str(name),
        path: String::from_str(path),
        created_at_unix,
    };
    entries.push(entry);
    assert(entries@.drop_last() == old(entries)@);
    proof {
        if distinct_roots(old(entries)@) {
            assert forall|i: int, j: int| 0 <= i < j < entries@.len() implies (
            #[trigger] entries@[i]).path@ != (#[trigger] entries@[j]).path@ by {
                assert(entries@[i] == old(entries)@[i]);
                if j < old(entries)@.len() {
                    assert(entries@[j] == old(entries)@[j]);
                }
            }
        }
    }
    true
}

/// Finds the first project named `name`.
pub fn find_project(entries: &Vec<RegistryEntry>, name: &str) -> (found: Option<usize>)
    ensures
        match found {
            Some(i) => first_named(entries@, name@, i as int),
            None => forall|j: int| 0 <= j < entries.len() ==> (#[trigger] entries@[j]).name@ != name@,
        },
{
    let wanted = String::from_str(name);
    let mut i: usize = 0;
    while i < entries.len()
        invariant
            0 <= i <= entries.len(),
            wanted@ == name@,
            forall|j: int| 0 <= j < i ==> (#[trigger] entries@[j]).name@ != name@,
        decreases entries.len() - i,
    {
        if entries[i].name == wanted {
            return Some(i);
        }
        i += 1;
    }
    None
}

} // verus!
