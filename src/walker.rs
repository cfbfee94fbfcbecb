//! Which files the walk hands to the index, and how many it may have in
//! flight.
use vstd::prelude::*;

verus! {

/// How many files may wait between the walk and the index updater; the walk
/// waits while this many are queued.
pub const QUEUE_CAPACITY: usize = 100;

/// Some component of `path` after a `/` starts with `.` (a hidden entry) or
/// `#` (a lock or transient marker).
pub open spec fn has_skipped_component(path: Seq<char>) -> bool {
    exists|i: int|
        0 <= i < path.len() - 1 && #[trigger] path[i] == '/' && (path[i + 1] == '.' || path[i
            + 1] == '#')
}

/// Whether the walk skips the file at the canonical absolute path `path`:
/// some component of it is hidden or a lock marker.
pub fn is_skipped_path(path: &str) -> (r: bool)
    ensures
        r == has_skipped_component(path@),
{
    let n = path.unicode_len();
    let mut i: usize = 0;
    while i < n
        invariant
            n == path@.len(),
            i <= n,
            forall|j: int|
                0 <= j < i && j < n - 1 ==> !(#[trigger] path@[j] == '/' && (path@[j + 1] == '.'
                    || path@[j + 1] == '#')),
        decreases n - i,
    {
        if i + 1 < n && path.get_char(i) == '/' {
            let next = path.get_char(i + 1);
            if next == '.' || next == '#' {
                return true;
            }
        }
        i += 1;
    }
    false
}

/// An entry directly under the root whose name starts with `.` or `#` is
/// skipped, whatever the root.
pub proof fn lemma_marked_entry_skipped(root: Seq<char>, name: Seq<char>)
    requires
        name.len() > 0,
        name[0] == '.' || name[0] == '#',
    ensures
        has_skipped_component(root + seq!['/'] + name),
{
    let p = root + seq!['/'] + name;
    let i = root.len() as int;
    assert(p[i] == '/' && p[i + 1] == name[0]);
}

/// An entry directly under the root is kept when the root and the entry's
/// name have no hidden or marked component and the name does not start with
/// `.` or `#`.
pub proof fn lemma_plain_entry_kept(root: Seq<char>, name: Seq<char>)
    requires
        !has_skipped_component(root),
        !has_skipped_component(name),
        name.len() > 0,
        name[0] != '.',
        name[0] != '#',
    ensures
        !has_skipped_component(root + seq!['/'] + name),
{
    let p = root + seq!['/'] + name;
    let r = root.len() as int;
    assert forall|i: int| 0 <= i < p.len() - 1 && #[trigger] p[i] == '/' implies !(p[i + 1] == '.'
        || p[i + 1] == '#') by {
        if i < r - 1 {
            assert(root[i] == '/');
        } else if i == r - 1 {
            assert(p[i + 1] == '/');
        } else if i == r {
            assert(p[i + 1] == name[0]);
        } else {
            assert(name[i - r - 1] == '/');
            assert(p[i + 1] == name[i - r]);
        }
    }
}

} // verus!
