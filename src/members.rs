//! Member sets: the paths that share one digest, and their stored form.
use vstd::prelude::*;
use crate::error::IndexError;

verus! {

/// The paths of `v` as character sequences.
pub open spec fn path_views(v: Seq<String>) -> Seq<Seq<char>> {
    v.map_values(|s: String| s@)
}

/// The set of paths held by `v`.
pub open spec fn path_set(v: Seq<String>) -> Set<Seq<char>> {
    path_views(v).to_set()
}

/// A member list holds each path once.
pub open spec fn distinct_paths(v: Seq<String>) -> bool {
    path_views(v).no_duplicates()
}

/// The sequence of paths that `bincode::deserialize` reads from `bytes`, if
/// it reads one.
pub uninterp spec fn paths_from_bincode(bytes: Seq<u8>) -> Option<Seq<Seq<char>>>;

/// The member set stored as `bytes`, if they decode.
pub open spec fn stored_set(bytes: Seq<u8>) -> Option<Set<Seq<char>>> {
    match paths_from_bincode(bytes) {
        Some(s) => Some(s.to_set()),
        None => None,
    }
}

#[verifier::external_type_specification]
#[verifier::external_body]
pub struct ExBincodeErrorKind(bincode::ErrorKind);

/// Relies on `bincode::serialize` with its default options: with no size
/// limit, a list of strings (whose length is known) written into a `Vec`
/// always succeeds, and what it writes `bincode::deserialize` reads back as
/// the same list.
#[verifier::external_body]
fn serialize_paths(paths: &Vec<String>) -> (r: Result<Vec<u8>, Box<bincode::ErrorKind>>)
    ensures
        r is Ok,
        r matches Ok(b) ==> paths_from_bincode(b@) == Some(path_views(paths@)),
{
    bincode::serialize(paths)
}

/// Relies on `bincode::deserialize` with its default options: it reads a list
/// of strings from the bytes, or fails.
#[verifier::external_body]
fn deserialize_paths(bytes: &[u8]) -> (r: Result<Vec<String>, Box<bincode::ErrorKind>>)
    ensures
        match r {
            Ok(v) => paths_from_bincode(bytes@) == Some(path_views(v@)),
            Err(_) => paths_from_bincode(bytes@) is None,
        },
{
    bincode::deserialize(bytes)
}

/// Whether `members` holds `path`.
pub fn contains_path(members: &Vec<String>, path: &String) -> (r: bool)
    ensures
        r == path_views(members@).contains(path@),
{
    let mut i: usize = 0;
    while i < members.len()
        invariant
            i <= members.len(),
            forall|j: int| 0 <= j < i ==> members@[j]@ != path@,
        decreases members.len() - i,
    {
        if members[i] == *path {
            proof {
                assert(path_views(members@)[i as int] == path@);
            }
            return true;
        }
        i += 1;
    }
    proof {
        assert forall|j: int| 0 <= j < path_views(members@).len() implies path_views(
            members@,
        )[j] != path@ by {
            assert(members@[j]@ != path@);
        }
    }
    false
}

/// Adds `path` to `members`; a path already present leaves them unchanged.
pub fn insert_path(members: &mut Vec<String>, path: String)
    requires
        distinct_paths(old(members)@),
    ensures
        distinct_paths(final(members)@),
        path_set(final(members)@) == path_set(old(members)@).insert(path@),
        path_views(old(members)@).contains(path@) ==> final(members)@ == old(members)@,
{
    if !contains_path(members, &path) {
        let ghost p = path@;
        members.push(path);
        proof {
            assert(path_views(members@) =~= path_views(old(members)@).push(p));
            path_views(old(members)@).lemma_push_to_set_commute(p);
        }
    } else {
        proof {
            assert(path_set(old(members)@).insert(path@) =~= path_set(old(members)@));
        }
    }
    proof {
        assert(path_set(members@) =~= path_set(old(members)@).insert(path@));
    }
}

/// The paths of `paths`, each once.
pub fn distinct(paths: &Vec<String>) -> (r: Vec<String>)
    ensures
        distinct_paths(r@),
        path_set(r@) == path_set(paths@),
{
    let mut out: Vec<String> = Vec::new();
    let mut i: usize = 0;
    while i < paths.len()
        invariant
            i <= paths.len(),
            distinct_paths(out@),
            path_set(out@) == path_views(paths@).take(i as int).to_set(),
        decreases paths.len() - i,
    {
        proof {
            assert(path_views(paths@).take(i + 1) =~= path_views(paths@).take(i as int).push(
                paths@[i as int]@,
            ));
            path_views(paths@).take(i as int).lemma_push_to_set_commute(paths@[i as int]@);
        }
        insert_path(&mut out, paths[i].clone());
        i += 1;
    }
    proof {
        assert(path_views(paths@).take(paths@.len() as int) =~= path_views(paths@));
    }
    out
}

/// A finite set that holds two distinct values has more than one element.
pub proof fn lemma_two_members(s: Set<Seq<char>>, a: Seq<char>, b: Seq<char>)
    requires
        s.finite(),
        s.contains(a),
        s.contains(b),
        a != b,
    ensures
        s.len() > 1,
{
    let t = s.remove(a);
    assert(t.contains(b));
    assert(t.len() > 0);
}

/// The stored form of a member set.
pub fn encode_members(members: &Vec<String>) -> (r: Vec<u8>)
    ensures
        stored_set(r@) == Some(path_set(members@)),
{
    match serialize_paths(members) {
        Ok(b) => b,
        Err(_) => Vec::new(),
    }
}

/// Reads a member set from its stored form, each path once.
pub fn decode_members(bytes: &[u8]) -> (r: Result<Vec<String>, IndexError>)
    ensures
        match r {
            Ok(v) => distinct_paths(v@) && stored_set(bytes@) == Some(path_set(v@)),
            Err(e) => e == IndexError::Corrupt && stored_set(bytes@) is None,
        },
{
    match deserialize_paths(bytes) {
        Ok(v) => Ok(distinct(&v)),
        Err(_) => Err(IndexError::Corrupt),
    }
}

} // verus!
