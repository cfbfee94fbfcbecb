//! Properties of a whole scan: a run of `record_file` calls, one per file.
use vstd::prelude::*;
use crate::digest::{digest_key, lemma_digest_key_distinct, sha256_of};
use crate::index::{members_at, recorded, reports};

verus! {

/// The files of `files` as (path, contents) sequences.
pub open spec fn file_views(files: Seq<(String, Vec<u8>)>) -> Seq<(Seq<char>, Seq<u8>)> {
    files.map_values(|f: (String, Vec<u8>)| (f.0@, f.1@))
}

/// `states` are the index contents before, between and after recording each
/// of `files` (path, contents) in order, every call succeeding.
pub open spec fn scan_run(
    files: Seq<(Seq<char>, Seq<u8>)>,
    states: Seq<Map<Seq<u8>, Seq<u8>>>,
) -> bool {
    &&& states.len() == files.len() + 1
    &&& forall|i: int|
        0 <= i < files.len() ==> #[trigger] recorded(
            states[i],
            digest_key(files[i].1),
            files[i].0,
            states[i + 1],
        )
}

/// Each file is one path.
pub open spec fn distinct_files(files: Seq<(Seq<char>, Seq<u8>)>) -> bool {
    forall|i: int, j: int| 0 <= i < files.len() && 0 <= j < files.len() && i != j ==> files[i].0 != files[j].0
}

/// The paths among `files` whose contents have key `k`.
pub open spec fn added(files: Seq<(Seq<char>, Seq<u8>)>, k: Seq<u8>) -> Set<Seq<char>>
    decreases files.len(),
{
    if files.len() == 0 {
        Set::empty()
    } else {
        let rest = added(files.drop_last(), k);
        if digest_key(files.last().1) == k {
            rest.insert(files.last().0)
        } else {
            rest
        }
    }
}

/// One recording adds the path to its key's set and leaves the others.
proof fn lemma_step(
    before: Map<Seq<u8>, Seq<u8>>,
    k0: Seq<u8>,
    p: Seq<char>,
    after: Map<Seq<u8>, Seq<u8>>,
    k: Seq<u8>,
)
    requires
        recorded(before, k0, p, after),
    ensures
        members_at(after, k) == if k == k0 {
            members_at(before, k).insert(p)
        } else {
            members_at(before, k)
        },
{
    if k != k0 {
        assert(before.remove(k0).contains_key(k) == before.contains_key(k));
        assert(after.remove(k0).contains_key(k) == after.contains_key(k));
        if before.contains_key(k) {
            assert(before.remove(k0)[k] == before[k]);
            assert(after.remove(k0)[k] == after[k]);
        }
    }
}

/// After a scan, the paths under each key are those it held before and
/// those of the scanned files whose contents have that key.
pub proof fn lemma_scan_members(
    files: Seq<(Seq<char>, Seq<u8>)>,
    states: Seq<Map<Seq<u8>, Seq<u8>>>,
    k: Seq<u8>,
)
    requires
        scan_run(files, states),
    ensures
        members_at(states.last(), k) == members_at(states[0], k).union(added(files, k)),
    decreases files.len(),
{
    let n = files.len() as int;
    if n == 0 {
        assert(members_at(states[0], k).union(Set::empty()) =~= members_at(states[0], k));
    } else {
        let init = files.drop_last();
        let prefix = states.drop_last();
        assert forall|i: int| 0 <= i < init.len() implies #[trigger] recorded(
            prefix[i],
            digest_key(init[i].1),
            init[i].0,
            prefix[i + 1],
        ) by {
            assert(recorded(states[i], digest_key(files[i].1), files[i].0, states[i + 1]));
        }
        lemma_scan_members(init, prefix, k);
        assert(recorded(states[n - 1], digest_key(files[n - 1].1), files[n - 1].0, states[n]));
        lemma_step(states[n - 1], digest_key(files[n - 1].1), files[n - 1].0, states[n], k);
        assert(members_at(states.last(), k) =~= members_at(states[0], k).union(added(files, k)));
    }
}

/// A path is added under a key only by a file with that path whose contents
/// have that key.
pub proof fn lemma_added_from(files: Seq<(Seq<char>, Seq<u8>)>, k: Seq<u8>, p: Seq<char>)
    requires
        added(files, k).contains(p),
    ensures
        exists|i: int| 0 <= i < files.len() && files[i].0 == p && digest_key(files[i].1) == k,
    decreases files.len(),
{
    let n = files.len() as int;
    if files[n - 1].0 == p && digest_key(files[n - 1].1) == k {
    } else {
        lemma_added_from(files.drop_last(), k, p);
        let i = choose|i: int|
            0 <= i < n - 1 && files.drop_last()[i].0 == p && digest_key(files.drop_last()[i].1)
                == k;
        assert(files[i] == files.drop_last()[i]);
    }
}

/// Every scanned file's path is added under its contents' key.
pub proof fn lemma_added_contains(files: Seq<(Seq<char>, Seq<u8>)>, i: int)
    requires
        0 <= i < files.len(),
    ensures
        added(files, digest_key(files[i].1)).contains(files[i].0),
    decreases files.len(),
{
    if i < files.len() - 1 {
        lemma_added_contains(files.drop_last(), i);
        assert(files.drop_last()[i] == files[i]);
    }
}

/// Two files with the same contents end up together in exactly one reported
/// group, that of their contents' key, provided the index did not hold both
/// paths in one set before the scan.
pub proof fn lemma_same_contents_grouped(
    files: Seq<(Seq<char>, Seq<u8>)>,
    states: Seq<Map<Seq<u8>, Seq<u8>>>,
    groups: Seq<(Seq<u8>, Set<Seq<char>>)>,
    a: int,
    b: int,
)
    requires
        scan_run(files, states),
        distinct_files(files),
        0 <= a < files.len(),
        0 <= b < files.len(),
        a != b,
        files[a].1 == files[b].1,
        forall|k: Seq<u8>|
            !(#[trigger] members_at(states[0], k).contains(files[a].0) && members_at(
                states[0],
                k,
            ).contains(files[b].0)),
        reports(states.last(), groups),
    ensures
        exists|g: int|
            0 <= g < groups.len() && groups[g].0 == digest_key(files[a].1) && groups[g].1.contains(
                files[a].0,
            ) && groups[g].1.contains(files[b].0),
        forall|g: int, h: int|
            0 <= g < groups.len() && 0 <= h < groups.len() && (#[trigger] groups[g].1).contains(
                files[a].0,
            ) && groups[g].1.contains(files[b].0) && (#[trigger] groups[h].1).contains(files[a].0)
                && groups[h].1.contains(files[b].0) ==> g == h,
{
    let k = digest_key(files[a].1);
    let (pa, pb) = (files[a].0, files[b].0);
    let last = states.last();
    lemma_scan_members(files, states, k);
    lemma_added_contains(files, a);
    lemma_added_contains(files, b);
    let m = members_at(last, k);
    assert(m.contains(pa) && m.contains(pb));
    assert(last.contains_key(k)) by {
        assert(recorded(states[a], k, pa, states[a + 1]));
        lemma_key_stays(files, states, k, a + 1);
    }
    assert(m.len() > 1) by {
        crate::members::lemma_two_members(m, pa, pb);
    }
    let g = choose|g: int| 0 <= g < groups.len() && #[trigger] groups[g].0 == k;
    assert(groups[g].1 == m);
    assert forall|g1: int, h: int|
        0 <= g1 < groups.len() && 0 <= h < groups.len() && (#[trigger] groups[g1].1).contains(pa)
            && groups[g1].1.contains(pb) && (#[trigger] groups[h].1).contains(pa)
            && groups[h].1.contains(pb) implies g1 == h by {
        lemma_together_only_at(files, states, a, b, groups[g1].0);
        lemma_together_only_at(files, states, a, b, groups[h].0);
        assert(groups[g1].1 == members_at(last, groups[g1].0));
        assert(groups[h].1 == members_at(last, groups[h].0));
        if g1 != h {
            assert(groups[g1].0 != groups[h].0);
        }
    }
}

/// Where two distinct files end up together, their paths were added under
/// the same key, or were together before.
proof fn lemma_together_only_at(
    files: Seq<(Seq<char>, Seq<u8>)>,
    states: Seq<Map<Seq<u8>, Seq<u8>>>,
    a: int,
    b: int,
    k: Seq<u8>,
)
    requires
        scan_run(files, states),
        distinct_files(files),
        0 <= a < files.len(),
        0 <= b < files.len(),
        a != b,
        !(members_at(states[0], k).contains(files[a].0) && members_at(states[0], k).contains(
            files[b].0,
        )),
        members_at(states.last(), k).contains(files[a].0),
        members_at(states.last(), k).contains(files[b].0),
    ensures
        (members_at(states[0], k).contains(files[a].0) || digest_key(files[a].1) == k),
        (members_at(states[0], k).contains(files[b].0) || digest_key(files[b].1) == k),
{
    lemma_scan_members(files, states, k);
    if !members_at(states[0], k).contains(files[a].0) {
        lemma_added_from(files, k, files[a].0);
    }
    if !members_at(states[0], k).contains(files[b].0) {
        lemma_added_from(files, k, files[b].0);
    }
}

/// A key present at one state of a scan is present at every later one.
proof fn lemma_key_stays(
    files: Seq<(Seq<char>, Seq<u8>)>,
    states: Seq<Map<Seq<u8>, Seq<u8>>>,
    k: Seq<u8>,
    from: int,
)
    requires
        scan_run(files, states),
        0 <= from < states.len(),
        states[from].contains_key(k),
    ensures
        states.last().contains_key(k),
    decreases states.len() - from,
{
    if from < states.len() - 1 {
        let k0 = digest_key(files[from].1);
        assert(recorded(states[from], k0, files[from].0, states[from + 1]));
        if k != k0 {
            assert(states[from].remove(k0).contains_key(k));
            assert(states[from + 1].remove(k0).contains_key(k));
        }
        lemma_key_stays(files, states, k, from + 1);
    }
}

/// Two files whose contents have distinct SHA-256 digests never share a
/// member set after the scan, provided neither path already stood under the
/// other's key, nor both under one key, before it.
pub proof fn lemma_distinct_contents_apart(
    files: Seq<(Seq<char>, Seq<u8>)>,
    states: Seq<Map<Seq<u8>, Seq<u8>>>,
    a: int,
    b: int,
    k: Seq<u8>,
)
    requires
        scan_run(files, states),
        distinct_files(files),
        0 <= a < files.len(),
        0 <= b < files.len(),
        a != b,
        sha256_of(files[a].1) != sha256_of(files[b].1),
        !(members_at(states[0], k).contains(files[a].0) && members_at(states[0], k).contains(
            files[b].0,
        )),
        !members_at(states[0], digest_key(files[b].1)).contains(files[a].0),
        !members_at(states[0], digest_key(files[a].1)).contains(files[b].0),
    ensures
        !(members_at(states.last(), k).contains(files[a].0) && members_at(
            states.last(),
            k,
        ).contains(files[b].0)),
{
    lemma_digest_key_distinct(files[a].1, files[b].1);
    if members_at(states.last(), k).contains(files[a].0) && members_at(states.last(), k).contains(
        files[b].0,
    ) {
        lemma_together_only_at(files, states, a, b, k);
    }
}

/// Scanning the same files a second time, against the index that the first
/// scan left, leaves every member set as it was.
pub proof fn lemma_rescan_idempotent(
    files: Seq<(Seq<char>, Seq<u8>)>,
    first: Seq<Map<Seq<u8>, Seq<u8>>>,
    second: Seq<Map<Seq<u8>, Seq<u8>>>,
    k: Seq<u8>,
)
    requires
        scan_run(files, first),
        scan_run(files, second),
        second[0] == first.last(),
    ensures
        members_at(second.last(), k) == members_at(first.last(), k),
{
    lemma_scan_members(files, first, k);
    lemma_scan_members(files, second, k);
    assert(members_at(second.last(), k) =~= members_at(first.last(), k));
}

} // verus!
