//! Duplicate groups: the stored entries whose member set has more than one
//! path.
use vstd::prelude::*;
use crate::error::IndexError;
use crate::members::{decode_members, distinct_paths, path_set, stored_set};

verus! {

/// The paths that share one digest key.
pub struct DuplicateGroup {
    /// The digest key: uppercase hexadecimal SHA-256 digest, as ASCII bytes.
    pub digest: Vec<u8>,
    /// The paths, each once.
    pub members: Vec<String>,
}

/// The entries of a store as (key, value) byte sequences.
pub open spec fn entries_view(es: Seq<(Vec<u8>, Vec<u8>)>) -> Seq<(Seq<u8>, Seq<u8>)> {
    es.map_values(|e: (Vec<u8>, Vec<u8>)| (e.0@, e.1@))
}

/// A group as its key and its set of paths.
pub open spec fn group_views(gs: Seq<DuplicateGroup>) -> Seq<(Seq<u8>, Set<Seq<char>>)> {
    gs.map_values(|g: DuplicateGroup| (g.digest@, path_set(g.members@)))
}

/// A stored value that decodes to more than one path.
pub open spec fn is_duplicate(value: Seq<u8>) -> bool {
    match stored_set(value) {
        Some(s) => s.len() > 1,
        None => false,
    }
}

/// Every stored value decodes.
pub open spec fn all_readable(es: Seq<(Seq<u8>, Seq<u8>)>) -> bool {
    forall|i: int| 0 <= i < es.len() ==> (#[trigger] stored_set(es[i].1)) is Some
}

/// The groups reported for `es`, in the order of the entries.
pub open spec fn reported(es: Seq<(Seq<u8>, Seq<u8>)>) -> Seq<(Seq<u8>, Set<Seq<char>>)>
    decreases es.len(),
{
    if es.len() == 0 {
        Seq::empty()
    } else {
        let rest = reported(es.drop_last());
        let e = es.last();
        if is_duplicate(e.1) {
            rest.push((e.0, stored_set(e.1)->Some_0))
        } else {
            rest
        }
    }
}

/// `g` is the group of some duplicate entry of `es`.
pub open spec fn group_of_entry(es: Seq<(Seq<u8>, Seq<u8>)>, g: (Seq<u8>, Set<Seq<char>>)) -> bool {
    exists|j: int|
        0 <= j < es.len() && (#[trigger] es[j]).0 == g.0 && is_duplicate(es[j].1) && g.1
            == stored_set(es[j].1)->Some_0
}

/// Some group of `gs` has the key `k`.
pub open spec fn has_key(gs: Seq<(Seq<u8>, Set<Seq<char>>)>, k: Seq<u8>) -> bool {
    exists|i: int| 0 <= i < gs.len() && (#[trigger] gs[i]).0 == k
}

/// Each reported group comes from a duplicate entry with the same key.
pub open spec fn reported_from_entries(es: Seq<(Seq<u8>, Seq<u8>)>) -> bool {
    forall|i: int| 0 <= i < reported(es).len() ==> group_of_entry(es, #[trigger] reported(es)[i])
}

/// Each duplicate entry has a reported group with its key.
pub open spec fn entries_reported(es: Seq<(Seq<u8>, Seq<u8>)>) -> bool {
    forall|j: int|
        0 <= j < es.len() && is_duplicate((#[trigger] es[j]).1) ==> has_key(reported(es), es[j].0)
}

/// No two entries of `es` have the same key.
pub open spec fn distinct_keys<V>(es: Seq<(Seq<u8>, V)>) -> bool {
    forall|i: int, j: int| 0 <= i < j < es.len() ==> #[trigger] es[i].0 != #[trigger] es[j].0
}

pub(crate) proof fn lemma_reported_from_entries(es: Seq<(Seq<u8>, Seq<u8>)>)
    ensures
        reported_from_entries(es),
    decreases es.len(),
{
    if es.len() > 0 {
        let init = es.drop_last();
        lemma_reported_from_entries(init);
        let r0 = reported(init);
        let n = es.len() - 1;
        assert forall|i: int| 0 <= i < reported(es).len() implies group_of_entry(
            es,
            #[trigger] reported(es)[i],
        ) by {
            if i < r0.len() {
                assert(reported(es)[i] == r0[i]);
                assert(group_of_entry(init, r0[i]));
                let j = choose|j: int|
                    0 <= j < init.len() && (#[trigger] init[j]).0 == r0[i].0 && is_duplicate(
                        init[j].1,
                    ) && r0[i].1 == stored_set(init[j].1)->Some_0;
                assert(es[j] == init[j]);
            } else {
                assert(es[n] == es.last());
            }
        }
    }
}

pub(crate) proof fn lemma_entries_reported(es: Seq<(Seq<u8>, Seq<u8>)>)
    ensures
        entries_reported(es),
    decreases es.len(),
{
    if es.len() > 0 {
        let init = es.drop_last();
        lemma_entries_reported(init);
        let r0 = reported(init);
        let r = reported(es);
        let n = es.len() - 1;
        assert forall|j: int| 0 <= j < es.len() && is_duplicate((#[trigger] es[j]).1) implies has_key(
            reported(es),
            es[j].0,
        ) by {
            if j < n {
                assert(init[j] == es[j]);
                assert(has_key(r0, init[j].0));
                let i = choose|i: int| 0 <= i < r0.len() && (#[trigger] r0[i]).0 == init[j].0;
                assert(r[i] == r0[i]);
            } else {
                assert(r[r0.len() as int].0 == es[j].0);
            }
        }
    }
}

pub(crate) proof fn lemma_reported_keys_distinct(es: Seq<(Seq<u8>, Seq<u8>)>)
    ensures
        distinct_keys(es) ==> distinct_keys(reported(es)),
    decreases es.len(),
{
    if es.len() > 0 && distinct_keys(es) {
        let init = es.drop_last();
        assert forall|i: int, j: int| 0 <= i < j < init.len() implies #[trigger] init[i].0
            != #[trigger] init[j].0 by {
            assert(init[i] == es[i] && init[j] == es[j]);
        }
        lemma_reported_keys_distinct(init);
        lemma_reported_from_entries(init);
        let r0 = reported(init);
        let r = reported(es);
        assert forall|i: int, j: int| 0 <= i < j < r.len() implies #[trigger] r[i].0
            != #[trigger] r[j].0 by {
            if j < r0.len() {
                assert(r[i] == r0[i] && r[j] == r0[j]);
            } else {
                assert(r[i] == r0[i]);
                assert(group_of_entry(init, r0[i]));
                let k = choose|k: int|
                    0 <= k < init.len() && (#[trigger] init[k]).0 == r0[i].0 && is_duplicate(
                        init[k].1,
                    ) && r0[i].1 == stored_set(init[k].1)->Some_0;
                assert(es[k] == init[k]);
            }
        }
    }
}

/// The duplicate groups among the entries `entries`: each entry whose member
/// set has more than one path, in order. Fails when a stored value does not
/// decode.
pub fn groups_from_entries(entries: &Vec<(Vec<u8>, Vec<u8>)>) -> (r: Result<
    Vec<DuplicateGroup>,
    IndexError,
>)
    ensures
        match r {
            Ok(gs) => all_readable(entries_view(entries@)) && group_views(gs@) == reported(
                entries_view(entries@),
            ) && forall|i: int| 0 <= i < gs@.len() ==> distinct_paths(#[trigger] gs@[i].members@),
            Err(e) => e == IndexError::Corrupt && !all_readable(entries_view(entries@)),
        },
{
    let ghost ev = entries_view(entries@);
    let mut out: Vec<DuplicateGroup> = Vec::new();
    let mut i: usize = 0;
    while i < entries.len()
        invariant
            i <= entries.len(),
            ev == entries_view(entries@),
            all_readable(ev.take(i as int)),
            group_views(out@) == reported(ev.take(i as int)),
            forall|j: int| 0 <= j < out@.len() ==> distinct_paths(#[trigger] out@[j].members@),
        decreases entries.len() - i,
    {
        let entry = &entries[i];
        assert(ev.take(i + 1).drop_last() =~= ev.take(i as int));
        assert(ev[i as int] == (entry.0@, entry.1@));
        let members = match decode_members(entry.1.as_slice()) {
            Ok(m) => m,
            Err(e) => {
                assert(stored_set(ev[i as int].1) is None);
                return Err(e);
            },
        };
        proof {
            path_views_unique_len(members@);
            assert(forall|j: int| 0 <= j < i + 1 ==> #[trigger] ev.take(i + 1)[j] == ev.take(
                i as int,
            )[j] || j == i);
        }
        if members.len() > 1 {
            let ghost before = out@;
            out.push(DuplicateGroup { digest: entry.0.clone(), members });
            proof {
                assert(group_views(out@) =~= group_views(before).push(
                    (entry.0@, stored_set(entry.1@)->Some_0),
                ));
            }
        }
        i += 1;
    }
    assert(ev.take(entries@.len() as int) =~= ev);
    Ok(out)
}

/// A list of distinct paths has as many paths as its set.
proof fn path_views_unique_len(v: Seq<String>)
    requires
        distinct_paths(v),
    ensures
        path_set(v).len() == v.len(),
{
    crate::members::path_views(v).unique_seq_to_set();
}

} // verus!
