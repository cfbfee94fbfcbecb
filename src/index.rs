//! The digest index: a persistent store mapping each digest key to the set of
//! paths whose contents carry it.
use vstd::prelude::*;
use crate::digest::{content_key, digest_key};
use crate::error::IndexError;
use crate::scan::{file_views, scan_run};
use crate::members::{decode_members, distinct_paths, encode_members, insert_path, path_set, stored_set};
use crate::report::{
    all_readable, entries_reported, entries_view, group_views, groups_from_entries, is_duplicate,
    lemma_entries_reported, lemma_reported_from_entries, lemma_reported_keys_distinct, reported,
    reported_from_entries, group_of_entry, has_key, DuplicateGroup,
};

verus! {

#[verifier::external_type_specification]
#[verifier::external_body]
pub struct ExDb(sled::Db);

#[verifier::external_type_specification]
#[verifier::external_body]
pub struct ExSledError(sled::Error);

/// The key/value pairs that the store `db` holds.
pub uninterp spec fn store_contents(db: sled::Db) -> Map<Seq<u8>, Seq<u8>>;

/// Relies on `sled::Tree::get`: the value stored under `key`, or none.
#[verifier::external_body]
fn store_get(db: &sled::Db, key: &[u8]) -> (r: Result<Option<Vec<u8>>, sled::Error>)
    ensures
        r matches Ok(found) ==> match found {
            Some(v) => store_contents(*db).contains_key(key@) && store_contents(*db)[key@] == v@,
            None => !store_contents(*db).contains_key(key@),
        },
{
    db.get(key).map(|found| found.map(|v| v.to_vec()))
}

/// Relies on `sled::Tree::insert`: on success `key` maps to `value` and the
/// other keys are untouched.
#[verifier::external_body]
fn store_insert(db: &mut sled::Db, key: &[u8], value: Vec<u8>) -> (r: Result<(), sled::Error>)
    ensures
        r is Ok ==> store_contents(*final(db)) == store_contents(*old(db)).insert(key@, value@),
{
    db.insert(key, value).map(|_| ())
}

/// Relies on `sled::Tree::iter`: every stored pair, each key once.
#[verifier::external_body]
fn store_entries(db: &sled::Db) -> (r: Result<Vec<(Vec<u8>, Vec<u8>)>, sled::Error>)
    ensures
        r matches Ok(es) ==> lists_map(entries_view(es@), store_contents(*db)),
{
    db.iter().map(|kv| kv.map(|(k, v)| (k.to_vec(), v.to_vec()))).collect()
}

/// `es` lists the pairs of `m`, each key once.
pub open spec fn lists_map(es: Seq<(Seq<u8>, Seq<u8>)>, m: Map<Seq<u8>, Seq<u8>>) -> bool {
    &&& forall|i: int|
        0 <= i < es.len() ==> m.contains_key(#[trigger] es[i].0) && m[es[i].0] == es[i].1
    &&& forall|k: Seq<u8>| #[trigger]
        m.contains_key(k) ==> exists|i: int| 0 <= i < es.len() && #[trigger] es[i].0 == k
    &&& forall|i: int, j: int| 0 <= i < j < es.len() ==> #[trigger] es[i].0 != #[trigger] es[j].0
}

/// The paths stored under `k` in `c`; none where `k` is absent or its value
/// does not decode.
pub open spec fn members_at(c: Map<Seq<u8>, Seq<u8>>, k: Seq<u8>) -> Set<Seq<char>> {
    if c.contains_key(k) {
        match stored_set(c[k]) {
            Some(s) => s,
            None => Set::empty(),
        }
    } else {
        Set::empty()
    }
}

/// The value under `k`, if any, decodes.
pub open spec fn readable_at(c: Map<Seq<u8>, Seq<u8>>, k: Seq<u8>) -> bool {
    c.contains_key(k) ==> stored_set(c[k]) is Some
}

/// `after` is `before` with `path` added to the member set of `k`.
pub open spec fn recorded(
    before: Map<Seq<u8>, Seq<u8>>,
    k: Seq<u8>,
    path: Seq<char>,
    after: Map<Seq<u8>, Seq<u8>>,
) -> bool {
    &&& readable_at(before, k)
    &&& after.contains_key(k)
    &&& stored_set(after[k]) == Some(members_at(before, k).insert(path))
    &&& after.remove(k) == before.remove(k)
}

/// `gs` are the duplicate groups of `c`: each key whose member set has more
/// than one path, once, with that set.
pub open spec fn reports(c: Map<Seq<u8>, Seq<u8>>, gs: Seq<(Seq<u8>, Set<Seq<char>>)>) -> bool {
    &&& forall|i: int|
        0 <= i < gs.len() ==> c.contains_key(#[trigger] gs[i].0) && gs[i].1 == members_at(
            c,
            gs[i].0,
        ) && gs[i].1.len() > 1
    &&& forall|k: Seq<u8>|
        c.contains_key(k) && #[trigger] members_at(c, k).len() > 1 ==> exists|i: int|
            0 <= i < gs.len() && #[trigger] gs[i].0 == k
    &&& forall|i: int, j: int| 0 <= i < j < gs.len() ==> #[trigger] gs[i].0 != #[trigger] gs[j].0
}

/// A persistent map from digest key to the paths whose contents carry it.
pub struct DigestIndex {
    db: sled::Db,
}

impl DigestIndex {
    /// What the index holds: each key with its stored member set.
    pub closed spec fn contents(&self) -> Map<Seq<u8>, Seq<u8>> {
        store_contents(self.db)
    }

    /// An index over the opened store `db`.
    pub fn new(db: sled::Db) -> (r: Self)
        ensures
            r.contents() == store_contents(db),
    {
        DigestIndex { db }
    }

    /// The paths stored under `key`, each once; none when `key` is absent.
    pub fn lookup(&self, key: &[u8]) -> (r: Result<Option<Vec<String>>, IndexError>)
        ensures
            match r {
                Ok(None) => !self.contents().contains_key(key@),
                Ok(Some(v)) => self.contents().contains_key(key@) && distinct_paths(v@) && stored_set(
                    self.contents()[key@],
                ) == Some(path_set(v@)),
                Err(e) => e == IndexError::Store || (e == IndexError::Corrupt
                    && !readable_at(self.contents(), key@)),
            },
    {
        match store_get(&self.db, key) {
            Ok(Some(bytes)) => match decode_members(bytes.as_slice()) {
                Ok(v) => Ok(Some(v)),
                Err(e) => Err(e),
            },
            Ok(None) => Ok(None),
            Err(_) => Err(IndexError::Store),
        }
    }

    /// Adds `path` to the member set of `key`, creating the set on the key's
    /// first sighting; a path already present leaves the set as it was.
    pub fn record(&mut self, key: &[u8], path: String) -> (r: Result<(), IndexError>)
        ensures
            r is Ok ==> recorded(old(self).contents(), key@, path@, final(self).contents()),
            !readable_at(old(self).contents(), key@) ==> r is Err,
            r matches Err(e) && e != IndexError::Store ==> final(self).contents()
                == old(self).contents(),
            r matches Err(e) && e == IndexError::Corrupt ==> !readable_at(
                old(self).contents(),
                key@,
            ),
    {
        let found = match store_get(&self.db, key) {
            Ok(f) => f,
            Err(_) => return Err(IndexError::Store),
        };
        let mut members = match found {
            Some(bytes) => match decode_members(bytes.as_slice()) {
                Ok(v) => v,
                Err(e) => return Err(e),
            },
            None => Vec::new(),
        };
        proof {
            assert(path_set(members@) == members_at(self.contents(), key@)) by {
                if !self.contents().contains_key(key@) {
                    assert(path_set(members@) =~= Set::empty());
                }
            }
        }
        let ghost p = path@;
        insert_path(&mut members, path);
        let encoded = encode_members(&members);
        match store_insert(&mut self.db, key, encoded) {
            Ok(()) => {
                assert(self.contents().remove(key@) =~= old(self).contents().remove(key@));
                Ok(())
            },
            Err(_) => Err(IndexError::Store),
        }
    }

    /// Hashes `content` and adds `path` to the member set of its digest key.
    pub fn record_file(&mut self, path: String, content: &[u8]) -> (r: Result<(), IndexError>)
        ensures
            r is Ok ==> recorded(
                old(self).contents(),
                digest_key(content@),
                path@,
                final(self).contents(),
            ),
            !readable_at(old(self).contents(), digest_key(content@)) ==> r is Err,
            r matches Err(e) && e != IndexError::Store ==> final(self).contents()
                == old(self).contents(),
    {
        let key = content_key(content);
        self.record(key.as_slice(), path)
    }

    /// Records each of `files` (path, contents) in order, going on past a
    /// file whose recording fails, and returns how many failed. When none
    /// failed, the calls made one whole scan of `files`.
    pub fn record_files(&mut self, files: &Vec<(String, Vec<u8>)>) -> (failed: usize)
        ensures
            failed <= files@.len(),
            failed == 0 ==> exists|states: Seq<Map<Seq<u8>, Seq<u8>>>|
                scan_run(file_views(files@), states) && states[0] == old(self).contents()
                    && states.last() == final(self).contents(),
    {
        let ghost fv = file_views(files@);
        let ghost mut states: Seq<Map<Seq<u8>, Seq<u8>>> = seq![self.contents()];
        let mut failed: usize = 0;
        let mut i: usize = 0;
        while i < files.len()
            invariant
                i <= files@.len(),
                failed <= i,
                fv == file_views(files@),
                failed == 0 ==> scan_run(fv.take(i as int), states) && states[0] == old(
                    self,
                ).contents() && states.last() == self.contents(),
            decreases files.len() - i,
        {
            let ghost before = self.contents();
            let ghost prev = states;
            match self.record_file(files[i].0.clone(), files[i].1.as_slice()) {
                Ok(()) => {
                    proof {
                        states = states.push(self.contents());
                    }
                },
                Err(_) => {
                    failed += 1;
                },
            }
            proof {
                if failed == 0 {
                    let t = fv.take(i + 1);
                    assert(t[i as int] == fv[i as int]);
                    assert forall|k: int| 0 <= k < t.len() implies #[trigger] recorded(
                        states[k],
                        digest_key(t[k].1),
                        t[k].0,
                        states[k + 1],
                    ) by {
                        if k < i {
                            assert(t[k] == fv.take(i as int)[k]);
                            assert(recorded(
                                prev[k],
                                digest_key(fv.take(i as int)[k].1),
                                fv.take(i as int)[k].0,
                                prev[k + 1],
                            ));
                            assert(states[k] == prev[k] && states[k + 1] == prev[k + 1]);
                        }
                    }
                }
            }
            i += 1;
        }
        assert(fv.take(files@.len() as int) =~= fv);
        failed
    }

    /// Every group of the index whose member set has more than one path.
    /// Fails when the store cannot be read or a stored set does not decode.
    pub fn duplicate_groups(&self) -> (r: Result<Vec<DuplicateGroup>, IndexError>)
        ensures
            match r {
                Ok(gs) => reports(self.contents(), group_views(gs@)) && (forall|i: int|
                    0 <= i < gs@.len() ==> distinct_paths(#[trigger] gs@[i].members@)) && forall|
                    k: Seq<u8>,
                | #[trigger] readable_at(self.contents(), k),
                Err(e) => e == IndexError::Store || (e == IndexError::Corrupt && exists|k: Seq<u8>|
                    !#[trigger] readable_at(self.contents(), k)),
            },
    {
        let entries = match store_entries(&self.db) {
            Ok(es) => es,
            Err(_) => return Err(IndexError::Store),
        };
        let r = groups_from_entries(&entries);
        proof {
            let es = entries_view(entries@);
            let c = self.contents();
            if r is Ok {
                lemma_reported(es, c);
                assert forall|k: Seq<u8>| #[trigger] readable_at(c, k) by {
                    if c.contains_key(k) {
                        let i = choose|i: int| 0 <= i < es.len() && #[trigger] es[i].0 == k;
                        assert(stored_set(es[i].1) is Some);
                    }
                }
            } else {
                let i = choose|i: int| 0 <= i < es.len() && !(#[trigger] stored_set(es[i].1) is Some);
                assert(c.contains_key(es[i].0));
                assert(!readable_at(c, es[i].0));
            }
        }
        r
    }
}

/// The groups reported for a listing of a store are that store's duplicate
/// groups.
proof fn lemma_reported(es: Seq<(Seq<u8>, Seq<u8>)>, c: Map<Seq<u8>, Seq<u8>>)
    requires
        lists_map(es, c),
        all_readable(es),
    ensures
        reports(c, reported(es)),
{
    lemma_reported_from_entries(es);
    lemma_entries_reported(es);
    lemma_reported_keys_distinct(es);
    lemma_reported_sound(es, c);
    lemma_reported_complete(es, c);
}

proof fn lemma_reported_sound(es: Seq<(Seq<u8>, Seq<u8>)>, c: Map<Seq<u8>, Seq<u8>>)
    requires
        forall|i: int|
            0 <= i < es.len() ==> c.contains_key(#[trigger] es[i].0) && c[es[i].0] == es[i].1,
        reported_from_entries(es),
    ensures
        forall|i: int|
            0 <= i < reported(es).len() ==> c.contains_key(#[trigger] reported(es)[i].0)
                && reported(es)[i].1 == members_at(c, reported(es)[i].0) && reported(es)[i].1.len()
                > 1,
{
    let gs = reported(es);
    assert forall|i: int| 0 <= i < gs.len() implies c.contains_key(#[trigger] gs[i].0)
        && gs[i].1 == members_at(c, gs[i].0) && gs[i].1.len() > 1 by {
        assert(group_of_entry(es, gs[i]));
        let j = choose|j: int|
            0 <= j < es.len() && (#[trigger] es[j]).0 == gs[i].0 && is_duplicate(es[j].1) && gs[i].1
                == stored_set(es[j].1)->Some_0;
        assert(c.contains_key(es[j].0) && c[es[j].0] == es[j].1);
    }
}

proof fn lemma_reported_complete(es: Seq<(Seq<u8>, Seq<u8>)>, c: Map<Seq<u8>, Seq<u8>>)
    requires
        forall|i: int|
            0 <= i < es.len() ==> c.contains_key(#[trigger] es[i].0) && c[es[i].0] == es[i].1,
        forall|k: Seq<u8>| #[trigger]
            c.contains_key(k) ==> exists|i: int| 0 <= i < es.len() && #[trigger] es[i].0 == k,
        all_readable(es),
        entries_reported(es),
    ensures
        forall|k: Seq<u8>|
            c.contains_key(k) && #[trigger] members_at(c, k).len() > 1 ==> exists|i: int|
                0 <= i < reported(es).len() && #[trigger] reported(es)[i].0 == k,
{
    let gs = reported(es);
    assert forall|k: Seq<u8>| c.contains_key(k) && #[trigger] members_at(c, k).len() > 1 implies exists|i: int|
        0 <= i < gs.len() && #[trigger] gs[i].0 == k by {
        let j = choose|j: int| 0 <= j < es.len() && #[trigger] es[j].0 == k;
        assert(c[es[j].0] == es[j].1);
        assert(stored_set(es[j].1) is Some);
        assert(is_duplicate(es[j].1));
        assert(has_key(gs, es[j].0));
        let i = choose|i: int| 0 <= i < gs.len() && (#[trigger] gs[i]).0 == es[j].0;
        assert(gs[i].0 == k);
    }
}

} // verus!
