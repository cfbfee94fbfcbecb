use find_duplicate::digest::content_key;
use find_duplicate::error::IndexError;
use find_duplicate::index::DigestIndex;
use find_duplicate::members::{decode_members, distinct, encode_members, insert_path};
use find_duplicate::report::{groups_from_entries, DuplicateGroup};

const HELLO_KEY: &str = "2CF24DBA5FB0A30E26E83B2AC5B9E29E1B161E5C1FA7425E73043362938B9824";
const EMPTY_KEY: &str = "E3B0C44298FC1C149AFBF4C8996FB92427AE41E4649B934CA495991B7852B855";

fn temporary_store() -> sled::Db {
    sled::Config::new().temporary(true).open().unwrap()
}

fn sorted(mut v: Vec<String>) -> Vec<String> {
    v.sort();
    v
}

fn strings(v: &[&str]) -> Vec<String> {
    v.iter().map(|s| s.to_string()).collect()
}

fn group_members(g: &DuplicateGroup) -> Vec<String> {
    sorted(g.members.clone())
}

#[test]
fn content_key_is_uppercase_sha256_hex() {
    assert_eq!(content_key(b"hello"), HELLO_KEY.as_bytes().to_vec());
    assert_eq!(content_key(b""), EMPTY_KEY.as_bytes().to_vec());
    assert_eq!(content_key(b"world").len(), 64);
}

#[test]
fn members_round_trip_through_stored_form() {
    let members = strings(&["/r/b.txt", "/r/a.txt", "/r/c.txt"]);
    let bytes = encode_members(&members);
    let back = decode_members(&bytes).unwrap();
    assert_eq!(sorted(back), sorted(members));
}

#[test]
fn empty_member_set_round_trips() {
    let bytes = encode_members(&Vec::new());
    assert_eq!(decode_members(&bytes).unwrap(), Vec::<String>::new());
}

#[test]
fn stored_form_matches_set_encoding() {
    let mut set = std::collections::HashSet::new();
    set.insert("/r/a.txt".to_string());
    let from_set = bincode::serialize(&set).unwrap();
    assert_eq!(encode_members(&strings(&["/r/a.txt"])), from_set);
}

#[test]
fn decode_drops_repeated_paths() {
    let bytes = bincode::serialize(&strings(&["/x", "/y", "/x"])).unwrap();
    assert_eq!(decode_members(&bytes).unwrap(), strings(&["/x", "/y"]));
}

#[test]
fn decode_rejects_truncated_bytes() {
    assert_eq!(decode_members(&[1, 0, 0]), Err(IndexError::Corrupt));
}

#[test]
fn insert_path_is_idempotent() {
    let mut m = strings(&["/a"]);
    insert_path(&mut m, "/b".to_string());
    assert_eq!(m, strings(&["/a", "/b"]));
    insert_path(&mut m, "/a".to_string());
    assert_eq!(m, strings(&["/a", "/b"]));
}

#[test]
fn distinct_keeps_first_occurrences() {
    assert_eq!(distinct(&strings(&["/b", "/a", "/b", "/a", "/c"])), strings(&["/b", "/a", "/c"]));
    assert_eq!(distinct(&Vec::new()), Vec::<String>::new());
}

#[test]
fn two_equal_files_and_one_other_give_one_group() {
    let mut index = DigestIndex::new(temporary_store());
    index.record_file("/r/a.txt".to_string(), b"hello").unwrap();
    index.record_file("/r/b.txt".to_string(), b"hello").unwrap();
    index.record_file("/r/c.txt".to_string(), b"world").unwrap();
    let groups = index.duplicate_groups().unwrap();
    assert_eq!(groups.len(), 1);
    assert_eq!(groups[0].digest, HELLO_KEY.as_bytes().to_vec());
    assert_eq!(group_members(&groups[0]), strings(&["/r/a.txt", "/r/b.txt"]));
    let single = index.lookup(&content_key(b"world")).unwrap().unwrap();
    assert_eq!(single, strings(&["/r/c.txt"]));
}

#[test]
fn empty_index_has_no_groups() {
    let index = DigestIndex::new(temporary_store());
    assert_eq!(index.duplicate_groups().unwrap().len(), 0);
}

#[test]
fn lookup_of_unseen_digest_is_none() {
    let index = DigestIndex::new(temporary_store());
    assert_eq!(index.lookup(&content_key(b"hello")), Ok(None));
}

#[test]
fn rescan_does_not_grow_member_sets() {
    let files: [(&str, &[u8]); 3] = [("/r/a", b"x"), ("/r/b", b"x"), ("/r/c", b"y")];
    let mut index = DigestIndex::new(temporary_store());
    for (p, c) in files.iter() {
        index.record_file(p.to_string(), c).unwrap();
    }
    let first = index.lookup(&content_key(b"x")).unwrap().unwrap();
    for (p, c) in files.iter() {
        index.record_file(p.to_string(), c).unwrap();
    }
    let second = index.lookup(&content_key(b"x")).unwrap().unwrap();
    assert_eq!(first, second);
    assert_eq!(sorted(second), strings(&["/r/a", "/r/b"]));
    assert_eq!(index.lookup(&content_key(b"y")).unwrap().unwrap(), strings(&["/r/c"]));
}

#[test]
fn same_contents_share_exactly_one_group() {
    let mut index = DigestIndex::new(temporary_store());
    index.record_file("/d/one".to_string(), b"same").unwrap();
    index.record_file("/d/two".to_string(), b"other").unwrap();
    index.record_file("/d/sub/three".to_string(), b"same").unwrap();
    let groups = index.duplicate_groups().unwrap();
    let together: Vec<&DuplicateGroup> = groups
        .iter()
        .filter(|g| g.members.contains(&"/d/one".to_string()) && g.members.contains(&"/d/sub/three".to_string()))
        .collect();
    assert_eq!(together.len(), 1);
    assert_eq!(together[0].digest, content_key(b"same"));
}

#[test]
fn distinct_contents_never_share_a_group() {
    let mut index = DigestIndex::new(temporary_store());
    index.record_file("/d/one".to_string(), b"alpha").unwrap();
    index.record_file("/d/two".to_string(), b"beta").unwrap();
    index.record_file("/d/three".to_string(), b"alpha").unwrap();
    index.record_file("/d/four".to_string(), b"beta").unwrap();
    let groups = index.duplicate_groups().unwrap();
    assert_eq!(groups.len(), 2);
    for g in groups.iter() {
        let m = group_members(g);
        assert!(m == strings(&["/d/one", "/d/three"]) || m == strings(&["/d/four", "/d/two"]));
    }
}

#[test]
fn recording_under_corrupt_value_fails_and_keeps_it() {
    let db = temporary_store();
    let key = content_key(b"hello");
    db.insert(&key, vec![7u8]).unwrap();
    let mut index = DigestIndex::new(db.clone());
    assert_eq!(index.record_file("/r/a".to_string(), b"hello"), Err(IndexError::Corrupt));
    assert_eq!(db.get(&key).unwrap().unwrap().to_vec(), vec![7u8]);
    assert_eq!(index.lookup(&key), Err(IndexError::Corrupt));
    assert_eq!(index.duplicate_groups().err(), Some(IndexError::Corrupt));
}

#[test]
fn record_adds_to_existing_set() {
    let db = temporary_store();
    let mut index = DigestIndex::new(db);
    index.record(b"K1", "/p".to_string()).unwrap();
    index.record(b"K1", "/q".to_string()).unwrap();
    index.record(b"K1", "/p".to_string()).unwrap();
    assert_eq!(index.lookup(b"K1").unwrap().unwrap(), strings(&["/p", "/q"]));
    assert_eq!(index.lookup(b"K2"), Ok(None));
}

#[test]
fn groups_from_entries_keeps_sets_of_two_or_more() {
    let entries = vec![
        (b"A".to_vec(), bincode::serialize(&strings(&["/1", "/2"])).unwrap()),
        (b"B".to_vec(), bincode::serialize(&strings(&["/3"])).unwrap()),
        (b"C".to_vec(), bincode::serialize(&strings(&["/4", "/4"])).unwrap()),
        (b"D".to_vec(), bincode::serialize(&strings(&["/5", "/6", "/7"])).unwrap()),
    ];
    let groups = groups_from_entries(&entries).unwrap();
    assert_eq!(groups.len(), 2);
    assert_eq!(groups[0].digest, b"A".to_vec());
    assert_eq!(groups[0].members, strings(&["/1", "/2"]));
    assert_eq!(groups[1].digest, b"D".to_vec());
    assert_eq!(groups[1].members, strings(&["/5", "/6", "/7"]));
}

#[test]
fn groups_from_entries_rejects_undecodable_value() {
    let entries = vec![
        (b"A".to_vec(), bincode::serialize(&strings(&["/1", "/2"])).unwrap()),
        (b"B".to_vec(), vec![0xFF]),
    ];
    assert_eq!(groups_from_entries(&entries).err(), Some(IndexError::Corrupt));
    assert_eq!(groups_from_entries(&Vec::new()).unwrap().len(), 0);
}

#[test]
fn record_files_scans_a_batch() {
    let mut index = DigestIndex::new(temporary_store());
    let files = vec![
        ("/r/a.txt".to_string(), b"hello".to_vec()),
        ("/r/b.txt".to_string(), b"hello".to_vec()),
        ("/r/c.txt".to_string(), b"world".to_vec()),
    ];
    assert_eq!(index.record_files(&files), 0);
    assert_eq!(index.record_files(&files), 0);
    let groups = index.duplicate_groups().unwrap();
    assert_eq!(groups.len(), 1);
    assert_eq!(group_members(&groups[0]), strings(&["/r/a.txt", "/r/b.txt"]));
}

#[test]
fn record_files_goes_on_past_a_failure() {
    let db = temporary_store();
    db.insert(content_key(b"bad"), vec![9u8]).unwrap();
    let mut index = DigestIndex::new(db);
    let files = vec![
        ("/r/x".to_string(), b"bad".to_vec()),
        ("/r/y".to_string(), b"good".to_vec()),
        ("/r/z".to_string(), b"good".to_vec()),
    ];
    assert_eq!(index.record_files(&files), 1);
    assert_eq!(sorted(index.lookup(&content_key(b"good")).unwrap().unwrap()), strings(&["/r/y", "/r/z"]));
}
