//! Tests of the ordered table: insertion, iteration order, multi-version
//! lookups and tombstones.

use cobbledb::defines::KvError;
use cobbledb::key_types::{parse_memtable_key, MsgType, QueryKey};
use cobbledb::memtable::MemTable;

#[test]
fn new_table_is_empty() {
    let t = MemTable::new();
    assert_eq!(t.len(), 0);
    assert!(t.iter().is_empty());
}

#[test]
fn insertion_count() {
    // n records with pairwise-distinct (user_key, sequence_number)
    // pairs give len() == n.
    let mut t = MemTable::new();
    t.put(1, MsgType::CbMsgInsert, b"a", b"v1");
    t.put(2, MsgType::CbMsgInsert, b"a", b"v2");
    t.put(3, MsgType::CbMsgInsert, b"b", b"v3");
    t.put(4, MsgType::CbMsgDel, b"b", b"");
    t.put(5, MsgType::CbMsgInsert, b"c", b"v5");
    assert_eq!(t.len(), 5);
}

#[test]
fn duplicate_version_replaces() {
    let mut t = MemTable::new();
    t.put(1, MsgType::CbMsgInsert, b"a", b"old");
    t.put(1, MsgType::CbMsgInsert, b"a", b"new");
    assert_eq!(t.len(), 1);
    let q = QueryKey::new(b"a", 1);
    let (v, deleted) = t.get(&q);
    assert_eq!(v, Some(b"new".to_vec()));
    assert!(!deleted);
}

#[test]
fn scenario_iteration_newest_first() {
    // Within one user key, iteration yields the seq=2 record before the
    // seq=1 record.
    let mut t = MemTable::new();
    t.put(1, MsgType::CbMsgInsert, b"a", b"v1");
    t.put(2, MsgType::CbMsgInsert, b"a", b"v2");
    let entries = t.iter();
    assert_eq!(entries.len(), 2);
    let (k0, t0, s0) = parse_memtable_key(&entries[0].0).unwrap();
    let (k1, t1, s1) = parse_memtable_key(&entries[1].0).unwrap();
    assert_eq!((k0, t0, s0), (b"a".to_vec(), MsgType::CbMsgInsert, 2));
    assert_eq!((k1, t1, s1), (b"a".to_vec(), MsgType::CbMsgInsert, 1));
    assert_eq!(entries[0].1, b"v2".to_vec());
    assert_eq!(entries[1].1, b"v1".to_vec());
}

#[test]
fn iteration_orders_user_keys_ascending() {
    let mut t = MemTable::new();
    t.put(1, MsgType::CbMsgInsert, b"b", b"vb");
    t.put(2, MsgType::CbMsgInsert, b"a", b"va");
    t.put(3, MsgType::CbMsgInsert, b"c", b"vc");
    let keys: Vec<Vec<u8>> = t
        .iter()
        .iter()
        .map(|e| parse_memtable_key(&e.0).unwrap().0)
        .collect();
    assert_eq!(keys, vec![b"a".to_vec(), b"b".to_vec(), b"c".to_vec()]);
}

#[test]
fn scenario_tombstone_hides_older_inserts() {
    // After inserting seq=1 and seq=2 for "a", a deletion at seq=3 makes
    // a query at snapshot 3 report (None, true).
    let mut t = MemTable::new();
    t.put(1, MsgType::CbMsgInsert, b"a", b"v1");
    t.put(2, MsgType::CbMsgInsert, b"a", b"v2");
    t.put(3, MsgType::CbMsgDel, b"a", b"");
    let q = QueryKey::new(b"a", 3);
    let (v, deleted) = t.get(&q);
    assert_eq!(v, None);
    assert!(deleted);
}

#[test]
fn snapshot_selects_visible_version() {
    let mut t = MemTable::new();
    t.put(1, MsgType::CbMsgInsert, b"a", b"v1");
    t.put(2, MsgType::CbMsgInsert, b"a", b"v2");
    t.put(3, MsgType::CbMsgDel, b"a", b"");
    // Snapshot 2 predates the tombstone: the seq=2 insert is visible.
    let (v, deleted) = t.get(&QueryKey::new(b"a", 2));
    assert_eq!(v, Some(b"v2".to_vec()));
    assert!(!deleted);
    // Snapshot 1 sees only the first insert.
    let (v, deleted) = t.get(&QueryKey::new(b"a", 1));
    assert_eq!(v, Some(b"v1".to_vec()));
    assert!(!deleted);
    // A snapshot before any version sees nothing.
    let (v, deleted) = t.get(&QueryKey::new(b"a", 0));
    assert_eq!(v, None);
    assert!(!deleted);
}

#[test]
fn scenario_missing_key_reports_none_false() {
    let mut t = MemTable::new();
    t.put(1, MsgType::CbMsgInsert, b"a", b"v1");
    let (v, deleted) = t.get(&QueryKey::new(b"never-inserted", 100));
    assert_eq!(v, None);
    assert!(!deleted);
}

#[test]
fn get_does_not_match_prefix_keys() {
    let mut t = MemTable::new();
    t.put(1, MsgType::CbMsgInsert, b"ab", b"v1");
    let (v, deleted) = t.get(&QueryKey::new(b"a", 5));
    assert_eq!(v, None);
    assert!(!deleted);
}

#[test]
fn mem_foot_print_is_unimplemented() {
    let t = MemTable::new();
    assert_eq!(t.mem_foot_print(), Err(KvError::Unimplemented));
}
