use minimint_bridge::database::{BatchItem, DbError, SledDatabase, SledTree};

const DB_FOLDER: &str = "clients.db";

fn temp_dir(name: &str) -> String {
    let nanos = std::time::SystemTime::now()
        .duration_since(std::time::UNIX_EPOCH)
        .unwrap()
        .as_nanos();
    format!("/tmp/minimint_bridge_tests/{}_{}", name, nanos)
}

fn db_path(name: &str) -> String {
    format!("{}/{}", temp_dir(name), DB_FOLDER)
}

#[test]
fn test_database() {
    let path = db_path("database");
    let db = SledDatabase::open(&path);
    assert!(db.is_ok());
    let db2 = SledDatabase::open(&path);
    assert!(db2.is_err());
}

#[test]
fn test_tree() {
    let path = db_path("tree");
    let mut db = SledDatabase::open(&path).ok().unwrap();

    let tree1 = db.open_tree("tree1");
    assert!(tree1.is_ok());

    let tree_names = db.tree_names().ok().unwrap();
    assert!(tree_names.contains(&String::from("tree1")));

    // drop
    let r = db.drop_tree("tree1");
    assert!(r.is_ok());
    assert!(r.ok().unwrap()); // true

    let tree_names = db.tree_names().ok().unwrap();
    assert!(!tree_names.contains(&String::from("tree1")));

    // drop again
    let r = db.drop_tree("tree1");
    assert!(r.is_ok());
    assert!(!r.ok().unwrap()); // false

    let tree_names = db.tree_names().ok().unwrap();
    assert!(!tree_names.contains(&String::from("tree1")));
}

#[test]
fn default_tree_is_listed_and_cannot_be_dropped() {
    let mut db = SledDatabase::open(&db_path("default_tree")).ok().unwrap();
    let names = db.tree_names().ok().unwrap();
    assert!(names.contains(&String::from("__sled__default")));
    assert!(db.drop_tree("__sled__default").is_err());
    let names = db.tree_names().ok().unwrap();
    assert!(names.contains(&String::from("__sled__default")));
}

#[test]
fn tree_names_are_listed_once() {
    let mut db = SledDatabase::open(&db_path("names_once")).ok().unwrap();
    let a = db.open_tree("a").ok().unwrap();
    assert!(matches!(db.open_tree("a"), Err(DbError::TreeInUse)));
    db.close_tree(a);
    assert!(db.open_tree("a").is_ok());
    assert!(db.open_tree("b").is_ok());
    let names = db.tree_names().ok().unwrap();
    assert_eq!(names.iter().filter(|n| n.as_str() == "a").count(), 1);
    assert_eq!(names.iter().filter(|n| n.as_str() == "b").count(), 1);
    assert_eq!(names.len(), 3);
}

#[test]
fn read_after_write() {
    let mut tree = SledTree::open(&db_path("read_after_write"), "t").ok().unwrap();
    assert_eq!(tree.raw_get_value(b"k").ok().unwrap(), None);
    let prev = tree.raw_insert_entry(b"k", vec![1, 2, 3]).ok().unwrap();
    assert_eq!(prev, None);
    assert_eq!(tree.raw_get_value(b"k").ok().unwrap(), Some(vec![1, 2, 3]));
    let prev = tree.raw_insert_entry(b"k", vec![4]).ok().unwrap();
    assert_eq!(prev, Some(vec![1, 2, 3]));
    assert_eq!(tree.raw_get_value(b"k").ok().unwrap(), Some(vec![4]));
    assert_eq!(tree.raw_get_value(b"other").ok().unwrap(), None);
}

#[test]
fn read_after_remove() {
    let mut tree = SledTree::open(&db_path("read_after_remove"), "t").ok().unwrap();
    tree.raw_insert_entry(b"a", vec![1]).ok().unwrap();
    tree.raw_insert_entry(b"b", vec![2]).ok().unwrap();
    assert_eq!(tree.raw_remove_entry(b"a").ok().unwrap(), Some(vec![1]));
    assert_eq!(tree.raw_get_value(b"a").ok().unwrap(), None);
    assert_eq!(tree.raw_get_value(b"b").ok().unwrap(), Some(vec![2]));
    assert_eq!(tree.raw_remove_entry(b"a").ok().unwrap(), None);
}

#[test]
fn prefix_scan_lists_matching_entries_in_key_order() {
    let mut tree = SledTree::open(&db_path("prefix"), "t").ok().unwrap();
    tree.raw_insert_entry(&[1, 9], vec![19]).ok().unwrap();
    tree.raw_insert_entry(&[0, 5], vec![5]).ok().unwrap();
    tree.raw_insert_entry(&[1, 2], vec![12]).ok().unwrap();
    tree.raw_insert_entry(&[1], vec![1]).ok().unwrap();
    tree.raw_insert_entry(&[2, 0], vec![20]).ok().unwrap();
    let listed = tree.raw_find_by_prefix(&[1]).ok().unwrap();
    assert_eq!(
        listed,
        vec![
            (vec![1], vec![1]),
            (vec![1, 2], vec![12]),
            (vec![1, 9], vec![19])
        ]
    );
    assert_eq!(tree.raw_find_by_prefix(&[3]).ok().unwrap(), vec![]);
}

#[test]
fn batch_applies_items_in_order() {
    let mut tree = SledTree::open(&db_path("batch"), "t").ok().unwrap();
    tree.raw_insert_entry(b"gone", vec![0]).ok().unwrap();
    tree.raw_insert_entry(b"kept", vec![7]).ok().unwrap();
    let batch = vec![
        BatchItem::InsertNewElement { key: b"x".to_vec(), value: vec![1] },
        BatchItem::InsertElement { key: b"x".to_vec(), value: vec![2] },
        BatchItem::DeleteElement { key: b"gone".to_vec() },
        BatchItem::InsertElement { key: b"y".to_vec(), value: vec![3] },
        BatchItem::MaybeDeleteElement { key: b"y".to_vec() },
        BatchItem::MaybeDeleteElement { key: b"absent".to_vec() },
    ];
    assert!(tree.raw_apply_batch(batch).is_ok());
    assert_eq!(tree.raw_get_value(b"x").ok().unwrap(), Some(vec![2]));
    assert_eq!(tree.raw_get_value(b"gone").ok().unwrap(), None);
    assert_eq!(tree.raw_get_value(b"y").ok().unwrap(), None);
    assert_eq!(tree.raw_get_value(b"kept").ok().unwrap(), Some(vec![7]));
}

#[test]
fn new_tree_is_empty_and_reopened_tree_keeps_entries() {
    let path = db_path("reopen");
    let mut db = SledDatabase::open(&path).ok().unwrap();
    let mut t = db.open_tree("t").ok().unwrap();
    assert_eq!(t.raw_find_by_prefix(&[]).ok().unwrap(), vec![]);
    t.raw_insert_entry(b"k", vec![1]).ok().unwrap();
    db.close_tree(t);
    let t2 = db.open_tree("t").ok().unwrap();
    assert_eq!(t2.raw_get_value(b"k").ok().unwrap(), Some(vec![1]));
}

#[test]
fn tree_dropped_while_its_handle_is_out() {
    let mut db = SledDatabase::open(&db_path("in_use")).ok().unwrap();
    let mut t = db.open_tree("t").ok().unwrap();
    assert!(t.raw_insert_entry(b"k", vec![1]).is_ok());
    assert_eq!(db.drop_tree("t").ok(), Some(true));
    // the handle of the dropped tree answers only errors
    assert!(t.raw_get_value(b"k").is_err());
    db.close_tree(t);
    let fresh = db.open_tree("t").ok().unwrap();
    assert_eq!(fresh.raw_get_value(b"k").ok().unwrap(), None);
}
