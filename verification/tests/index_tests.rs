use bitcask::btree::BTree;
use bitcask::index::new_indexer;
use bitcask::index::Indexer;
use bitcask::keydir::KeyDir;
use bitcask::meta_data::MetaData;
use bitcask::options::IndexType;

#[test]
fn btree_test_btree_put() {
    let mut tree = BTree::new();
    let fake_meta_data = MetaData::new(0, 1, 2, 3);
    let x = tree.put("hello".to_string(), fake_meta_data);
    assert_eq!(x, true);
}

#[test]
fn btree_test_btree_get() {
    let mut tree = BTree::new();
    let fake_meta_data = MetaData::new(0, 1, 2, 3);
    let k = "hello".to_string();
    let x = tree.put(k, fake_meta_data);
    assert_eq!(x, true);
    let k = "hello".to_string();
    let get_res = tree.get(&k);
    assert_eq!(get_res.unwrap(), fake_meta_data);
}

#[test]
fn btree_test_btree_delete() {
    let mut tree = BTree::new();
    let fake_meta_data = MetaData::new(0, 1, 2, 3);
    let k = "hello".to_string();
    let x = tree.put(k, fake_meta_data);
    assert_eq!(x, true);
    let k = "hello".to_string();
    let get_res = tree.get(&k);
    assert_eq!(get_res.unwrap(), fake_meta_data);
    let removed_data = tree.delete(&k);
    assert_eq!(removed_data, true);
    let get_res = tree.get(&k);
    assert_eq!(get_res, None);
}

#[test]
fn keydir_test_btree_put() {
    let mut keydir = KeyDir::new();
    let fake_meta_data = MetaData::new(0, 1, 2, 3);
    let x = keydir.put("hello".to_string(), fake_meta_data);
    assert_eq!(x, true);
}

#[test]
fn keydir_test_btree_get() {
    let mut keydir = KeyDir::new();
    let fake_meta_data = MetaData::new(0, 1, 2, 3);
    let k = "hello".to_string();
    let x = keydir.put(k, fake_meta_data);
    assert_eq!(x, true);
    let k = "hello".to_string();
    let get_res = keydir.get(&k);
    assert_eq!(get_res.unwrap(), fake_meta_data);
}

#[test]
fn keydir_test_btree_delete() {
    let mut keydir = KeyDir::new();
    let fake_meta_data = MetaData::new(0, 1, 2, 3);
    let k = "hello".to_string();
    let x = keydir.put(k, fake_meta_data);
    assert_eq!(x, true);
    let k = "hello".to_string();
    let get_res = keydir.get(&k);
    assert_eq!(get_res.unwrap(), fake_meta_data);
    let removed_data = keydir.delete(&k);
    assert_eq!(removed_data, true);
    let get_res = keydir.get(&k);
    assert_eq!(get_res, None);
}

#[test]
fn test_btree_replaces_and_keeps_other_keys() {
    let mut tree = BTree::new();
    let md1 = MetaData::new(1, 10, 0, 100);
    let md2 = MetaData::new(1, 10, 10, 200);
    let md3 = MetaData::new(2, 12, 0, 300);
    assert!(tree.put("bbb".to_string(), md1));
    assert!(tree.put("aaa".to_string(), md2));
    assert!(tree.put("bbb".to_string(), md3));
    assert_eq!(tree.get(&"bbb".to_string()).unwrap(), md3);
    assert_eq!(tree.get(&"aaa".to_string()).unwrap(), md2);
    assert_eq!(tree.get(&"ccc".to_string()), None);
    assert_eq!(tree.delete(&"ccc".to_string()), false);
}

#[test]
fn test_new_indexer_variants() {
    let fake_meta_data = MetaData::new(0, 1, 2, 3);

    let mut hash = new_indexer(IndexType::Hash);
    assert!(hash.put("hello".to_string(), fake_meta_data));
    assert_eq!(hash.get(&"hello".to_string()).unwrap(), fake_meta_data);
    assert!(hash.delete(&"hello".to_string()));
    assert_eq!(hash.get(&"hello".to_string()), None);

    let mut ordered = new_indexer(IndexType::BTree);
    assert!(ordered.put("hello".to_string(), fake_meta_data));
    assert_eq!(ordered.get(&"hello".to_string()).unwrap(), fake_meta_data);
    assert!(ordered.delete(&"hello".to_string()));
    assert_eq!(ordered.get(&"hello".to_string()), None);
}
