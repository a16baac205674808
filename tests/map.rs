use certified::{AsHashTree, CertifiedMap, CertifiedSeq};

#[test]
fn insert() {
    let mut map = CertifiedMap::<String, u32>::new();
    assert_eq!(map.insert("A".into(), 0), None);
    assert_eq!(map.insert("A".into(), 1), Some(0));
    assert_eq!(map.insert("B".into(), 2), None);
    assert_eq!(map.insert("C".into(), 3), None);
    assert_eq!(map.insert("B".into(), 4), Some(2));
    assert_eq!(map.insert("C".into(), 5), Some(3));
    assert_eq!(map.insert("B".into(), 6), Some(4));
    assert_eq!(map.insert("C".into(), 7), Some(5));
    assert_eq!(map.insert("A".into(), 8), Some(1));

    assert_eq!(map.get(&"A".into()), Some(&8));
    assert_eq!(map.get(&"B".into()), Some(&6));
    assert_eq!(map.get(&"C".into()), Some(&7));
    assert_eq!(map.get(&"D".into()), None);
}

#[test]
fn remove() {
    let mut map = CertifiedMap::<String, u32>::new();

    for i in 0..200u32 {
        map.insert(hex::encode(&i.to_be_bytes()), i);
    }

    for i in 0..200u32 {
        assert_eq!(map.remove(&hex::encode(&i.to_be_bytes())), Some(i));
    }

    for i in 0..200u32 {
        assert_eq!(map.get(&hex::encode(&i.to_be_bytes())), None);
    }
}

#[test]
fn remove_rev() {
    let mut map = CertifiedMap::<String, u32>::new();

    for i in 0..200u32 {
        map.insert(hex::encode(&i.to_be_bytes()), i);
    }

    for i in (0..200u32).rev() {
        assert_eq!(map.remove(&hex::encode(&i.to_be_bytes())), Some(i));
    }

    for i in 0..200u32 {
        assert_eq!(map.get(&hex::encode(&i.to_be_bytes())), None);
    }
}

#[test]
fn deletions_leave_the_map_empty() {
    let mut map = CertifiedMap::<String, u32>::new();
    for i in 0..200u32 {
        map.insert(hex::encode(&i.to_be_bytes()), i);
    }
    assert_eq!(map.len(), 200);
    for i in 0..200u32 {
        map.remove(&hex::encode(&i.to_be_bytes()));
    }
    assert!(map.is_empty());
    assert_eq!(map.root_hash(), CertifiedMap::<String, u32>::new().root_hash());
}

#[test]
fn insertion_order_does_not_change_root_hash() {
    let keys = ["delta", "alpha", "echo", "charlie", "bravo", "foxtrot", "golf"];
    let mut a = CertifiedMap::<String, u32>::new();
    for (i, k) in keys.iter().enumerate() {
        a.insert(k.to_string(), i as u32);
    }
    let mut b = CertifiedMap::<String, u32>::new();
    for (i, k) in keys.iter().enumerate().rev() {
        b.insert(k.to_string(), i as u32);
    }
    assert_eq!(a.root_hash(), b.root_hash());

    let mut c = CertifiedMap::<String, u32>::new();
    for (i, k) in keys.iter().enumerate() {
        c.insert(k.to_string(), i as u32 + 1);
    }
    assert_ne!(a.root_hash(), c.root_hash());
}

#[test]
fn round_trip_insert_get_remove() {
    let mut map = CertifiedMap::<String, u32>::new();
    map.insert("k".to_string(), 42);
    assert_eq!(map.get(&"k".to_string()), Some(&42));
    assert_eq!(map.remove(&"k".to_string()), Some(42));
    assert_eq!(map.get(&"k".to_string()), None);
    assert_eq!(map.remove(&"k".to_string()), None);
}

#[test]
fn remove_entry_returns_key_and_value() {
    let mut map = CertifiedMap::<String, u32>::new();
    map.insert("a".to_string(), 1);
    let (k, v) = map.remove_entry(&"a".to_string()).unwrap();
    assert_eq!(k, "a");
    assert_eq!(v, 1);
    assert!(map.remove_entry(&"a".to_string()).is_none());
}

#[test]
fn entry_inserts_only_when_absent() {
    let mut map = CertifiedMap::<String, u32>::new();
    assert!(map.entry("a".to_string(), 5));
    assert!(!map.entry("a".to_string(), 6));
    assert_eq!(map.get(&"a".to_string()), Some(&5));
}

#[test]
fn clear_empties() {
    let mut map = CertifiedMap::<String, u32>::new();
    map.insert("a".to_string(), 1);
    map.clear();
    assert!(map.is_empty());
    assert_eq!(map.len(), 0);
}

#[test]
fn iter_is_in_label_order() {
    let mut map = CertifiedMap::<String, u32>::new();
    map.insert("c".to_string(), 3);
    map.insert("a".to_string(), 1);
    map.insert("b".to_string(), 2);
    let keys: Vec<String> = map.iter().into_iter().map(|(k, _)| k.clone()).collect();
    assert_eq!(keys, vec!["a".to_string(), "b".to_string(), "c".to_string()]);
    let values: Vec<u32> = map.iter().into_iter().map(|(_, v)| *v).collect();
    assert_eq!(values, vec![1, 2, 3]);
}

#[test]
fn witness_reconstructs_to_root_hash() {
    let mut map = CertifiedMap::<String, u32>::new();
    for i in 0..20u32 {
        map.insert(format!("key{}", i), i);
    }
    let root = map.root_hash();
    for i in 0..22u32 {
        let w = map.witness(&format!("key{}", i));
        assert_eq!(w.reconstruct(), root);
    }
    assert_eq!(map.as_hash_tree().reconstruct(), root);
}

#[test]
fn empty_map_hash_is_hash_of_empty_tree() {
    let map = CertifiedMap::<String, u32>::new();
    assert_eq!(
        hex::encode(map.root_hash()),
        "4e3ed35c4e2d1ee89996483fb6260a64cffb6c47dbab216e7930e82f8190d120"
    );
}

#[test]
fn single_entry_root_hash() {
    let mut map = CertifiedMap::<String, u32>::new();
    map.insert("a".to_string(), 7);
    assert_eq!(
        hex::encode(map.root_hash()),
        "a0d34d6f6192d3c1dc553e01c1fef2f41d8054d164263c83c4be71a238ab5ea8"
    );
}

#[test]
fn leaf_hash_value() {
    assert_eq!(
        hex::encode(certified::hashtree::leaf_hash(b"hello")),
        "99cf694471b0e9c54db36120f914f12537b3a7417c301e10851f341f4d5ca14a"
    );
}

#[test]
fn append_deep_and_len_deep() {
    let mut map = CertifiedMap::<String, CertifiedSeq<u32>>::new();
    assert_eq!(map.len_deep(&"a".to_string()), 0);
    map.append_deep("a".to_string(), 1);
    map.append_deep("a".to_string(), 2);
    map.append_deep("b".to_string(), 3);
    assert_eq!(map.len_deep(&"a".to_string()), 2);
    assert_eq!(map.len_deep(&"b".to_string()), 1);
    let seq = map.get(&"a".to_string()).unwrap();
    assert_eq!(seq.get(0), Some(&1));
    assert_eq!(seq.get(1), Some(&2));
    assert_eq!(seq.get(2), None);
}

fn shown_labels(t: &certified::HashTree, out: &mut Vec<Vec<u8>>) {
    match t {
        certified::HashTree::Fork(a, b) => {
            shown_labels(a, out);
            shown_labels(b, out);
        }
        certified::HashTree::Labeled(l, c) => {
            out.push(l.clone());
            shown_labels(c, out);
        }
        _ => {}
    }
}

#[test]
fn absent_key_witness_shows_both_neighbours() {
    let mut map = CertifiedMap::<String, u32>::new();
    for k in ["a", "c", "e", "g"] {
        map.insert(k.to_string(), 1);
    }
    let w = map.witness(&"d".to_string());
    assert_eq!(w.reconstruct(), map.root_hash());
    let mut labels = Vec::new();
    shown_labels(&w, &mut labels);
    labels.sort();
    assert_eq!(labels, vec![b"c".to_vec(), b"e".to_vec()]);

    let w = map.witness(&"e".to_string());
    let mut labels = Vec::new();
    shown_labels(&w, &mut labels);
    assert_eq!(labels, vec![b"e".to_vec()]);
}
