use certified::{AsHashTree, CertifiedSeq, HashTree};

#[test]
fn append_grows_in_order() {
    let mut seq = CertifiedSeq::<u32>::new();
    assert!(seq.is_empty());
    seq.append(10);
    seq.append(20);
    seq.append(30);
    assert_eq!(seq.len(), 3);
    assert_eq!(seq.get(0), Some(&10));
    assert_eq!(seq.get(2), Some(&30));
    assert_eq!(seq.get(3), None);
}

#[test]
fn seq_hash_depends_on_order() {
    let mut a = CertifiedSeq::<u32>::new();
    a.append(1);
    a.append(2);
    let mut b = CertifiedSeq::<u32>::new();
    b.append(2);
    b.append(1);
    assert_ne!(a.root_hash(), b.root_hash());
    assert_eq!(a.root_hash(), a.as_hash_tree().reconstruct());
}

#[test]
fn seq_items_are_labeled_by_big_endian_index() {
    let mut seq = CertifiedSeq::<u32>::new();
    seq.append(7);
    match seq.as_hash_tree() {
        HashTree::Fork(_, right) => match *right {
            HashTree::Fork(item, _) => match *item {
                HashTree::Labeled(label, _) => assert_eq!(label, vec![0, 0, 0, 0, 0, 0, 0, 0]),
                _ => panic!("expected a labeled item"),
            },
            _ => panic!("expected a fork"),
        },
        _ => panic!("expected a fork"),
    }
}

#[test]
fn default_collections_are_empty() {
    let seq: CertifiedSeq<u32> = Default::default();
    assert!(seq.is_empty());
    let map: certified::CertifiedMap<String, u32> = Default::default();
    assert!(map.is_empty());
}
