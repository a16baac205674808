use certified::{AsHashTree, CertifiedMap, CertifiedSeq, Paged, PagedKey};

#[test]
fn modify_max_with_prefix() {
    let mut data = CertifiedMap::<PagedKey<i32>, CertifiedSeq<i32>>::new();
    data.append_deep(PagedKey { key: 1, page: 0 }, 0);
    data.append_deep(PagedKey { key: 1, page: 0 }, 1);
    data.append_deep(PagedKey { key: 1, page: 0 }, 2);
    data.append_deep(PagedKey { key: 1, page: 1 }, 3);
    data.append_deep(PagedKey { key: 1, page: 1 }, 4);
    data.append_deep(PagedKey { key: 1, page: 1 }, 5);
    data.append_deep(PagedKey { key: 1, page: 2 }, 18);

    data.append_deep(PagedKey { key: 3, page: 0 }, 6);
    data.append_deep(PagedKey { key: 3, page: 0 }, 7);
    data.append_deep(PagedKey { key: 3, page: 0 }, 8);
    data.append_deep(PagedKey { key: 3, page: 1 }, 9);
    data.append_deep(PagedKey { key: 3, page: 1 }, 10);
    data.append_deep(PagedKey { key: 3, page: 1 }, 11);

    data.append_deep(PagedKey { key: 5, page: 0 }, 12);
    data.append_deep(PagedKey { key: 5, page: 0 }, 13);
    data.append_deep(PagedKey { key: 5, page: 0 }, 14);
    data.append_deep(PagedKey { key: 5, page: 1 }, 15);
    data.append_deep(PagedKey { key: 5, page: 1 }, 16);
    data.append_deep(PagedKey { key: 5, page: 1 }, 17);

    assert!(data.max_entry_with_prefix(&0).is_none());

    let (k, _) = data.max_entry_with_prefix(&1).unwrap();
    assert_eq!((k.key, k.page), (1, 2));

    assert!(data.max_entry_with_prefix(&2).is_none());

    let (k, _) = data.max_entry_with_prefix(&3).unwrap();
    assert_eq!((k.key, k.page), (3, 1));

    assert!(data.max_entry_with_prefix(&4).is_none());

    let (k, _) = data.max_entry_with_prefix(&5).unwrap();
    assert_eq!((k.key, k.page), (5, 1));

    assert!(data.max_entry_with_prefix(&6).is_none());
}

#[test]
fn prefix_max_returns_the_last_page_value() {
    let mut data = CertifiedMap::<PagedKey<i32>, CertifiedSeq<i32>>::new();
    data.append_deep(PagedKey { key: 1, page: 0 }, 0);
    data.append_deep(PagedKey { key: 1, page: 1 }, 3);
    data.append_deep(PagedKey { key: 3, page: 0 }, 6);
    data.append_deep(PagedKey { key: 3, page: 1 }, 9);
    data.append_deep(PagedKey { key: 1, page: 2 }, 18);
    let (k, v) = data.max_entry_with_prefix(&1).unwrap();
    assert_eq!((k.key, k.page), (1, 2));
    assert_eq!(v.get(0), Some(&18));
}

#[test]
fn paging_fills_pages_in_order() {
    let mut paged = Paged::<u32, u32, 3>::new();
    for i in 0..7u32 {
        assert!(paged.insert(9, i));
    }
    assert_eq!(paged.get_last_page_number(&9), Some(2));
    assert_eq!(paged.get(&9, 0).unwrap().len(), 3);
    assert_eq!(paged.get(&9, 1).unwrap().len(), 3);
    assert_eq!(paged.get(&9, 2).unwrap().len(), 1);
    assert!(paged.get(&9, 3).is_none());
    assert_eq!(paged.get(&9, 1).unwrap().get(0), Some(&3));
    assert_eq!(paged.get(&9, 2).unwrap().get(0), Some(&6));
}

#[test]
fn paging_with_capacity_one() {
    let mut paged = Paged::<u32, u32, 1>::new();
    for i in 0..3u32 {
        paged.insert(4, i);
    }
    assert_eq!(paged.get_last_page_number(&4), Some(2));
    assert_eq!(paged.get(&4, 2).unwrap().len(), 1);
}

#[test]
fn paging_keeps_keys_apart() {
    let mut paged = Paged::<u32, u32, 2>::new();
    paged.insert(1, 10);
    paged.insert(2, 20);
    paged.insert(1, 11);
    paged.insert(1, 12);
    assert_eq!(paged.get_last_page_number(&1), Some(1));
    assert_eq!(paged.get_last_page_number(&2), Some(0));
    assert_eq!(paged.get_last_page_number(&3), None);
    assert!(paged.get(&3, 0).is_none());
}

#[test]
fn paged_witnesses_reconstruct_to_root_hash() {
    let mut paged = Paged::<u32, u32, 2>::new();
    for i in 0..5u32 {
        paged.insert(1, i);
    }
    let root = paged.root_hash();
    assert_eq!(paged.witness(&1, 0).reconstruct(), root);
    assert_eq!(paged.witness(&1, 2).reconstruct(), root);
    assert_eq!(paged.witness_last_page_number(&1).reconstruct(), root);
    assert_eq!(paged.witness_last_page_number(&7).reconstruct(), root);
    assert_eq!(paged.as_hash_tree().reconstruct(), root);
}
