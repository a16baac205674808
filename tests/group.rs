use certified::{
    AsHashTree, CertifiedMap, Group, GroupBuilder, GroupLeaf, GroupNode, GroupNodeInner, HashTree,
};

type StringToI8Map = CertifiedMap<String, i8>;

fn labeled(name: &str, child: GroupNode) -> GroupNode {
    GroupNode {
        id: 0,
        data: GroupNodeInner::Labeled(name.as_bytes().to_vec(), Box::new(child)),
    }
}

fn leaf(tag: usize) -> GroupNode {
    GroupNode {
        id: 0,
        data: GroupNodeInner::Leaf(tag),
    }
}

fn fork(a: GroupNode, b: GroupNode) -> GroupNode {
    GroupNode {
        id: 0,
        data: GroupNodeInner::Fork(Box::new(a), Box::new(b)),
    }
}

fn map_witness(group: &Group<GroupLeaf<StringToI8Map, i8>>, key: &str) -> HashTree {
    match group.get(0) {
        GroupLeaf::First(map) => map.witness(&key.to_string()),
        GroupLeaf::Second(_) => unreachable!(),
    }
}

#[test]
fn yyy() {
    let mut map = StringToI8Map::new();
    map.insert("X".to_string(), 17);

    let root = fork(labeled("A", leaf(0)), leaf(1));
    let group = Group::init(root, vec![GroupLeaf::First(map), GroupLeaf::Second(17i8)]);

    let t1 = group.witness().build();
    let t2 = group.witness().full(1).build();
    let t3 = group.witness().full(0).build();
    let t4 = group.witness().partial(0, map_witness(&group, "X")).build();

    assert_eq!(t1.reconstruct(), t2.reconstruct());
    assert_eq!(t1.reconstruct(), t3.reconstruct());
    assert_eq!(t1.reconstruct(), t4.reconstruct());

    println!("{:#?}", t4);
}

#[test]
fn builder_xxx() {
    let map = StringToI8Map::new();
    let mut group = GroupBuilder::new()
        .insert(vec!["a".to_string(), "x".to_string()], GroupLeaf::First(map))
        .insert(
            vec!["a".to_string(), "y".to_string()],
            GroupLeaf::Second(GroupLeaf::First(17u8)),
        )
        .insert(
            vec!["a".to_string(), "z".to_string()],
            GroupLeaf::Second(GroupLeaf::Second(32u32)),
        )
        .build();

    match group.get_mut(1) {
        GroupLeaf::Second(GroupLeaf::First(v)) => println!("{:?}", v),
        _ => unreachable!(),
    }
}

#[test]
fn group_witnesses_match_full_tree() {
    let mut map = StringToI8Map::new();
    map.insert("X".to_string(), 17);
    map.insert("Y".to_string(), -3);
    let root = fork(labeled("A", leaf(0)), leaf(1));
    let group = Group::init(root, vec![GroupLeaf::First(map), GroupLeaf::Second(5i8)]);
    let full = group.as_hash_tree().reconstruct();
    assert_eq!(full, group.root_hash());
    assert_eq!(group.witness().build().reconstruct(), full);
    assert_eq!(group.witness().full(0).full(1).build().reconstruct(), full);
    assert_eq!(
        group.witness().partial(0, map_witness(&group, "Y")).full(1).build().reconstruct(),
        full
    );
}

#[test]
fn witness_of_one_leaf_prunes_the_other() {
    let mut map = StringToI8Map::new();
    map.insert("X".to_string(), 17);
    let root = fork(labeled("A", leaf(0)), leaf(1));
    let group = Group::init(root, vec![GroupLeaf::First(map), GroupLeaf::Second(5i8)]);
    match group.witness().full(1).build() {
        HashTree::Fork(left, right) => {
            assert!(matches!(*left, HashTree::Pruned(_)));
            assert!(matches!(*right, HashTree::Leaf(_)));
        }
        _ => panic!("expected a fork"),
    }
    assert!(matches!(group.witness().build(), HashTree::Pruned(_)));
}

#[test]
fn builder_folds_siblings_into_balanced_forks() {
    let group = GroupBuilder::new()
        .insert(vec!["a".to_string()], 1u32)
        .insert(vec!["b".to_string()], 2u32)
        .insert(vec!["c".to_string()], 3u32)
        .build();
    // Three siblings: (a, b) pair up, c is carried, then ((a, b), c).
    match group.as_hash_tree() {
        HashTree::Fork(left, right) => {
            assert!(matches!(*left, HashTree::Fork(_, _)));
            match *right {
                HashTree::Labeled(name, _) => assert_eq!(name, b"c".to_vec()),
                _ => panic!("expected a labeled node"),
            }
        }
        _ => panic!("expected a fork"),
    }
    assert_eq!(group.leaf_count(), 3);
    assert_eq!(*group.get(2), 3);
}

#[test]
fn builder_sorts_names() {
    let group = GroupBuilder::new()
        .insert(vec!["b".to_string()], 2u32)
        .insert(vec!["a".to_string()], 1u32)
        .build();
    match group.as_hash_tree() {
        HashTree::Fork(left, _) => match *left {
            HashTree::Labeled(name, _) => assert_eq!(name, b"a".to_vec()),
            _ => panic!("expected a labeled node"),
        },
        _ => panic!("expected a fork"),
    }
}

#[test]
fn group_xxx() {
    let mut map = StringToI8Map::new();
    map.insert("X".to_string(), 17);

    println!("Hash : {}", hex::encode(map.root_hash()));

    let data: GroupLeaf<StringToI8Map, i8> = GroupLeaf::First(map);
    assert!(data.is());

    let as_map = match &data {
        GroupLeaf::First(m) => Some(m),
        GroupLeaf::Second(_) => None,
    };
    println!("As map: {:?}", as_map.map(|m| m.len()));
}

#[test]
fn builder_shape_ignores_insertion_order() {
    let a = GroupBuilder::new()
        .insert(vec!["b".to_string(), "y".to_string()], 2u32)
        .insert(vec!["a".to_string()], 1u32)
        .insert(vec!["b".to_string(), "x".to_string()], 3u32)
        .build();
    let b = GroupBuilder::new()
        .insert(vec!["b".to_string(), "x".to_string()], 3u32)
        .insert(vec!["a".to_string()], 1u32)
        .insert(vec!["b".to_string(), "y".to_string()], 2u32)
        .build();
    assert_eq!(a.root_hash(), b.root_hash());
}

#[test]
fn full_equals_partial_with_whole_leaf_and_empty_ray_is_root() {
    let mut map = StringToI8Map::new();
    map.insert("X".to_string(), 17);
    let root = fork(labeled("A", leaf(0)), leaf(1));
    let group = Group::init(root, vec![GroupLeaf::First(map), GroupLeaf::Second(5i8)]);
    let whole = group.get(0).as_hash_tree();
    let t1 = group.witness().full(0).build();
    let t2 = group.witness().partial(0, whole).build();
    assert_eq!(format!("{:?}", t1), format!("{:?}", t2));
    match group.witness().build() {
        HashTree::Pruned(h) => assert_eq!(h, group.root_hash()),
        _ => panic!("expected a pruned root"),
    }
}
