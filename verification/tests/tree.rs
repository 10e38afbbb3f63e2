use fairshare::rat::Rat;
use fairshare::tree::Tree;

fn leaf(name: &str, num: i64) -> Tree {
    Tree::Leaf { length: Rat::from_int(num), name: name.as_bytes().to_vec() }
}

#[test]
fn leaf_count_of_a_leaf_is_one() {
    assert_eq!(leaf("a", 0).size(), Some(1));
}

#[test]
fn leaf_count_sums_over_children() {
    let t = Tree::Node {
        length: Rat::zero(),
        children: vec![
            leaf("a", 1),
            Tree::Node { length: Rat::from_int(2), children: vec![leaf("b", 0), leaf("c", 0)] },
        ],
    };
    assert_eq!(t.size(), Some(3));
}

#[test]
fn childless_internal_node_counts_zero_leaves() {
    let t = Tree::Node { length: Rat::from_int(7), children: vec![] };
    assert_eq!(t.size(), Some(0));
}

#[test]
fn walk_emits_one_pair_per_leaf_in_tree_order() {
    let t = Tree::Node {
        length: Rat::from_int(6),
        children: vec![leaf("x", 1), leaf("y", 2), leaf("z", 3)],
    };
    let pairs = t.walk(Rat::zero()).unwrap();
    assert_eq!(pairs.len(), 3);
    assert_eq!(pairs[0].1, b"x".to_vec());
    assert_eq!(pairs[1].1, b"y".to_vec());
    assert_eq!(pairs[2].1, b"z".to_vec());
    // each leaf gets 6/3 = 2 plus its own length
    assert!(pairs[0].0.eq_value(&Rat::from_int(3)));
    assert!(pairs[1].0.eq_value(&Rat::from_int(4)));
    assert!(pairs[2].0.eq_value(&Rat::from_int(5)));
}

#[test]
fn walk_of_zero_leaf_subtree_is_empty() {
    let t = Tree::Node { length: Rat::from_int(9), children: vec![] };
    let pairs = t.walk(Rat::zero()).unwrap();
    assert!(pairs.is_empty());
}

#[test]
fn rational_arithmetic_is_exact() {
    let third = Rat::new(1, 3).unwrap();
    let six = Rat::from_int(6);
    let sum = third.add(&six).unwrap();
    assert!(sum.eq_value(&Rat::new(19, 3).unwrap()));
    let divided = six.div_int(4).unwrap();
    assert!(divided.eq_value(&Rat::new(3, 2).unwrap()));
    assert!(Rat::new(1, 0).is_none());
    assert!(Rat::new(2, 4).unwrap().eq_value(&Rat::new(1, 2).unwrap()));
    assert!(Rat::new(-1, 2).unwrap().le_value(&Rat::zero()));
}
