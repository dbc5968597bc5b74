use btree_index::{Btree, NodeType};

#[test]
fn test_tree_insertion() {
    let mut btree = Btree::new(3);
    for i in 0..10000 {
        btree.insert(i);
    }
}

#[test]
fn ascending_order_three_passes_every_node_check() {
    let mut btree = Btree::new(3);
    for i in 0..10000 {
        btree.insert(i);
    }
    check_all_nodes(&btree);
}

#[test]
fn empty_tree_finds_nothing() {
    let btree = Btree::new(3);
    assert!(!btree.search(0));
    assert!(!btree.search(i32::MIN));
    assert!(!btree.search(i32::MAX));
}

#[test]
fn single_key_is_found() {
    let mut btree = Btree::new(3);
    btree.insert(1);
    assert!(btree.search(1));
    assert!(!btree.search(0));
    assert!(!btree.search(2));
}

#[test]
fn third_key_splits_the_root_leaf() {
    let mut btree = Btree::new(3);
    btree.insert(1);
    btree.insert(2);
    btree.insert(3);
    assert!(btree.search(1));
    assert!(btree.search(2));
    assert!(btree.search(3));
    assert!(!btree.search(4));
}

#[test]
fn ascending_thousand_with_order_ten() {
    let mut btree = Btree::new(10);
    for k in 0..1000 {
        btree.insert(k);
    }
    for k in 0..1000 {
        assert!(btree.search(k), "missing {}", k);
    }
    assert!(!btree.search(1000));
    assert!(!btree.search(-1));
}

#[test]
fn ascending_inserts_order_three_all_found() {
    let mut btree = Btree::new(3);
    for k in 0..10000 {
        btree.insert(k);
    }
    for k in 0..10000 {
        assert!(btree.search(k));
    }
    assert!(!btree.search(10000));
}

#[test]
fn million_keys_with_order_ten_thousand() {
    let mut btree = Btree::new(10000);
    for k in 0..1_000_000 {
        btree.insert(k);
    }
    for k in 0..1_000_000 {
        assert!(btree.search(k), "missing {}", k);
    }
}

#[test]
fn descending_inserts_are_found() {
    let mut btree = Btree::new(4);
    for k in (0..200).rev() {
        btree.insert(k);
    }
    for k in 0..200 {
        assert!(btree.search(k));
    }
    assert!(!btree.search(200));
}

#[test]
fn duplicate_key_is_kept() {
    let mut btree = Btree::new(3);
    btree.insert(5);
    btree.insert(5);
    btree.insert(5);
    btree.insert(5);
    assert!(btree.search(5));
    assert!(!btree.search(4));
    assert!(!btree.search(6));
}

#[test]
fn extreme_keys() {
    let mut btree = Btree::new(3);
    btree.insert(i32::MAX);
    btree.insert(i32::MIN);
    btree.insert(0);
    assert!(btree.search(i32::MAX));
    assert!(btree.search(i32::MIN));
    assert!(btree.search(0));
    assert!(!btree.search(1));
}

#[test]
fn internal_split_gives_each_half_one_more_child() {
    // Order 3: 10, 20, 30, 5, 1 split an internal node; the next insert goes
    // into its left half.
    let mut btree = Btree::new(3);
    for k in [10, 20, 30, 5, 1, 9] {
        btree.insert(k);
        check_all_nodes(&btree);
    }
    for k in [10, 20, 30, 5, 1, 9] {
        assert!(btree.search(k));
    }
}

#[test]
fn seven_ascending_keys_at_order_three() {
    let mut btree = Btree::new(3);
    for k in 0..=6 {
        btree.insert(k);
    }
    let root = btree.root().expect("root");
    let top = btree.node(root);
    assert_eq!(top.keys(), &vec![3]);
    let kids = top.children();
    let left = btree.node(kids[0]);
    assert_eq!(left.keys(), &vec![1]);
    assert_eq!(left.children().len(), 2);
    let right = btree.node(kids[1]);
    assert_eq!(right.keys(), &vec![5]);
    assert_eq!(right.children().len(), 2);
    check_all_nodes(&btree);
}

fn check_all_nodes(btree: &Btree) {
    let mut stack = vec![btree.root().expect("root")];
    while let Some(h) = stack.pop() {
        let node = btree.node(h);
        assert!(node.verify_node(), "node {} fails the node check", h);
        stack.extend(node.children());
    }
}

#[test]
fn first_insert_makes_a_leaf_root() {
    let mut btree = Btree::new(3);
    assert_eq!(btree.root(), None);
    btree.insert(1);
    let root = btree.root().expect("root");
    let node = btree.node(root);
    assert_eq!(node.node_type(), NodeType::Leaf);
    assert_eq!(node.keys(), &vec![1]);
    assert!(node.children().is_empty());
}

#[test]
fn leaf_overflow_promotes_the_median() {
    let mut btree = Btree::new(3);
    btree.insert(1);
    btree.insert(2);
    let leaf = btree.root().expect("root");
    assert_eq!(btree.node(leaf).keys(), &vec![1, 2]);
    btree.insert(3);
    let root = btree.root().expect("root");
    assert_ne!(root, leaf);
    let parent = btree.node(root);
    assert_eq!(parent.node_type(), NodeType::Internal);
    assert_eq!(parent.keys(), &vec![2]);
    let kids = parent.children();
    assert_eq!(kids.len(), 2);
    // The left half keeps the median as well.
    assert_eq!(btree.node(kids[0]).keys(), &vec![1, 2]);
    assert_eq!(btree.node(kids[1]).keys(), &vec![3]);
    // Left, right and parent are new slots; the old leaf stays behind.
    assert_eq!(btree.arena_len(), 4);
    assert_eq!(kids, vec![1, 2]);
    assert_eq!(root, 3);
}

#[test]
fn root_changes_only_when_it_splits() {
    let mut btree = Btree::new(3);
    btree.insert(10);
    let first = btree.root();
    btree.insert(20);
    assert_eq!(btree.root(), first);
    btree.insert(30);
    let second = btree.root();
    assert_ne!(second, first);
    assert_eq!(depth_of_leaves(&btree), vec![1, 1]);
    btree.insert(40);
    assert_eq!(btree.root(), second);
    btree.insert(50);
    assert_eq!(btree.root(), second);
    btree.insert(60);
    btree.insert(70);
    assert_ne!(btree.root(), second);
    let depths = depth_of_leaves(&btree);
    assert!(depths.iter().all(|&d| d == 2), "{:?}", depths);
}

fn depth_of_leaves(btree: &Btree) -> Vec<usize> {
    let mut out = Vec::new();
    let mut stack = vec![(btree.root().expect("root"), 0usize)];
    while let Some((h, d)) = stack.pop() {
        let node = btree.node(h);
        match node.node_type() {
            NodeType::Leaf => out.push(d),
            NodeType::Internal => {
                for c in node.children() {
                    stack.push((c, d + 1));
                }
            }
        }
    }
    out
}

fn check_order(btree: &Btree, h: usize, lo: Option<i32>, hi: Option<i32>) {
    let node = btree.node(h);
    let keys = node.keys();
    assert!(!keys.is_empty());
    for w in keys.windows(2) {
        assert!(w[0] <= w[1]);
    }
    for &k in keys.iter() {
        assert!(lo.map_or(true, |l| l <= k) && hi.map_or(true, |u| k <= u));
    }
    if node.node_type() == NodeType::Internal {
        let kids = node.children();
        assert_eq!(kids.len(), keys.len() + 1);
        for (j, &c) in kids.iter().enumerate() {
            let clo = if j == 0 { lo } else { Some(keys[j - 1]) };
            let chi = if j < keys.len() { Some(keys[j]) } else { hi };
            check_order(btree, c, clo, chi);
        }
    } else {
        assert!(node.children().is_empty());
    }
}

#[test]
fn mixed_order_inserts_keep_shape_and_order() {
    let mut btree = Btree::new(5);
    let mut x: i64 = 7;
    let mut inserted = Vec::new();
    for _ in 0..3000 {
        x = (x * 1103515245 + 12345) % 2147483648;
        let k = (x % 100000) as i32;
        btree.insert(k);
        inserted.push(k);
    }
    let root = btree.root().expect("root");
    check_order(&btree, root, None, None);
    let depths = depth_of_leaves(&btree);
    assert!(depths.iter().all(|&d| d == depths[0]));
    for &k in inserted.iter() {
        assert!(btree.search(k));
    }
    for k in 0..100000 {
        assert_eq!(btree.search(k), inserted.contains(&k));
    }
}

#[test]
fn mixed_inserts_pass_every_node_check() {
    let mut btree = Btree::new(4);
    let mut x: i64 = 11;
    for _ in 0..2000 {
        x = (x * 1103515245 + 12345) % 2147483648;
        btree.insert((x % 5000) as i32);
        check_all_nodes(&btree);
    }
}

#[test]
fn duplicate_lands_beside_its_copy() {
    let mut btree = Btree::new(4);
    for k in [1, 2, 3, 4, 5, 5] {
        btree.insert(k);
    }
    let root = btree.root().expect("root");
    let top = btree.node(root);
    assert_eq!(top.keys(), &vec![3]);
    let kids = top.children();
    assert_eq!(btree.node(kids[0]).keys(), &vec![1, 2, 3]);
    assert_eq!(btree.node(kids[1]).keys(), &vec![4, 5, 5]);
}
