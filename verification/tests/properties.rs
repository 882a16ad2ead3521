use simple_tree::Bound;
use simple_tree::SimpleTree;

fn all_keys(tree: &SimpleTree<i64>) -> Vec<i64> {
    tree.range(Bound::Unbounded, Bound::Unbounded).iter().map(|(k, _)| *k).collect()
}

#[test]
fn ascending_no_duplicates() {
    let mut tree = SimpleTree::default();
    // Insert in a scrambled order, with repeats.
    for k in [5, 3, 9, 1, 3, 7, 5, 11, 2, 9] {
        tree.insert(k, k * 10);
    }
    assert_eq!(all_keys(&tree), vec![1, 2, 3, 5, 7, 9, 11]);
}

#[test]
fn insert_then_get_round_trip() {
    let mut tree = SimpleTree::default();
    for k in 0..200 {
        tree.insert(k * 3, k + 1);
    }
    for k in 0..200 {
        assert_eq!(tree.get(&(k * 3)), Some(&(k * 3, k + 1)));
    }
    assert!(tree.get(&1).is_none());
    assert!(tree.get(&-5).is_none());
}

#[test]
fn upsert_updates_value_keeps_keys() {
    let mut tree = SimpleTree::default();
    for k in 0..100 {
        tree.insert(k, 0);
    }
    let before = all_keys_values(&tree).len();
    for k in 0..100 {
        tree.insert(k, k + 1000);
    }
    assert_eq!(all_keys_values(&tree).len(), before);
    for k in 0..100 {
        assert_eq!(tree.get(&k), Some(&(k, k + 1000)));
    }
}

fn all_keys_values(tree: &SimpleTree<i64>) -> Vec<(i64, i64)> {
    tree.range(Bound::Unbounded, Bound::Unbounded)
}

#[test]
fn remove_returns_old_entry() {
    let mut tree = SimpleTree::default();
    for k in 0..500 {
        tree.insert(k, -k);
    }
    assert_eq!(tree.remove(&123), Some((123, -123)));
    assert!(tree.get(&123).is_none());
    assert_eq!(tree.remove(&123), None);
    assert_eq!(tree.remove(&9999), None);
    assert_eq!(all_keys(&tree).len(), 499);
}

#[test]
fn remove_all_in_every_order_leaves_empty() {
    // Ascending removal, descending removal, and inside-out removal all end
    // in an empty tree; each order exercises different merge and collapse
    // paths, predecessor replacement included.
    let n: i64 = 600;
    let build = || {
        let mut tree = SimpleTree::default();
        for k in 0..n {
            tree.insert(k, ());
        }
        tree
    };

    let mut t1 = build();
    for k in 0..n {
        assert!(t1.remove(&k).is_some());
    }
    assert!(t1.range(Bound::Unbounded, Bound::Unbounded).is_empty());

    let mut t2 = build();
    for k in (0..n).rev() {
        assert!(t2.remove(&k).is_some());
    }
    assert!(t2.range(Bound::Unbounded, Bound::Unbounded).is_empty());

    let mut t3 = build();
    let mut lo = n / 2;
    let mut hi = n / 2 + 1;
    assert!(t3.remove(&lo).is_some());
    while lo > 0 || hi < n {
        if lo > 0 {
            lo -= 1;
            assert!(t3.remove(&lo).is_some());
        }
        if hi < n {
            assert!(t3.remove(&hi).is_some());
            hi += 1;
        }
    }
    assert!(t3.range(Bound::Unbounded, Bound::Unbounded).is_empty());
}

#[test]
fn range_bound_kinds() {
    let mut tree = SimpleTree::default();
    for k in [10, 20, 30, 40, 50] {
        tree.insert(k, ());
    }
    let keys = |lo: Bound, hi: Bound| -> Vec<i64> {
        tree.range(lo, hi).iter().map(|(k, _)| *k).collect()
    };
    assert_eq!(keys(Bound::Unbounded, Bound::Unbounded), vec![10, 20, 30, 40, 50]);
    assert_eq!(keys(Bound::Included(20), Bound::Included(40)), vec![20, 30, 40]);
    assert_eq!(keys(Bound::Excluded(20), Bound::Excluded(40)), vec![30]);
    assert_eq!(keys(Bound::Excluded(20), Bound::Included(40)), vec![30, 40]);
    assert_eq!(keys(Bound::Included(20), Bound::Excluded(40)), vec![20, 30]);
    assert_eq!(keys(Bound::Unbounded, Bound::Excluded(10)), vec![]);
    assert_eq!(keys(Bound::Excluded(50), Bound::Unbounded), vec![]);
    assert_eq!(keys(Bound::Included(11), Bound::Included(19)), vec![]);
    assert_eq!(keys(Bound::Included(50), Bound::Included(10)), vec![]);
}

#[test]
fn range_matches_reference_filter() {
    let mut tree = SimpleTree::default();
    let keys: Vec<i64> = (0..300).map(|k| k * 7 % 301).collect();
    for &k in &keys {
        tree.insert(k, k);
    }
    let mut sorted = keys.clone();
    sorted.sort();
    sorted.dedup();
    for lo in [-1, 0, 3, 150, 299, 400] {
        for hi in [-1, 0, 10, 151, 300, 500] {
            let expected: Vec<i64> =
                sorted.iter().cloned().filter(|k| *k > lo && *k <= hi).collect();
            let got: Vec<i64> = tree
                .range(Bound::Excluded(lo), Bound::Included(hi))
                .iter()
                .map(|(k, _)| *k)
                .collect();
            assert_eq!(got, expected);
        }
    }
}

#[test]
fn empty_tree_operations() {
    let mut tree: SimpleTree<()> = SimpleTree::default();
    assert!(tree.get(&0).is_none());
    assert!(tree.remove(&0).is_none());
    assert!(tree.range(Bound::Unbounded, Bound::Unbounded).is_empty());
    assert!(tree.range(Bound::Included(i64::MIN), Bound::Included(i64::MAX)).is_empty());
}

#[test]
fn extreme_keys() {
    let mut tree = SimpleTree::default();
    tree.insert(i64::MAX, 1);
    tree.insert(i64::MIN, 2);
    tree.insert(0, 3);
    assert_eq!(all_keys(&tree), vec![i64::MIN, 0, i64::MAX]);
    assert_eq!(tree.remove(&i64::MIN), Some((i64::MIN, 2)));
    assert_eq!(
        tree.range(Bound::Excluded(0), Bound::Unbounded),
        vec![(i64::MAX, 1)]
    );
}
