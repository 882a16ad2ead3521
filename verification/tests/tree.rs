use simple_tree::Bound;
use simple_tree::SimpleTree;

fn in_order_traversal(tree: &SimpleTree<()>) -> Vec<i64> {
    tree.range(Bound::Unbounded, Bound::Unbounded).iter().map(|(k, _)| *k).collect()
}

/// A small deterministic generator, so the randomized workloads are
/// reproducible.
fn next_rand(state: &mut u64) -> u64 {
    let mut x = *state;
    x ^= x << 13;
    x ^= x >> 7;
    x ^= x << 17;
    *state = x;
    x
}

fn rand_i32(state: &mut u64) -> i64 {
    next_rand(state) as u32 as i32 as i64
}

#[test]
fn test_remove() {
    let mut tree = SimpleTree::default();

    let keys = vec![10, 20, 30, 40, 50, 60, 70, 80, 90, 100, 110, 120, 130, 140, 150];
    for &key in &keys {
        tree.insert(key, ());
    }

    tree.remove(&150);
    assert_eq!(
        in_order_traversal(&tree),
        vec![10, 20, 30, 40, 50, 60, 70, 80, 90, 100, 110, 120, 130, 140]
    );

    tree.remove(&70);
    assert_eq!(
        in_order_traversal(&tree),
        vec![10, 20, 30, 40, 50, 60, 80, 90, 100, 110, 120, 130, 140]
    );

    tree.remove(&999);
    assert_eq!(
        in_order_traversal(&tree),
        vec![10, 20, 30, 40, 50, 60, 80, 90, 100, 110, 120, 130, 140]
    );

    tree.remove(&40);
    assert_eq!(
        in_order_traversal(&tree),
        vec![10, 20, 30, 50, 60, 80, 90, 100, 110, 120, 130, 140]
    );

    for &key in &[10, 20, 30, 50, 60, 80, 90, 100, 110, 120, 130, 140] {
        tree.remove(&key);
    }
    assert!(in_order_traversal(&tree).is_empty());
}

#[test]
fn test_range() {
    let mut state: u64 = 0x9e3779b97f4a7c15;
    let mut tree = SimpleTree::default();
    let mut keys: Vec<i64> = (0..20).map(|_| rand_i32(&mut state)).collect();
    keys.sort();
    keys.dedup();
    for &k in &keys {
        tree.insert(k, ());
    }
    let collect_tree_keys = |start: Bound, end: Bound| -> Vec<i64> {
        tree.range(start, end).iter().map(|(k, _)| *k).collect::<Vec<_>>()
    };

    for _ in 0..100 {
        let a = keys[(next_rand(&mut state) % keys.len() as u64) as usize];
        let b = keys[(next_rand(&mut state) % keys.len() as u64) as usize];
        let (start, end) = if a <= b { (a, b) } else { (b, a) };

        let expected: Vec<i64> = keys.iter().cloned().filter(|k| *k >= start && *k < end).collect();

        let result = collect_tree_keys(Bound::Included(start), Bound::Excluded(end));

        assert_eq!(result, expected, "range({start:?}..{end:?}) mismatch",);
    }
    let full: Vec<i64> = tree
        .range(Bound::Unbounded, Bound::Unbounded)
        .iter()
        .map(|(k, _)| *k)
        .collect();
    assert_eq!(full, keys);
}

#[test]
fn test_random() {
    let mut state: u64 = 0x2545f4914f6cdd1d;
    let mut tree = SimpleTree::default();
    let mut keys: Vec<i64> = vec![];
    for _ in 0..10_000 {
        keys.push(rand_i32(&mut state));
    }
    keys.sort();
    keys.dedup();
    // Shuffle the keys into a fresh order.
    for i in (1..keys.len()).rev() {
        let j = (next_rand(&mut state) % (i as u64 + 1)) as usize;
        keys.swap(i, j);
    }

    for &k in &keys {
        tree.insert(k, ());
        assert!(tree.remove(&k).is_some());
        tree.insert(k, ());
    }
    println!("{:?}", tree.range(Bound::Unbounded, Bound::Unbounded));
    for k in &keys {
        assert!(tree.get(k).is_some());
        assert!(tree.remove(k).is_some());
    }
    assert!(tree.range(Bound::Unbounded, Bound::Unbounded).first().is_none());
}
