use heart_rate_tree::tree::HeartRateTree;

fn samples_of(tree: &HeartRateTree) -> Vec<(u64, u32)> {
    let mut out: Vec<(u64, u32)> = Vec::new();
    tree.inorder_traversal(tree.get_root(), &mut out);
    out
}

fn average_of(tree: &HeartRateTree, current_time: u64) -> f32 {
    let (sum, count) = tree.window_sum_count(current_time).unwrap();
    if count == 0 {
        0.0
    } else {
        sum as f32 / count as f32
    }
}

#[test]
fn ordered_samples_are_sorted_and_complete() {
    let mut tree = HeartRateTree::new();
    let inserted = vec![(30u64, 80u32), (0, 60), (61, 100), (30, 85), (7, 55)];
    for &(ts, hr) in &inserted {
        tree.insert(ts, hr);
    }
    let listed = samples_of(&tree);
    assert_eq!(listed.len(), inserted.len());
    for w in listed.windows(2) {
        assert!(w[0].0 <= w[1].0);
    }
    let mut expected = inserted.clone();
    expected.sort();
    let mut actual = listed.clone();
    actual.sort();
    assert_eq!(actual, expected);
}

#[test]
fn equal_timestamps_keep_insertion_order() {
    let mut tree = HeartRateTree::new();
    tree.insert(5, 1);
    tree.insert(5, 2);
    tree.insert(5, 3);
    assert_eq!(samples_of(&tree), vec![(5u64, 1u32), (5, 2), (5, 3)]);

    let mut tree = HeartRateTree::new();
    tree.insert(9, 40);
    tree.insert(5, 1);
    tree.insert(5, 2);
    tree.insert(1, 30);
    tree.insert(5, 3);
    assert_eq!(
        samples_of(&tree),
        vec![(1u64, 30u32), (5, 1), (5, 2), (5, 3), (9, 40)]
    );
}

#[test]
fn window_average_inclusive_bounds() {
    let mut tree = HeartRateTree::new();
    tree.insert(0, 60);
    tree.insert(30, 80);
    tree.insert(61, 100);
    let (sum, count) = tree.window_sum_count(60).unwrap();
    assert_eq!((sum, count), (140, 2));
    assert_eq!(average_of(&tree, 60), 70.0);
    // one second later the window [1, 61] drops t=0 and picks up t=61
    let (sum, count) = tree.window_sum_count(61).unwrap();
    assert_eq!((sum, count), (180, 2));
}

#[test]
fn empty_tree_averages_to_zero() {
    let tree = HeartRateTree::new();
    assert_eq!(tree.window_sum_count(0).unwrap(), (0, 0));
    assert_eq!(tree.window_sum_count(123).unwrap(), (0, 0));
    assert_eq!(tree.window_sum_count(u64::MAX).unwrap(), (0, 0));
    assert_eq!(average_of(&tree, 42), 0.0);
}

#[test]
fn early_window_saturates_at_epoch() {
    let mut tree = HeartRateTree::new();
    tree.insert(0, 60);
    // current_time below 60: the window start clamps to 0, no underflow
    let (sum, count) = tree.window_sum_count(10).unwrap();
    assert_eq!((sum, count), (60, 1));
    assert_eq!(average_of(&tree, 10), 60.0);
}

#[test]
fn sum_and_count_over_explicit_interval() {
    let mut tree = HeartRateTree::new();
    tree.insert(10, 50);
    tree.insert(20, 70);
    tree.insert(30, 90);
    let (sum, count) = HeartRateTree::sum_and_count(tree.get_root(), 15, 30);
    assert_eq!((sum, count), (160, 2));
    let (sum, count) = HeartRateTree::sum_and_count(tree.get_root(), 0, 5);
    assert_eq!((sum, count), (0, 0));
}
