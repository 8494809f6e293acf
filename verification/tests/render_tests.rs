use heart_rate_tree::tree::HeartRateTree;
use heart_rate_tree::tree::TreeNode;

#[test]
fn single_sample_tree_renders_epoch_line() {
    let mut tree = HeartRateTree::new();
    tree.insert(0, 72);
    assert_eq!(tree.render(), "1970-01-01T00:00:00+00:00 - 72\n");
}

#[test]
fn single_node_renders_without_newline() {
    let node = TreeNode::new(0, 72);
    assert_eq!(node.render(), "1970-01-01T00:00:00+00:00 - 72");
}

#[test]
fn lines_come_in_ascending_timestamp_order() {
    let mut tree = HeartRateTree::new();
    tree.insert(86400, 65);
    tree.insert(0, 72);
    tree.insert(1431648000, 58);
    assert_eq!(
        tree.render(),
        "1970-01-01T00:00:00+00:00 - 72\n\
         1970-01-02T00:00:00+00:00 - 65\n\
         2015-05-15T00:00:00+00:00 - 58\n"
    );
}

#[test]
fn heart_rate_digits_render_in_full() {
    let node = TreeNode::new(61, 0);
    assert_eq!(node.render(), "1970-01-01T00:01:01+00:00 - 0");
    let node = TreeNode::new(0, u32::MAX);
    assert_eq!(node.render(), "1970-01-01T00:00:00+00:00 - 4294967295");
}

#[test]
fn last_second_of_year_9999_renders() {
    let node = TreeNode::new(253402300799, 100);
    assert_eq!(node.render(), "9999-12-31T23:59:59+00:00 - 100");
}

#[test]
fn empty_tree_renders_to_nothing() {
    let tree = HeartRateTree::new();
    assert_eq!(tree.render(), "");
}
