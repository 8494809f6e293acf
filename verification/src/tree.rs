use crate::order::count_le;
use crate::order::lemma_count_le_add;
use crate::order::lemma_count_le_all_above;
use crate::order::lemma_count_le_all_at_or_below;
use crate::order::lemma_count_le_bounds;
use crate::order::lemma_insert_into_left;
use crate::order::lemma_insert_into_right;
use crate::order::lemma_insert_keeps_ties_in_order;
use crate::order::lemma_insert_to_multiset;
use crate::order::sorted_by_ts;
use crate::window::lemma_win_add;
use crate::window::lemma_win_bounds;
use crate::window::lemma_win_singleton;
use crate::window::win_count;
use crate::window::win_start;
use crate::window::win_sum;
use vstd::prelude::*;

verus! {

/// One timestamped heart-rate sample stored in a tree node. A node owns its
/// two optional children; every key (timestamp) in the left subtree is
/// strictly below this node's, every key in the right subtree is at or above
/// it.
pub struct TreeNode {
    pub timestamp: u64,
    pub heart_rate: u32,
    pub left: Option<Box<TreeNode>>,
    pub right: Option<Box<TreeNode>>,
}

impl TreeNode {
    /// In-order sequence of the samples of an optional subtree.
    pub open spec fn seq_of(node: Option<Box<TreeNode>>) -> Seq<(u64, u32)>
        decreases node,
    {
        match node {
            None => Seq::empty(),
            Some(n) => n.as_seq(),
        }
    }

    /// In-order sequence of the samples of the tree rooted at `self`.
    pub open spec fn as_seq(self) -> Seq<(u64, u32)>
        decreases self,
    {
        TreeNode::seq_of(self.left) + seq![(self.timestamp, self.heart_rate)]
            + TreeNode::seq_of(self.right)
    }

    pub fn new(timestamp: u64, heart_rate: u32) -> (node: Self)
        ensures
            node == (TreeNode { timestamp, heart_rate, left: None, right: None }),
            node.as_seq() == seq![(timestamp, heart_rate)],
            node.well_formed(),
    {
        let node = TreeNode { timestamp, heart_rate, left: None, right: None };
        proof {
            assert(node.as_seq() =~= seq![(timestamp, heart_rate)]);
        }
        node
    }

    /// The search-tree ordering: left keys strictly below, right keys at or
    /// above, recursively.
    pub open spec fn well_formed(self) -> bool
        decreases self,
    {
        &&& forall|i: int|
            0 <= i < TreeNode::seq_of(self.left).len() ==> (
            #[trigger] TreeNode::seq_of(self.left)[i]).0 < self.timestamp
        &&& forall|i: int|
            0 <= i < TreeNode::seq_of(self.right).len() ==> (
            #[trigger] TreeNode::seq_of(self.right)[i]).0 >= self.timestamp
        &&& match self.left {
            Some(l) => l.well_formed(),
            None => true,
        }
        &&& match self.right {
            Some(r) => r.well_formed(),
            None => true,
        }
    }
}

/// A binary search tree over heart-rate samples, keyed by timestamp.
/// Equal timestamps route right, so repeated keys keep insertion order
/// in the in-order listing.
pub struct HeartRateTree {
    pub root: Option<Box<TreeNode>>,
}

impl View for HeartRateTree {
    type V = Seq<(u64, u32)>;

    open spec fn view(&self) -> Seq<(u64, u32)> {
        TreeNode::seq_of(self.root)
    }
}

impl HeartRateTree {
    /// The search-tree ordering holds of every node of the tree.
    pub open spec fn well_formed(self) -> bool {
        match self.root {
            Some(n) => n.well_formed(),
            None => true,
        }
    }

    pub fn new() -> (tree: Self)
        ensures
            tree@ == Seq::<(u64, u32)>::empty(),
            tree.well_formed(),
    {
        HeartRateTree { root: None }
    }

    /// Add one sample. The new sample lands in the in-order listing behind
    /// every sample whose timestamp is at or below its own (ties route
    /// right), and no existing sample moves or disappears.
    pub fn insert(&mut self, timestamp: u64, heart_rate: u32)
        requires
            old(self).well_formed(),
        ensures
            final(self).well_formed(),
            final(self)@ == old(self)@.insert(
                count_le(old(self)@, timestamp),
                (timestamp, heart_rate),
            ),
            final(self)@.to_multiset() == old(self)@.to_multiset().insert(
                (timestamp, heart_rate),
            ),
            final(self)@.len() == old(self)@.len() + 1,
    {
        let new_node = Box::new(TreeNode::new(timestamp, heart_rate));
        match self.root.take() {
            Some(mut node) => {
                Self::insert_node(&mut node, new_node);
                self.root = Some(node);
            },
            None => {
                self.root = Some(new_node);
                proof {
                    assert(self@ =~= Seq::<(u64, u32)>::empty().insert(0, (timestamp, heart_rate)));
                }
            },
        }
        proof {
            let pos = count_le(old(self)@, timestamp);
            lemma_count_le_bounds(old(self)@, timestamp);
            old(self)@.insert_ensures(pos, (timestamp, heart_rate));
            lemma_insert_to_multiset(old(self)@, pos, (timestamp, heart_rate));
        }
    }

    fn insert_node(current: &mut Box<TreeNode>, new_node: Box<TreeNode>)
        requires
            old(current).well_formed(),
            new_node.well_formed(),
            new_node.as_seq() == seq![(new_node.timestamp, new_node.heart_rate)],
        ensures
            final(current).well_formed(),
            final(current).as_seq() == old(current).as_seq().insert(
                count_le(old(current).as_seq(), new_node.timestamp),
                (new_node.timestamp, new_node.heart_rate),
            ),
            final(current).timestamp == old(current).timestamp,
            final(current).heart_rate == old(current).heart_rate,
        decreases *old(current),
    {
        let ghost c0: TreeNode = **current;
        let ghost s_l = TreeNode::seq_of(c0.left);
        let ghost s_r = TreeNode::seq_of(c0.right);
        let ghost m = (c0.timestamp, c0.heart_rate);
        let ghost s = c0.as_seq();
        let ghost ts = new_node.timestamp;
        let ghost x = (new_node.timestamp, new_node.heart_rate);

        if new_node.timestamp < current.timestamp {
            let ghost p_l = count_le(s_l, ts);
            match current.left.take() {
                Some(mut l) => {
                    Self::insert_node(&mut l, new_node);
                    current.left = Some(l);
                },
                None => {
                    current.left = Some(new_node);
                    proof {
                        assert(s_l =~= Seq::<(u64, u32)>::empty());
                        assert(TreeNode::seq_of(current.left) =~= s_l.insert(p_l, x));
                    }
                },
            }
            proof {
                assert(TreeNode::seq_of(current.left) == s_l.insert(p_l, x));
                lemma_count_le_bounds(s_l, ts);
                s_l.insert_ensures(p_l, x);
                assert(seq![m][0].0 > ts);
                lemma_count_le_all_above(seq![m], ts);
                assert forall|i: int| 0 <= i < s_r.len() implies (#[trigger] s_r[i]).0 > ts by {
                    assert(s_r[i].0 >= c0.timestamp);
                }
                lemma_count_le_all_above(s_r, ts);
                lemma_count_le_add(s_l, seq![m], ts);
                lemma_count_le_add(s_l + seq![m], s_r, ts);
                assert(count_le(s, ts) == p_l);
                lemma_insert_into_left(s_l, seq![m] + s_r, p_l, x);
                assert(s =~= s_l + (seq![m] + s_r));
                assert(current.as_seq() =~= s.insert(count_le(s, ts), x));
                assert forall|i: int|
                    0 <= i < TreeNode::seq_of(current.left).len() implies (#[trigger] TreeNode::seq_of(
                    current.left,
                )[i]).0 < current.timestamp by {
                    let t = s_l.insert(p_l, x);
                    if i < p_l {
                        assert(t[i] == s_l[i]);
                    } else if i == p_l {
                        assert(t[i] == x);
                    } else {
                        assert(t[i] == s_l[i - 1]);
                    }
                }
                assert(current.well_formed());
            }
        } else {
            let ghost p_r = count_le(s_r, ts);
            match current.right.take() {
                Some(mut r) => {
                    Self::insert_node(&mut r, new_node);
                    current.right = Some(r);
                },
                None => {
                    current.right = Some(new_node);
                    proof {
                        assert(s_r =~= Seq::<(u64, u32)>::empty());
                        assert(TreeNode::seq_of(current.right) =~= s_r.insert(p_r, x));
                    }
                },
            }
            proof {
                assert(TreeNode::seq_of(current.right) == s_r.insert(p_r, x));
                lemma_count_le_bounds(s_r, ts);
                s_r.insert_ensures(p_r, x);
                assert forall|i: int| 0 <= i < s_l.len() implies (#[trigger] s_l[i]).0 <= ts by {
                    assert(s_l[i].0 < c0.timestamp);
                }
                lemma_count_le_all_at_or_below(s_l, ts);
                assert(seq![m][0].0 <= ts);
                lemma_count_le_all_at_or_below(seq![m], ts);
                lemma_count_le_add(s_l, seq![m], ts);
                lemma_count_le_add(s_l + seq![m], s_r, ts);
                assert(count_le(s, ts) == s_l.len() + 1 + p_r);
                lemma_insert_into_right(s_l + seq![m], s_r, p_r, x);
                assert(current.as_seq() =~= s.insert(count_le(s, ts), x));
                assert forall|i: int|
                    0 <= i < TreeNode::seq_of(current.right).len() implies (
                #[trigger] TreeNode::seq_of(current.right)[i]).0 >= current.timestamp by {
                    let t = s_r.insert(p_r, x);
                    if i < p_r {
                        assert(t[i] == s_r[i]);
                    } else if i == p_r {
                        assert(t[i] == x);
                    } else {
                        assert(t[i] == s_r[i - 1]);
                    }
                }
                assert(current.well_formed());
            }
        }
    }

    /// Walk the whole subtree and total the samples whose timestamp lies in
    /// `[start, end]`. `None` reports that a running total left `u32`.
    fn sum_count_rec(node: &Option<Box<TreeNode>>, start: u64, end: u64) -> (r: Option<(u32, u32)>)
        ensures
            (match r {
                Some(p) => p.0 == win_sum(TreeNode::seq_of(*node), start, end) && p.1 == win_count(
                    TreeNode::seq_of(*node),
                    start,
                    end,
                ),
                None => win_sum(TreeNode::seq_of(*node), start, end) > u32::MAX || win_count(
                    TreeNode::seq_of(*node),
                    start,
                    end,
                ) > u32::MAX,
            }),
        decreases node,
    {
        match node {
            Some(n) => {
                let ghost s_l = TreeNode::seq_of(n.left);
                let ghost s_r = TreeNode::seq_of(n.right);
                let ghost m = (n.timestamp, n.heart_rate);
                proof {
                    lemma_win_bounds(s_l, start, end);
                    lemma_win_bounds(s_r, start, end);
                    lemma_win_bounds(seq![m], start, end);
                    lemma_win_add(s_l, seq![m], start, end);
                    lemma_win_add(s_l + seq![m], s_r, start, end);
                    lemma_win_singleton(m, start, end);
                }
                let mut sum: u32 = 0;
                let mut count: u32 = 0;
                if n.timestamp >= start && n.timestamp <= end {
                    sum = n.heart_rate;
                    count = 1;
                }
                let (left_sum, left_count) = match Self::sum_count_rec(&n.left, start, end) {
                    Some(p) => p,
                    None => {
                        return None;
                    },
                };
                let (right_sum, right_count) = match Self::sum_count_rec(&n.right, start, end) {
                    Some(p) => p,
                    None => {
                        return None;
                    },
                };
                sum = match sum.checked_add(left_sum) {
                    Some(v) => v,
                    None => {
                        return None;
                    },
                };
                sum = match sum.checked_add(right_sum) {
                    Some(v) => v,
                    None => {
                        return None;
                    },
                };
                count = match count.checked_add(left_count) {
                    Some(v) => v,
                    None => {
                        return None;
                    },
                };
                count = match count.checked_add(right_count) {
                    Some(v) => v,
                    None => {
                        return None;
                    },
                };
                Some((sum, count))
            },
            None => Some((0, 0)),
        }
    }

    /// Sum and number of the samples of `node`'s subtree whose timestamp
    /// lies in the closed interval `[start, end]`.
    pub fn sum_and_count(node: &Option<Box<TreeNode>>, start: u64, end: u64) -> (r: (u32, u32))
        requires
            win_sum(TreeNode::seq_of(*node), start, end) <= u32::MAX,
            win_count(TreeNode::seq_of(*node), start, end) <= u32::MAX,
        ensures
            r.0 == win_sum(TreeNode::seq_of(*node), start, end),
            r.1 == win_count(TreeNode::seq_of(*node), start, end),
    {
        match Self::sum_count_rec(node, start, end) {
            Some(p) => p,
            None => vstd::pervasive::unreached(),
        }
    }

    /// Sum and number of the samples in the trailing window that closes at
    /// `current_time` and opens a minute earlier, clamped at the epoch.
    /// `None` reports that a running total left `u32`; it never occurs below
    /// about four billion samples in the window.
    pub fn window_sum_count(&self, current_time: u64) -> (r: Option<(u32, u32)>)
        ensures
            (match r {
                Some(p) => p.0 == win_sum(self@, win_start(current_time), current_time) && p.1
                    == win_count(self@, win_start(current_time), current_time) && win_sum(
                    self@,
                    win_start(current_time),
                    current_time,
                ) <= u32::MAX && win_count(self@, win_start(current_time), current_time)
                    <= u32::MAX,
                None => win_sum(self@, win_start(current_time), current_time) > u32::MAX
                    || win_count(self@, win_start(current_time), current_time) > u32::MAX,
            }),
    {
        let start = current_time.saturating_sub(60);
        Self::sum_count_rec(&self.root, start, current_time)
    }

    /// In-order walk of `node`'s subtree, appending every sample to
    /// `result` in ascending timestamp order.
    pub fn inorder_traversal(&self, node: &Option<Box<TreeNode>>, result: &mut Vec<(u64, u32)>)
        ensures
            final(result)@ == old(result)@ + TreeNode::seq_of(*node),
        decreases node,
    {
        match node {
            Some(n) => {
                self.inorder_traversal(&n.left, result);
                result.push((n.timestamp, n.heart_rate));
                self.inorder_traversal(&n.right, result);
                proof {
                    assert(result@ =~= old(result)@ + TreeNode::seq_of(*node));
                }
            },
            None => {
                proof {
                    assert(result@ =~= old(result)@ + TreeNode::seq_of(*node));
                }
            },
        }
    }

    /// The ordering law: a well-formed tree lists its samples in
    /// non-decreasing timestamp order, so `inorder_traversal` hands back a
    /// sorted listing. Together with `insert`'s multiset clause this makes
    /// the listing a permutation of exactly the inserted samples.
    pub proof fn lemma_ordered_samples_sorted(tree: HeartRateTree)
        requires
            tree.well_formed(),
        ensures
            sorted_by_ts(tree@),
    {
        Self::lemma_opt_sorted(tree.root);
    }

    /// The tie-break law: an insert never fails, and a fresh sample lands
    /// behind every stored sample with the same timestamp, none of which
    /// moves. `insert` ensures its new listing is exactly the insertion this
    /// law speaks about.
    pub proof fn lemma_tie_break(tree: HeartRateTree, timestamp: u64, heart_rate: u32)
        requires
            tree.well_formed(),
        ensures
            0 <= count_le(tree@, timestamp) <= tree@.len(),
            tree@.insert(count_le(tree@, timestamp), (timestamp, heart_rate))[count_le(
                tree@,
                timestamp,
            )] == (timestamp, heart_rate),
            forall|j: int|
                0 <= j < tree@.len() && (#[trigger] tree@[j]).0 == timestamp ==> j < count_le(
                    tree@,
                    timestamp,
                ) && tree@.insert(count_le(tree@, timestamp), (timestamp, heart_rate))[j]
                    == tree@[j],
            sorted_by_ts(tree@.insert(count_le(tree@, timestamp), (timestamp, heart_rate))),
    {
        Self::lemma_ordered_samples_sorted(tree);
        lemma_insert_keeps_ties_in_order(tree@, timestamp, heart_rate);
    }

    proof fn lemma_opt_sorted(node: Option<Box<TreeNode>>)
        requires
            (match node {
                Some(n) => n.well_formed(),
                None => true,
            }),
        ensures
            sorted_by_ts(TreeNode::seq_of(node)),
        decreases node,
    {
        match node {
            Some(n) => {
                Self::lemma_opt_sorted(n.left);
                Self::lemma_opt_sorted(n.right);
                let s_l = TreeNode::seq_of(n.left);
                let s_r = TreeNode::seq_of(n.right);
                let m = (n.timestamp, n.heart_rate);
                let s = n.as_seq();
                let kl = s_l.len() as int;
                assert forall|i: int, j: int| 0 <= i <= j < s.len() implies s[i].0 <= s[j].0 by {
                    assert(forall|k: int| 0 <= k < kl ==> s[k] == s_l[k]);
                    assert(s[kl] == m);
                    assert(forall|k: int| kl < k < s.len() ==> s[k] == s_r[k - kl - 1]);
                }
            },
            None => {},
        }
    }

    pub fn get_root(&self) -> (r: &Option<Box<TreeNode>>)
        ensures
            r == &self.root,
            TreeNode::seq_of(*r) == self@,
    {
        &self.root
    }
}

} // verus!
