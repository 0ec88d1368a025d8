use trees::avltree::{rotate_ll, rotate_rr, Imbalance};
use trees::rbtree::InsertCase;
use trees::{AVLTree, ChildPosition, DeleteOutcome, NodeColor, RBTree, TreeNode};

type Link = Option<Box<TreeNode>>;

/// Checks BST order, no red-red pair and equal black counts; returns the
/// black height.
fn check_rb(t: &Link, lo: Option<u32>, hi: Option<u32>) -> usize {
    match t {
        None => 0,
        Some(n) => {
            if let Some(lo) = lo {
                assert!(n.key > lo);
            }
            if let Some(hi) = hi {
                assert!(n.key < hi);
            }
            if n.color == NodeColor::Red {
                for c in [&n.left, &n.right] {
                    if let Some(c) = c {
                        assert_eq!(c.color, NodeColor::Black, "red node {} has a red child", n.key);
                    }
                }
            }
            let l = check_rb(&n.left, lo, Some(n.key));
            let r = check_rb(&n.right, Some(n.key), hi);
            assert_eq!(l, r, "black heights differ under {}", n.key);
            l + if n.color == NodeColor::Black { 1 } else { 0 }
        }
    }
}

fn check_rb_tree(t: &RBTree) {
    if let Some(root) = t.get_root() {
        assert_eq!(root.color, NodeColor::Black);
    }
    check_rb(t.get_root(), None, None);
}

/// Checks BST order, stored heights and balance factors; returns the height.
fn check_avl(t: &Link, lo: Option<u32>, hi: Option<u32>) -> u32 {
    match t {
        None => 0,
        Some(n) => {
            if let Some(lo) = lo {
                assert!(n.key > lo);
            }
            if let Some(hi) = hi {
                assert!(n.key < hi);
            }
            let l = check_avl(&n.left, lo, Some(n.key));
            let r = check_avl(&n.right, Some(n.key), hi);
            let b = l as i64 - r as i64;
            assert!((-1..=1).contains(&b), "balance {} at {}", b, n.key);
            let h = 1 + l.max(r);
            assert_eq!(n.height, h, "stored height at {}", n.key);
            h
        }
    }
}

fn rb_of(keys: &[u32]) -> RBTree {
    let mut t = RBTree::new();
    for &k in keys {
        t.insert(k);
        check_rb_tree(&t);
    }
    t
}

fn avl_of(keys: &[u32]) -> AVLTree {
    let mut t = AVLTree::new();
    for &k in keys {
        t.insert(k);
        check_avl(t.get_root(), None, None);
    }
    t
}

#[test]
fn rb_ll_case_after_inserting_four() {
    let t = rb_of(&[20, 10, 30, 5, 4]);
    assert_eq!(t.in_order(), vec![4, 5, 10, 20, 30]);
    // the LL rotation at 10 lifts 5 over 4 and 10
    assert_eq!(t.pre_order(), vec![20, 5, 4, 10, 30]);
    let root = t.get_root().as_ref().unwrap();
    let five = root.left.as_ref().unwrap();
    assert_eq!(five.key, 5);
    assert_eq!(five.color, NodeColor::Black);
    assert_eq!(five.left.as_ref().unwrap().color, NodeColor::Red);
    assert_eq!(five.right.as_ref().unwrap().color, NodeColor::Red);
    check_rb_tree(&t);
}

#[test]
fn rb_delete_inner_node() {
    let mut t = rb_of(&[50, 25, 100, 15, 10, 20, 17, 12, 5]);
    assert_eq!(t.delete(25), DeleteOutcome::Removed);
    assert_eq!(t.in_order(), vec![5, 10, 12, 15, 17, 20, 50, 100]);
    check_rb_tree(&t);
}

#[test]
fn avl_rr_case_after_inserting_fifty() {
    let t = avl_of(&[20, 10, 30, 40]);
    assert_eq!(t.pre_order(), vec![20, 10, 30, 40]);
    let t = avl_of(&[20, 10, 30, 40, 50]);
    // 30 is the lowest unbalanced ancestor; the left rotation there lifts 40
    assert_eq!(t.pre_order(), vec![20, 10, 40, 30, 50]);
    assert_eq!(t.in_order(), vec![10, 20, 30, 40, 50]);
    check_avl(t.get_root(), None, None);
    assert_eq!(t.get_height_of_tree(), 3);
}

#[test]
fn empty_trees() {
    let rb = RBTree::new();
    let avl = AVLTree::new();
    for k in [0u32, 1, 42, u32::MAX] {
        assert!(rb.find(k).is_none());
        assert!(avl.find(k).is_none());
    }
    assert_eq!(rb.get_height_of_tree(), 0);
    assert_eq!(avl.get_height_of_tree(), 0);
    assert!(rb.is_tree_empty());
    assert!(avl.is_tree_empty());
    assert_eq!(rb.count_number_of_leaves(), 0);
    assert_eq!(avl.count_number_of_leaves(), 0);
    assert!(rb.in_order().is_empty());
    assert!(avl.pre_order().is_empty());
}

#[test]
fn delete_only_node() {
    let mut rb = rb_of(&[7]);
    assert_eq!(rb.delete(7), DeleteOutcome::Removed);
    assert!(rb.is_tree_empty());
    assert!(rb.find(7).is_none());
    assert!(rb.find(8).is_none());
    let mut avl = avl_of(&[7]);
    assert_eq!(avl.delete(7), DeleteOutcome::Removed);
    assert!(avl.is_tree_empty());
    assert!(avl.find(7).is_none());
}

#[test]
fn delete_outcomes() {
    let mut rb = RBTree::new();
    assert_eq!(rb.delete(1), DeleteOutcome::Empty);
    rb.insert(1);
    assert_eq!(rb.delete(2), DeleteOutcome::NotFound);
    assert_eq!(rb.in_order(), vec![1]);
    let mut avl = AVLTree::new();
    assert_eq!(avl.delete(1), DeleteOutcome::Empty);
    avl.insert(1);
    assert_eq!(avl.delete(2), DeleteOutcome::NotFound);
    assert_eq!(avl.in_order(), vec![1]);
}

#[test]
fn duplicate_insert_changes_nothing() {
    let mut rb = rb_of(&[8, 3, 10, 1, 6, 14, 4, 7, 13]);
    let before = rb.pre_order();
    rb.insert(6);
    assert_eq!(rb.pre_order(), before);
    let mut avl = avl_of(&[8, 3, 10, 1, 6, 14, 4, 7, 13]);
    let before = avl.pre_order();
    avl.insert(6);
    assert_eq!(avl.pre_order(), before);
}

#[test]
fn insert_then_delete_restores_order() {
    let keys = [41u32, 38, 31, 12, 19, 8, 50, 2, 77, 64];
    let mut rb = rb_of(&keys);
    let mut avl = avl_of(&keys);
    let before_rb = rb.in_order();
    let before_avl = avl.in_order();
    rb.insert(33);
    avl.insert(33);
    assert_eq!(rb.delete(33), DeleteOutcome::Removed);
    assert_eq!(avl.delete(33), DeleteOutcome::Removed);
    assert_eq!(rb.in_order(), before_rb);
    assert_eq!(avl.in_order(), before_avl);
    check_rb_tree(&rb);
    check_avl(avl.get_root(), None, None);
}

#[test]
fn invariants_under_many_operations() {
    let mut rb = RBTree::new();
    let mut avl = AVLTree::new();
    let mut x: u32 = 12345;
    for _ in 0..400 {
        x = x.wrapping_mul(1103515245).wrapping_add(12345) % 1000;
        rb.insert(x);
        avl.insert(x);
        check_rb_tree(&rb);
        check_avl(avl.get_root(), None, None);
    }
    for _ in 0..400 {
        x = x.wrapping_mul(1103515245).wrapping_add(12345) % 1000;
        rb.delete(x);
        avl.delete(x);
        check_rb_tree(&rb);
        check_avl(avl.get_root(), None, None);
    }
    assert_eq!(rb.in_order(), avl.in_order());
}

#[test]
fn height_bounds_on_sorted_input() {
    let n: u32 = 1023;
    let mut rb = RBTree::new();
    let mut avl = AVLTree::new();
    for k in 0..n {
        rb.insert(k);
        avl.insert(k);
    }
    let bound_rb = 2.0 * ((n + 1) as f64).log2();
    let bound_avl = 1.45 * ((n + 2) as f64).log2();
    assert!((rb.get_height_of_tree() as f64) <= bound_rb);
    assert!((avl.get_height_of_tree() as f64) <= bound_avl);
    assert_eq!(avl.get_height_of_tree(), 10);
    assert_eq!(rb.count_number_of_leaves(), n as u64 + 1);
    assert_eq!(avl.count_number_of_leaves(), n as u64 + 1);
}

#[test]
fn leaf_count_of_single_node_is_two() {
    let rb = rb_of(&[5]);
    assert_eq!(rb.count_number_of_leaves(), 2);
    let node = TreeNode::new(5);
    assert_eq!(TreeNode::node_count_number_of_leaves(&node), 2);
    assert_eq!(TreeNode::node_get_height_of_tree(&node), 1);
}

#[test]
fn plain_insert_keeps_order_without_balancing() {
    let mut rb = RBTree::new();
    let mut avl = AVLTree::new();
    for k in [1u32, 2, 3, 4] {
        rb.r_insert(k, NodeColor::Red);
        avl.r_insert(k, NodeColor::Red);
    }
    assert_eq!(rb.pre_order(), vec![1, 2, 3, 4]);
    assert_eq!(rb.get_height_of_tree(), 4);
    assert_eq!(avl.in_order(), vec![1, 2, 3, 4]);
    let root = rb.get_root().as_ref().unwrap();
    assert_eq!(root.color, NodeColor::Black);
    assert_eq!(root.right.as_ref().unwrap().color, NodeColor::Red);
}

fn leaf(key: u32, color: NodeColor) -> Link {
    TreeNode::new_rb(key, color)
}

fn node(key: u32, color: NodeColor, left: Link, right: Link, height: u32) -> Box<TreeNode> {
    Box::new(TreeNode { color, key, left, right, height })
}

#[test]
fn single_rotations() {
    let n = node(10, NodeColor::Black, Some(node(5, NodeColor::Red, leaf(3, NodeColor::Black), leaf(7, NodeColor::Black), 2)), leaf(12, NodeColor::Black), 3);
    let r = TreeNode::right_rotate(n);
    assert_eq!(r.key, 5);
    assert_eq!(r.color, NodeColor::Red);
    let down = r.right.as_ref().unwrap();
    assert_eq!(down.key, 10);
    assert_eq!(down.left.as_ref().unwrap().key, 7);
    let back = TreeNode::left_rotate(r);
    assert_eq!(back.key, 10);
    assert_eq!(back.left.as_ref().unwrap().key, 5);
}

#[test]
fn color_swapping_rotations() {
    let n = node(10, NodeColor::Black, Some(node(5, NodeColor::Red, leaf(3, NodeColor::Red), None, 2)), None, 3);
    let r = TreeNode::ll_rotate(n);
    assert_eq!(r.key, 5);
    assert_eq!(r.color, NodeColor::Black);
    assert_eq!(r.right.as_ref().unwrap().color, NodeColor::Red);
    let n = node(10, NodeColor::Black, Some(node(5, NodeColor::Red, None, leaf(7, NodeColor::Red), 2)), None, 3);
    let r = TreeNode::lr_rotate(n);
    assert_eq!(r.key, 7);
    assert_eq!(r.color, NodeColor::Black);
    assert_eq!(r.left.as_ref().unwrap().key, 5);
    assert_eq!(r.right.as_ref().unwrap().key, 10);
    let n = node(10, NodeColor::Black, None, Some(node(15, NodeColor::Red, leaf(12, NodeColor::Red), None, 2)), 3);
    let r = TreeNode::rl_rotate(n);
    assert_eq!(r.key, 12);
    assert_eq!(r.left.as_ref().unwrap().key, 10);
    assert_eq!(r.right.as_ref().unwrap().key, 15);
    let n = node(10, NodeColor::Black, None, Some(node(15, NodeColor::Red, None, leaf(20, NodeColor::Red), 2)), 3);
    let r = TreeNode::rr_rotate(n);
    assert_eq!(r.key, 15);
    assert_eq!(r.color, NodeColor::Black);
    assert_eq!(r.left.as_ref().unwrap().color, NodeColor::Red);
}

#[test]
fn height_updating_rotations() {
    let n = node(30, NodeColor::Black, Some(node(20, NodeColor::Black, leaf(10, NodeColor::Black), None, 2)), None, 3);
    let r = rotate_ll(n);
    assert_eq!(r.key, 20);
    assert_eq!(r.height, 2);
    assert_eq!(r.right.as_ref().unwrap().height, 1);
    let n = node(10, NodeColor::Black, None, Some(node(20, NodeColor::Black, None, leaf(30, NodeColor::Black), 2)), 3);
    let r = rotate_rr(n);
    assert_eq!(r.key, 20);
    assert_eq!(r.height, 2);
    assert_eq!(r.left.as_ref().unwrap().height, 1);
}

#[test]
fn insertion_case_classification() {
    assert_eq!(TreeNode::determine_rotation(ChildPosition::Left, ChildPosition::Left), InsertCase::LL);
    assert_eq!(TreeNode::determine_rotation(ChildPosition::Right, ChildPosition::Right), InsertCase::RR);
    assert_eq!(TreeNode::determine_rotation(ChildPosition::Left, ChildPosition::Right), InsertCase::LR);
    assert_eq!(TreeNode::determine_rotation(ChildPosition::Right, ChildPosition::Left), InsertCase::RL);
    assert_eq!(TreeNode::determine_rotation(ChildPosition::Root, ChildPosition::Left), InsertCase::Nothing);
    // red parent with a red child, red uncle: recolor
    let g = node(20, NodeColor::Black, Some(node(10, NodeColor::Red, leaf(5, NodeColor::Red), None, 2)), leaf(30, NodeColor::Red), 3);
    assert!(g.is_parent_red(ChildPosition::Left));
    assert!(g.is_uncle_red(ChildPosition::Left));
    assert!(!g.is_uncle_black(ChildPosition::Left));
    assert_eq!(g.determine_case(ChildPosition::Left), InsertCase::Recolor);
    let mut g = g;
    TreeNode::recolor(&mut g, false);
    assert_eq!(g.color, NodeColor::Red);
    assert_eq!(g.left.as_ref().unwrap().color, NodeColor::Black);
    assert_eq!(g.right.as_ref().unwrap().color, NodeColor::Black);
    // black uncle: rotation
    let g = node(20, NodeColor::Black, Some(node(10, NodeColor::Red, None, leaf(15, NodeColor::Red), 2)), None, 3);
    assert!(g.is_uncle_black(ChildPosition::Left));
    assert_eq!(g.determine_case(ChildPosition::Left), InsertCase::LR);
    // black parent: nothing
    let g = node(20, NodeColor::Black, leaf(10, NodeColor::Black), None, 2);
    assert_eq!(g.determine_case(ChildPosition::Left), InsertCase::Nothing);
}

#[test]
fn avl_balance_classification() {
    let n = node(30, NodeColor::Black, Some(node(20, NodeColor::Black, None, leaf(25, NodeColor::Black), 2)), None, 3);
    assert_eq!(n.get_self_balance_factor(), 2);
    assert_eq!(n.determine_unbalance_case(), Some(Imbalance::LR));
    let n = node(30, NodeColor::Black, None, Some(node(40, NodeColor::Black, None, leaf(50, NodeColor::Black), 2)), 3);
    assert_eq!(n.determine_unbalance_case(), Some(Imbalance::RR));
    let link: Link = Some(n);
    assert_eq!(TreeNode::balance_factor(&link), -2);
    assert_eq!(TreeNode::balance_factor(&None), 0);
    let r = TreeNode::rebalance(link.unwrap());
    assert_eq!(r.key, 40);
    assert_eq!(r.height, 2);
}

#[test]
fn heights_recomputed_from_below() {
    let n = node(30, NodeColor::Black, Some(node(20, NodeColor::Black, leaf(10, NodeColor::Black), None, 9)), None, 9);
    let fixed = TreeNode::fix_heights(n);
    assert_eq!(fixed.height, 3);
    assert_eq!(fixed.left.as_ref().unwrap().height, 2);
    let mut m = TreeNode::new(1);
    m.left = leaf(0, NodeColor::Black);
    TreeNode::update_height_single_node(&mut m);
    assert_eq!(m.height, 2);
}

#[test]
fn derived_lookups() {
    let t = rb_of(&[20, 10, 30, 5, 15]);
    let root = t.get_root();
    assert_eq!(TreeNode::get_parent(root, 5).map(|p| p.key), Some(10));
    assert_eq!(TreeNode::get_parent_key(root, 15), Some(10));
    assert_eq!(TreeNode::get_parent_key(root, 20), None);
    assert_eq!(TreeNode::get_grandparent(root, 5).map(|p| p.key), Some(20));
    assert_eq!(TreeNode::get_sibling(root, 5).map(|p| p.key), Some(15));
    assert_eq!(TreeNode::get_uncle(root, 15).map(|p| p.key), Some(30));
    assert_eq!(TreeNode::child_position(root, 5), ChildPosition::Left);
    assert_eq!(TreeNode::child_position(root, 30), ChildPosition::Right);
    assert_eq!(TreeNode::child_position(root, 20), ChildPosition::Root);
    assert_eq!(TreeNode::child_position(root, 99), ChildPosition::Root);
    assert!(TreeNode::get_parent(root, 99).is_none());
}

#[test]
fn successor_and_lookup() {
    let t = avl_of(&[20, 10, 30, 25, 40]);
    let root = t.get_root().as_ref().unwrap();
    assert_eq!(root.key, 20);
    assert_eq!(TreeNode::find_successor(root), 25);
    assert_eq!(TreeNode::min_key(root), 10);
    assert_eq!(t.find(25).map(|n| n.key), Some(25));
    assert_eq!(TreeNode::find_node(t.get_root(), 26).map(|n| n.key), None);
}

#[test]
fn node_level_delete() {
    let t = Some(node(2, NodeColor::Black, leaf(1, NodeColor::Red), leaf(3, NodeColor::Red), 2));
    let (r, shrunk) = TreeNode::delete_node_rb(t, 1);
    assert!(!shrunk);
    let r = r.unwrap();
    assert_eq!(r.key, 2);
    assert!(r.left.is_none());
    let t = Some(node(1, NodeColor::Black, None, None, 1));
    let (r, shrunk) = TreeNode::delete_node_rb(t, 1);
    assert!(r.is_none());
    assert!(shrunk);
    let a = Some(node(2, NodeColor::Black, leaf(1, NodeColor::Black), Some(node(3, NodeColor::Black, None, leaf(4, NodeColor::Black), 2)), 3));
    let r = TreeNode::delete_node_avl(a, 1).unwrap();
    assert_eq!(r.key, 3);
    assert_eq!(r.height, 2);
    assert_eq!(r.left.as_ref().unwrap().key, 2);
}

#[test]
fn plain_insert_attaches_leaf_with_given_color() {
    let t = Some(node(10, NodeColor::Black, leaf(5, NodeColor::Black), None, 2));
    let r = TreeNode::regular_insert(t, 7, NodeColor::Red).unwrap();
    assert_eq!(r.key, 10);
    assert_eq!(r.height, 2);
    let five = r.left.as_ref().unwrap();
    assert_eq!(five.color, NodeColor::Black);
    let seven = five.right.as_ref().unwrap();
    assert_eq!(seven.key, 7);
    assert_eq!(seven.color, NodeColor::Red);
    assert_eq!(seven.height, 1);
    assert!(r.right.is_none());
}

#[test]
fn height_refresh_keeps_colors_and_links() {
    let n = node(30, NodeColor::Red, Some(node(20, NodeColor::Black, leaf(10, NodeColor::Red), None, 7)), leaf(40, NodeColor::Black), 7);
    let fixed = TreeNode::fix_heights(n);
    assert_eq!(fixed.color, NodeColor::Red);
    assert_eq!(fixed.height, 3);
    let twenty = fixed.left.as_ref().unwrap();
    assert_eq!((twenty.key, twenty.color, twenty.height), (20, NodeColor::Black, 2));
    let ten = twenty.left.as_ref().unwrap();
    assert_eq!((ten.key, ten.color, ten.height), (10, NodeColor::Red, 1));
    assert_eq!(fixed.right.as_ref().unwrap().key, 40);
}
