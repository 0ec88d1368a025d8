//! The AVL discipline: stored heights, height-updating rotations, the
//! rebalancing step shared by insertion and deletion, and the `AVLTree`
//! container.
use vstd::prelude::*;
use vstd::arithmetic::power2::{pow2, lemma_pow2_adds, lemma_pow2_unfold, lemma2_to64};
use crate::node::{inserted_leaf, leftmost_key, DeleteOutcome, TreeNode, NodeColor, bst, keys, inorder, preorder, ht, size, leaf_count, contains,
    rotated_right, rotated_left, lemma_same_payload, lemma_size_bound, lemma_leaf_count};

verus! {

/// The rotation that repairs a node whose balance factor left {-1, 0, 1}.
#[derive(Clone, Copy, Debug, PartialEq, Eq, Structural)]
pub enum Imbalance {
    /// Left-heavy with a left child that is not right-heavy.
    LL,
    /// Right-heavy with a right child that is not left-heavy.
    RR,
    /// Left-heavy with a right-heavy left child.
    LR,
    /// Right-heavy with a left-heavy right child.
    RL,
}

/// The stored height of a link, 0 when absent.
pub open spec fn stored_height(t: Option<Box<TreeNode>>) -> nat {
    match t {
        None => 0,
        Some(n) => n.height as nat,
    }
}

/// Every stored height is the true height and every balance factor lies in
/// {-1, 0, 1}.
pub open spec fn avl_ok(t: Option<Box<TreeNode>>) -> bool
    decreases t,
{
    match t {
        None => true,
        Some(n) => {
            &&& avl_ok(n.left)
            &&& avl_ok(n.right)
            &&& n.height == ht(t)
            &&& ht(n.left) <= ht(n.right) + 1
            &&& ht(n.right) <= ht(n.left) + 1
        },
    }
}

/// An AVL tree: BST order and `avl_ok`.
pub open spec fn avl_tree(t: Option<Box<TreeNode>>) -> bool {
    bst(t) && avl_ok(t)
}

/// `n` with its stored height recomputed from its children's stored heights.
pub open spec fn with_fixed_height(n: TreeNode) -> TreeNode {
    let l = stored_height(n.left);
    let r = stored_height(n.right);
    TreeNode { height: (1 + if l >= r { l } else { r }) as u32, ..n }
}

/// Height of `n` after a right rotation with heights recomputed, demoted
/// node first.
pub open spec fn avl_rotated_right(n: TreeNode) -> TreeNode {
    let r = rotated_right(n);
    with_fixed_height(
        (TreeNode { right: Some(Box::new(with_fixed_height(*r.right.unwrap()))), ..r }),
    )
}

/// Mirror image of `avl_rotated_right`.
pub open spec fn avl_rotated_left(n: TreeNode) -> TreeNode {
    let r = rotated_left(n);
    with_fixed_height(
        (TreeNode { left: Some(Box::new(with_fixed_height(*r.left.unwrap()))), ..r }),
    )
}

fn link_height(t: &Option<Box<TreeNode>>) -> (r: u32)
    ensures
        r == stored_height(*t),
{
    match t {
        None => 0,
        Some(n) => n.height,
    }
}

impl TreeNode {
    /// Recomputes this node's stored height as one more than the taller
    /// child's stored height.
    pub fn update_height_single_node(node: &mut TreeNode)
        requires
            stored_height(old(node).left) < u32::MAX,
            stored_height(old(node).right) < u32::MAX,
        ensures
            *final(node) == with_fixed_height(*old(node)),
    {
        let l = link_height(&node.left);
        let r = link_height(&node.right);
        node.height = if l >= r {
            l + 1
        } else {
            r + 1
        };
    }

    /// Balance factor from the children's stored heights: left minus right.
    pub fn get_self_balance_factor(&self) -> (r: i32)
        requires
            stored_height(self.left) <= i32::MAX,
            stored_height(self.right) <= i32::MAX,
        ensures
            r == stored_height(self.left) - stored_height(self.right),
    {
        let l = link_height(&self.left);
        let r = link_height(&self.right);
        l as i32 - r as i32
    }

    /// Balance factor of a possibly absent subtree (0 when absent).
    pub fn balance_factor(t: &Option<Box<TreeNode>>) -> (r: i32)
        requires
            t.is_some() ==> stored_height(t.unwrap().left) <= i32::MAX,
            t.is_some() ==> stored_height(t.unwrap().right) <= i32::MAX,
        ensures
            t.is_none() ==> r == 0,
            t.is_some() ==> r == stored_height(t.unwrap().left) - stored_height(
                t.unwrap().right,
            ),
    {
        match t {
            None => 0,
            Some(n) => n.get_self_balance_factor(),
        }
    }

    /// Names the rotation that repairs this node, from its balance factor
    /// and that of its taller child (compared as stored heights); `None` when the node is balanced.
    pub fn determine_unbalance_case(&self) -> (r: Option<Imbalance>)
        ensures
            r == unbalance_case(*self),
    {
        let lh = link_height(&self.left);
        let rh = link_height(&self.right);
        if lh > rh && lh - rh > 1 {
            let l = self.left.as_ref().unwrap();
            if link_height(&l.left) >= link_height(&l.right) {
                Some(Imbalance::LL)
            } else {
                Some(Imbalance::LR)
            }
        } else if rh > lh && rh - lh > 1 {
            let r = self.right.as_ref().unwrap();
            if link_height(&r.left) <= link_height(&r.right) {
                Some(Imbalance::RR)
            } else {
                Some(Imbalance::RL)
            }
        } else {
            None
        }
    }
}

/// Balance factor from stored heights.
pub open spec fn balance_of(n: TreeNode) -> int {
    stored_height(n.left) - stored_height(n.right)
}

/// The rotation named by a node's balance factor and that of its taller
/// child.
pub open spec fn unbalance_case(n: TreeNode) -> Option<Imbalance> {
    if balance_of(n) > 1 {
        if balance_of(*n.left.unwrap()) >= 0 {
            Some(Imbalance::LL)
        } else {
            Some(Imbalance::LR)
        }
    } else if balance_of(n) < -1 {
        if balance_of(*n.right.unwrap()) <= 0 {
            Some(Imbalance::RR)
        } else {
            Some(Imbalance::RL)
        }
    } else {
        None
    }
}

/// A valid AVL subtree stores its true height at the root.
pub proof fn lemma_stored_height(t: Option<Box<TreeNode>>)
    requires
        avl_ok(t),
    ensures
        stored_height(t) == ht(t),
{
}

/// Recomputing the stored height of a node whose children store their true
/// heights makes it store its own true height; the true height is unchanged.
pub proof fn lemma_fixed_height(n: TreeNode)
    requires
        stored_height(n.left) == ht(n.left),
        stored_height(n.right) == ht(n.right),
        ht(n.left) < u32::MAX,
        ht(n.right) < u32::MAX,
    ensures
        with_fixed_height(n).height == ht(Some(Box::new(with_fixed_height(n)))),
        ht(Some(Box::new(with_fixed_height(n)))) == ht(Some(Box::new(n))),
        keys(Some(Box::new(with_fixed_height(n)))) == keys(Some(Box::new(n))),
        inorder(Some(Box::new(with_fixed_height(n)))) == inorder(Some(Box::new(n))),
        bst(Some(Box::new(with_fixed_height(n)))) == bst(Some(Box::new(n))),
{
}

/// Height-updating right rotation (the LL repair): the left child becomes
/// the subtree root; the demoted node's height is recomputed before the new
/// root's.
pub fn rotate_ll(node: Box<TreeNode>) -> (r: Box<TreeNode>)
    requires
        node.left.is_some(),
        stored_height(node.left.unwrap().left) < u32::MAX - 1,
        stored_height(node.left.unwrap().right) < u32::MAX - 1,
        stored_height(node.right) < u32::MAX - 1,
    ensures
        *r == avl_rotated_right(*node),
        keys(Some(r)) == keys(Some(node)),
        inorder(Some(r)) == inorder(Some(node)),
        bst(Some(node)) ==> bst(Some(r)),
{
    let mut top = TreeNode::right_rotate(node);
    let ghost top0: TreeNode = *top;
    let mut down = top.right.take().unwrap();
    TreeNode::update_height_single_node(&mut down);
    top.right = Some(down);
    let ghost top1: TreeNode = *top;
    TreeNode::update_height_single_node(&mut top);
    proof {
        lemma_same_payload(*down, *top0.right.unwrap());
        lemma_same_payload(top1, top0);
        lemma_same_payload(*top, top1);
    }
    top
}

/// Height-updating left rotation (the RR repair).
pub fn rotate_rr(node: Box<TreeNode>) -> (r: Box<TreeNode>)
    requires
        node.right.is_some(),
        stored_height(node.right.unwrap().left) < u32::MAX - 1,
        stored_height(node.right.unwrap().right) < u32::MAX - 1,
        stored_height(node.left) < u32::MAX - 1,
    ensures
        *r == avl_rotated_left(*node),
        keys(Some(r)) == keys(Some(node)),
        inorder(Some(r)) == inorder(Some(node)),
        bst(Some(node)) ==> bst(Some(r)),
{
    let mut top = TreeNode::left_rotate(node);
    let ghost top0: TreeNode = *top;
    let mut down = top.left.take().unwrap();
    TreeNode::update_height_single_node(&mut down);
    top.left = Some(down);
    let ghost top1: TreeNode = *top;
    TreeNode::update_height_single_node(&mut top);
    proof {
        lemma_same_payload(*down, *top0.left.unwrap());
        lemma_same_payload(top1, top0);
        lemma_same_payload(*top, top1);
    }
    top
}

/// Double rotation for a right-heavy left child (the LR repair): `rotate_rr`
/// at the left child, then `rotate_ll` here.
pub fn rotate_lr(node: Box<TreeNode>) -> (r: Box<TreeNode>)
    requires
        node.left.is_some(),
        node.left.unwrap().right.is_some(),
        stored_height(node.left.unwrap().left) < u32::MAX - 2,
        stored_height(node.left.unwrap().right.unwrap().left) < u32::MAX - 2,
        stored_height(node.left.unwrap().right.unwrap().right) < u32::MAX - 2,
        stored_height(node.right) < u32::MAX - 2,
    ensures
        *r == avl_rotated_right(
            (TreeNode { left: Some(Box::new(avl_rotated_left(*node.left.unwrap()))), ..*node }),
        ),
        keys(Some(r)) == keys(Some(node)),
        inorder(Some(r)) == inorder(Some(node)),
        bst(Some(node)) ==> bst(Some(r)),
{
    let mut n = node;
    let l = n.left.take().unwrap();
    n.left = Some(rotate_rr(l));
    proof {
        lemma_same_payload(*n, *node);
    }
    rotate_ll(n)
}

/// Double rotation for a left-heavy right child (the RL repair).
pub fn rotate_rl(node: Box<TreeNode>) -> (r: Box<TreeNode>)
    requires
        node.right.is_some(),
        node.right.unwrap().left.is_some(),
        stored_height(node.right.unwrap().right) < u32::MAX - 2,
        stored_height(node.right.unwrap().left.unwrap().left) < u32::MAX - 2,
        stored_height(node.right.unwrap().left.unwrap().right) < u32::MAX - 2,
        stored_height(node.left) < u32::MAX - 2,
    ensures
        *r == avl_rotated_left(
            (TreeNode { right: Some(Box::new(avl_rotated_right(*node.right.unwrap()))), ..*node }),
        ),
        keys(Some(r)) == keys(Some(node)),
        inorder(Some(r)) == inorder(Some(node)),
        bst(Some(node)) ==> bst(Some(r)),
{
    let mut n = node;
    let c = n.right.take().unwrap();
    n.right = Some(rotate_ll(c));
    proof {
        lemma_same_payload(*n, *node);
    }
    rotate_rr(n)
}

/// LL repair: a node whose left subtree is two levels taller, with a left
/// child that is not right-heavy, becomes a valid AVL subtree as tall as the
/// left subtree or one taller.
pub proof fn lemma_avl_ll(n: TreeNode)
    requires
        n.left.is_some(),
        avl_ok(n.left),
        avl_ok(n.right),
        ht(n.left) == ht(n.right) + 2,
        ht(n.left.unwrap().left) >= ht(n.left.unwrap().right),
        ht(n.left) < u32::MAX - 2,
    ensures
        avl_ok(Some(Box::new(avl_rotated_right(n)))),
        ht(Some(Box::new(avl_rotated_right(n)))) == ht(n.left) || ht(
            Some(Box::new(avl_rotated_right(n))),
        ) == ht(n.left) + 1,
{
    let l = *n.left.unwrap();
    let r = rotated_right(n);
    let d0 = *r.right.unwrap();
    assert(avl_ok(l.left) && avl_ok(l.right));
    lemma_stored_height(l.left);
    lemma_stored_height(l.right);
    lemma_stored_height(n.right);
    assert(ht(n.left) == 1 + ht(l.left));
    lemma_fixed_height(d0);
    let d = with_fixed_height(d0);
    assert(avl_ok(Some(Box::new(d))));
    let t0 = TreeNode { right: Some(Box::new(d)), ..r };
    lemma_fixed_height(t0);
    assert(avl_ok(Some(Box::new(with_fixed_height(t0)))));
}

/// RR repair: mirror image of `lemma_avl_ll`.
pub proof fn lemma_avl_rr(n: TreeNode)
    requires
        n.right.is_some(),
        avl_ok(n.left),
        avl_ok(n.right),
        ht(n.right) == ht(n.left) + 2,
        ht(n.right.unwrap().right) >= ht(n.right.unwrap().left),
        ht(n.right) < u32::MAX - 2,
    ensures
        avl_ok(Some(Box::new(avl_rotated_left(n)))),
        ht(Some(Box::new(avl_rotated_left(n)))) == ht(n.right) || ht(
            Some(Box::new(avl_rotated_left(n))),
        ) == ht(n.right) + 1,
{
    let c = *n.right.unwrap();
    let r = rotated_left(n);
    let d0 = *r.left.unwrap();
    assert(avl_ok(c.left) && avl_ok(c.right));
    lemma_stored_height(c.left);
    lemma_stored_height(c.right);
    lemma_stored_height(n.left);
    assert(ht(n.right) == 1 + ht(c.right));
    lemma_fixed_height(d0);
    let d = with_fixed_height(d0);
    assert(avl_ok(Some(Box::new(d))));
    let t0 = TreeNode { left: Some(Box::new(d)), ..r };
    lemma_fixed_height(t0);
    assert(avl_ok(Some(Box::new(with_fixed_height(t0)))));
}

/// LR repair: a node whose left subtree is two levels taller, with a
/// right-heavy left child, becomes a valid AVL subtree as tall as the left
/// subtree.
pub proof fn lemma_avl_lr(n: TreeNode)
    requires
        n.left.is_some(),
        avl_ok(n.left),
        avl_ok(n.right),
        ht(n.left) == ht(n.right) + 2,
        ht(n.left.unwrap().left) < ht(n.left.unwrap().right),
        ht(n.left) < u32::MAX - 2,
    ensures
        n.left.unwrap().right.is_some(),
        ({
            let t = avl_rotated_right(
                (TreeNode { left: Some(Box::new(avl_rotated_left(*n.left.unwrap()))), ..n }),
            );
            avl_ok(Some(Box::new(t))) && ht(Some(Box::new(t))) == ht(n.left)
        }),
{
    let l = *n.left.unwrap();
    let m = *l.right.unwrap();
    assert(avl_ok(l.left) && avl_ok(l.right));
    assert(avl_ok(m.left) && avl_ok(m.right));
    lemma_stored_height(l.left);
    lemma_stored_height(m.left);
    lemma_stored_height(m.right);
    lemma_stored_height(n.right);
    assert(ht(n.left) == 1 + ht(l.right));
    assert(ht(l.right) == ht(n.right) + 1);
    // inner left rotation at the left child
    let r1 = rotated_left(l);
    let a0 = *r1.left.unwrap();
    lemma_fixed_height(a0);
    let a = with_fixed_height(a0);
    assert(avl_ok(Some(Box::new(a))));
    let q0 = TreeNode { left: Some(Box::new(a)), ..r1 };
    lemma_fixed_height(q0);
    let q = with_fixed_height(q0);
    // outer right rotation here
    let n1 = TreeNode { left: Some(Box::new(q)), ..n };
    let r2 = rotated_right(n1);
    let b0 = *r2.right.unwrap();
    assert(b0.left == m.right && b0.right == n.right);
    lemma_fixed_height(b0);
    let b = with_fixed_height(b0);
    assert(avl_ok(Some(Box::new(b))));
    let t0 = TreeNode { right: Some(Box::new(b)), ..r2 };
    assert(t0.left == Some(Box::new(a)));
    lemma_fixed_height(t0);
    assert(avl_ok(Some(Box::new(with_fixed_height(t0)))));
}

/// RL repair: mirror image of `lemma_avl_lr`.
pub proof fn lemma_avl_rl(n: TreeNode)
    requires
        n.right.is_some(),
        avl_ok(n.left),
        avl_ok(n.right),
        ht(n.right) == ht(n.left) + 2,
        ht(n.right.unwrap().right) < ht(n.right.unwrap().left),
        ht(n.right) < u32::MAX - 2,
    ensures
        n.right.unwrap().left.is_some(),
        ({
            let t = avl_rotated_left(
                (TreeNode { right: Some(Box::new(avl_rotated_right(*n.right.unwrap()))), ..n }),
            );
            avl_ok(Some(Box::new(t))) && ht(Some(Box::new(t))) == ht(n.right)
        }),
{
    let c = *n.right.unwrap();
    let m = *c.left.unwrap();
    assert(avl_ok(c.left) && avl_ok(c.right));
    assert(avl_ok(m.left) && avl_ok(m.right));
    lemma_stored_height(c.right);
    lemma_stored_height(m.left);
    lemma_stored_height(m.right);
    lemma_stored_height(n.left);
    assert(ht(n.right) == 1 + ht(c.left));
    assert(ht(c.left) == ht(n.left) + 1);
    let r1 = rotated_right(c);
    let a0 = *r1.right.unwrap();
    lemma_fixed_height(a0);
    let a = with_fixed_height(a0);
    assert(avl_ok(Some(Box::new(a))));
    let q0 = TreeNode { right: Some(Box::new(a)), ..r1 };
    lemma_fixed_height(q0);
    let q = with_fixed_height(q0);
    let n1 = TreeNode { right: Some(Box::new(q)), ..n };
    let r2 = rotated_left(n1);
    let b0 = *r2.left.unwrap();
    assert(b0.right == m.left && b0.left == n.left);
    lemma_fixed_height(b0);
    let b = with_fixed_height(b0);
    assert(avl_ok(Some(Box::new(b))));
    let t0 = TreeNode { left: Some(Box::new(b)), ..r2 };
    assert(t0.right == Some(Box::new(a)));
    lemma_fixed_height(t0);
    assert(avl_ok(Some(Box::new(with_fixed_height(t0)))));
}

/// The subtree one step of the AVL walk leaves at `n`: its height
/// recomputed, then the rotation that `unbalance_case` names, if any.
#[verifier::opaque]
pub open spec fn rebalanced(n: TreeNode) -> TreeNode {
    let m = with_fixed_height(n);
    match unbalance_case(m) {
        None => m,
        Some(Imbalance::LL) => avl_rotated_right(m),
        Some(Imbalance::RR) => avl_rotated_left(m),
        Some(Imbalance::LR) => avl_rotated_right(
            (TreeNode { left: Some(Box::new(avl_rotated_left(*m.left.unwrap()))), ..m }),
        ),
        Some(Imbalance::RL) => avl_rotated_left(
            (TreeNode { right: Some(Box::new(avl_rotated_right(*m.right.unwrap()))), ..m }),
        ),
    }
}

/// The subtree AVL insertion builds: BST descent to a new leaf of height 1,
/// then `rebalanced` at every ancestor on the way back up.
pub open spec fn avl_inserted(t: Option<Box<TreeNode>>, k: u32) -> Option<Box<TreeNode>>
    decreases t,
{
    match t {
        None => Some(
            Box::new(
                TreeNode { color: NodeColor::Black, key: k, left: None, right: None, height: 1 },
            ),
        ),
        Some(n) => if k < n.key {
            Some(Box::new(rebalanced((TreeNode { left: avl_inserted(n.left, k), ..*n }))))
        } else if k > n.key {
            Some(Box::new(rebalanced((TreeNode { right: avl_inserted(n.right, k), ..*n }))))
        } else {
            t
        },
    }
}

/// The subtree AVL deletion builds: descent by key; a node missing a child
/// is replaced by its other child; a node with two children takes its
/// successor's key and the successor is removed from the right subtree;
/// `rebalanced` runs at every ancestor on the way back up.
pub open spec fn avl_deleted(t: Option<Box<TreeNode>>, k: u32) -> Option<Box<TreeNode>>
    decreases t,
{
    match t {
        None => None,
        Some(n) => if k < n.key {
            Some(Box::new(rebalanced((TreeNode { left: avl_deleted(n.left, k), ..*n }))))
        } else if k > n.key {
            Some(Box::new(rebalanced((TreeNode { right: avl_deleted(n.right, k), ..*n }))))
        } else if n.left.is_none() {
            n.right
        } else if n.right.is_none() {
            n.left
        } else {
            let succ = leftmost_key(*n.right.unwrap());
            Some(
                Box::new(
                    rebalanced((TreeNode { key: succ, right: avl_deleted(n.right, succ), ..*n })),
                ),
            )
        },
    }
}

/// The larger of two heights.
pub open spec fn max_ht(a: nat, b: nat) -> nat {
    if a >= b {
        a
    } else {
        b
    }
}

impl TreeNode {
    /// One step of the AVL walk at `n`: recompute its height, and if its
    /// balance factor left {-1, 0, 1}, apply the rotation that
    /// `determine_unbalance_case` names.
    pub fn rebalance(n: Box<TreeNode>) -> (r: Box<TreeNode>)
        requires
            bst(Some(n)),
            avl_ok(n.left),
            avl_ok(n.right),
            ht(n.left) <= ht(n.right) + 2,
            ht(n.right) <= ht(n.left) + 2,
            ht(n.left) < u32::MAX - 2,
            ht(n.right) < u32::MAX - 2,
        ensures
            avl_ok(Some(r)),
            bst(Some(r)),
            keys(Some(r)) == keys(Some(n)),
            inorder(Some(r)) == inorder(Some(n)),
            max_ht(ht(n.left), ht(n.right)) <= ht(Some(r)) <= max_ht(ht(n.left), ht(n.right)) + 1,
            ht(n.left) <= ht(n.right) + 1 && ht(n.right) <= ht(n.left) + 1 ==> ht(Some(r))
                == max_ht(ht(n.left), ht(n.right)) + 1,
            avl_ok(Some(n)) ==> r == n,
            *r == rebalanced(*n),
    {
        proof {
            lemma_stored_height(n.left);
            lemma_stored_height(n.right);
            lemma_fixed_height(*n);
            if n.left.is_some() {
                lemma_stored_height(n.left.unwrap().left);
                lemma_stored_height(n.left.unwrap().right);
            }
            if n.right.is_some() {
                lemma_stored_height(n.right.unwrap().left);
                lemma_stored_height(n.right.unwrap().right);
            }
        }
        let ghost n0: TreeNode = *n;
        proof {
            reveal(rebalanced);
        }
        let mut n = n;
        TreeNode::update_height_single_node(&mut n);
        match n.determine_unbalance_case() {
            None => {
                proof {
                    if avl_ok(Some(Box::new(n0))) {
                        assert(*n == n0);
                    }
                }
                n
            },
            Some(Imbalance::LL) => {
                proof {
                    lemma_avl_ll(*n);
                }
                rotate_ll(n)
            },
            Some(Imbalance::RR) => {
                proof {
                    lemma_avl_rr(*n);
                }
                rotate_rr(n)
            },
            Some(Imbalance::LR) => {
                proof {
                    lemma_avl_lr(*n);
                    let l = *n.left.unwrap();
                    let m = *l.right.unwrap();
                    assert(avl_ok(l.right));
                    lemma_stored_height(m.left);
                    lemma_stored_height(m.right);
                    assert(ht(l.right) < ht(n.left));
                }
                rotate_lr(n)
            },
            Some(Imbalance::RL) => {
                proof {
                    lemma_avl_rl(*n);
                    let c = *n.right.unwrap();
                    let m = *c.left.unwrap();
                    assert(avl_ok(c.left));
                    lemma_stored_height(m.left);
                    lemma_stored_height(m.right);
                    assert(ht(c.left) < ht(n.right));
                }
                rotate_rl(n)
            },
        }
    }

    /// AVL insertion into a subtree: BST descent, a new leaf of height 1,
    /// then the rebalancing step at every ancestor on the way back up.
    fn insert_node_avl(t: Option<Box<TreeNode>>, key: u32) -> (r: Option<Box<TreeNode>>)
        requires
            avl_tree(t),
        ensures
            r.is_some(),
            avl_tree(r),
            keys(r) == keys(t).insert(key as int),
            ht(t) <= ht(r) <= ht(t) + 1,
            contains(t, key) ==> r == t,
            r == avl_inserted(t, key),
        decreases t,
    {
        proof {
            lemma_avl_height_small(t);
        }
        match t {
            None => Some(Box::new(TreeNode::new(key))),
            Some(node) => {
                assert(keys(t) == keys(node.left).union(keys(node.right)).insert(node.key as int));
                let ghost n0: TreeNode = *node;
                let mut n = node;
                if key < n.key {
                    let l = n.left.take();
                    n.left = TreeNode::insert_node_avl(l, key);
                } else if key > n.key {
                    let r = n.right.take();
                    n.right = TreeNode::insert_node_avl(r, key);
                } else {
                    proof {
                        assert(keys(t) =~= keys(t).insert(key as int));
                    }
                    return Some(n);
                }
                proof {
                    assert(keys(Some(n)) =~= keys(t).insert(key as int));
                    if contains(t, key) {
                        assert(*n == n0);
                    }
                }
                Some(TreeNode::rebalance(n))
            },
        }
    }

    /// AVL deletion from a subtree, returning the new subtree root. A node
    /// with two children takes its successor's key and the successor is
    /// removed from the right subtree; every ancestor is rebalanced on the
    /// way back up.
    pub fn delete_node_avl(t: Option<Box<TreeNode>>, key: u32) -> (r: Option<Box<TreeNode>>)
        requires
            avl_tree(t),
        ensures
            avl_tree(r),
            keys(r) == keys(t).remove(key as int),
            ht(r) <= ht(t) <= ht(r) + 1,
            !contains(t, key) ==> r == t,
            r == avl_deleted(t, key),
        decreases t,
    {
        proof {
            lemma_avl_height_small(t);
        }
        match t {
            None => {
                proof {
                    assert(keys(t).remove(key as int) =~= keys(t));
                }
                None
            },
            Some(node) => {
                assert(keys(t) == keys(node.left).union(keys(node.right)).insert(node.key as int));
                let ghost n0: TreeNode = *node;
                let mut n = node;
                if key < n.key {
                    let l = n.left.take();
                    n.left = TreeNode::delete_node_avl(l, key);
                    proof {
                        crate::node::lemma_bst_after_removal(n0, *n);
                    }
                } else if key > n.key {
                    let r = n.right.take();
                    n.right = TreeNode::delete_node_avl(r, key);
                    proof {
                        crate::node::lemma_bst_after_removal(n0, *n);
                    }
                } else if n.left.is_none() {
                    proof {
                        assert(keys(n0.right) =~= keys(t).remove(key as int));
                    }
                    return n.right.take();
                } else if n.right.is_none() {
                    proof {
                        assert(keys(n0.left) =~= keys(t).remove(key as int));
                    }
                    return n.left.take();
                } else {
                    let succ = TreeNode::find_successor(&n);
                    let r = n.right.take();
                    n.right = TreeNode::delete_node_avl(r, succ);
                    n.key = succ;
                    proof {
                        assert forall|x: int| keys(n.left).contains(x) implies x < n.key by {
                            assert(keys(n0.left).contains(x));
                        }
                    }
                }
                proof {
                    assert(keys(Some(n)) =~= keys(t).remove(key as int));
                    if !contains(t, key) {
                        assert(*n == n0);
                    }
                }
                Some(TreeNode::rebalance(n))
            },
        }
    }
}

/// Fibonacci numbers: 0, 1, 1, 2, 3, 5, ...
pub open spec fn fib(n: nat) -> nat
    decreases n,
{
    if n == 0 {
        0
    } else if n == 1 {
        1
    } else {
        fib((n - 1) as nat) + fib((n - 2) as nat)
    }
}

/// Fibonacci numbers never decrease.
pub proof fn lemma_fib_monotone(a: nat, b: nat)
    requires
        a <= b,
    ensures
        fib(a) <= fib(b),
    decreases b,
{
    if a < b {
        lemma_fib_monotone(a, (b - 1) as nat);
    }
}

/// A valid AVL subtree of height `h` has at least `fib(h + 2) - 1` nodes.
pub proof fn lemma_avl_size(t: Option<Box<TreeNode>>)
    requires
        avl_ok(t),
    ensures
        fib(ht(t) + 2) <= size(t) + 1,
    decreases t,
{
    if let Some(n) = t {
        lemma_avl_size(n.left);
        lemma_avl_size(n.right);
        let h = ht(t);
        assert(fib(h + 2) == fib(h + 1) + fib(h));
        if ht(n.left) >= ht(n.right) {
            lemma_fib_monotone(h, ht(n.right) + 2);
        } else {
            lemma_fib_monotone(h, ht(n.left) + 2);
        }
    } else {
        assert(fib(2) == fib(1) + fib(0));
    }
}

/// Height bound of an AVL tree with `n` nodes: `fib(height + 2) <= n + 1`,
/// which is the usual `height <= 1.44 log2(n + 2)`.
pub proof fn lemma_avl_height_bound(t: Option<Box<TreeNode>>)
    requires
        avl_tree(t),
    ensures
        fib(ht(t) + 2) <= size(t) + 1,
{
    lemma_avl_size(t);
}

/// From index 4 on, consecutive Fibonacci numbers have a ratio between
/// 8/5 and 5/3.
pub proof fn lemma_fib_ratio(n: nat)
    requires
        n >= 4,
    ensures
        8 * fib(n) <= 5 * fib(n + 1),
        3 * fib(n + 1) <= 5 * fib(n),
    decreases n,
{
    if n == 4 {
        assert(fib(0) == 0 && fib(1) == 1);
        assert(fib(2) == fib(1) + fib(0));
        assert(fib(3) == fib(2) + fib(1));
        assert(fib(4) == fib(3) + fib(2));
        assert(fib(5) == fib(4) + fib(3));
    } else {
        lemma_fib_ratio((n - 1) as nat);
        assert(fib(n + 1) == fib(n) + fib((n - 1) as nat));
    }
}

/// Thirteen steps on from index 4, a Fibonacci number grows at least
/// 512-fold (the golden ratio to the 13th power exceeds 2^9).
pub proof fn lemma_fib_thirteen_steps(n: nat)
    requires
        n >= 4,
    ensures
        512 * fib(n) <= fib(n + 13),
{
    lemma_fib_ratio(n);
    assert(fib(n + 2) == fib(n + 1) + fib(n));
    assert(fib(n + 3) == fib(n + 2) + fib(n + 1));
    assert(fib(n + 4) == fib(n + 3) + fib(n + 2));
    assert(fib(n + 5) == fib(n + 4) + fib(n + 3));
    assert(fib(n + 6) == fib(n + 5) + fib(n + 4));
    assert(fib(n + 7) == fib(n + 6) + fib(n + 5));
    assert(fib(n + 8) == fib(n + 7) + fib(n + 6));
    assert(fib(n + 9) == fib(n + 8) + fib(n + 7));
    assert(fib(n + 10) == fib(n + 9) + fib(n + 8));
    assert(fib(n + 11) == fib(n + 10) + fib(n + 9));
    assert(fib(n + 12) == fib(n + 11) + fib(n + 10));
    assert(fib(n + 13) == fib(n + 12) + fib(n + 11));
    assert(fib(n + 13) == 233 * fib(n + 1) + 144 * fib(n));
}

/// `fib(13m + 4) >= 3 * 2^(9m)`.
pub proof fn lemma_fib_blocks(m: nat)
    ensures
        3 * pow2(9 * m) <= fib(13 * m + 4),
    decreases m,
{
    lemma2_to64();
    if m == 0 {
        assert(fib(0) == 0 && fib(1) == 1);
        assert(fib(2) == fib(1) + fib(0));
        assert(fib(3) == fib(2) + fib(1));
        assert(fib(4) == fib(3) + fib(2));
    } else {
        let j = (m - 1) as nat;
        lemma_fib_blocks(j);
        lemma_fib_thirteen_steps(13 * j + 4);
        lemma_pow2_adds(9 * j, 9);
        assert(13 * j + 4 + 13 == 13 * m + 4);
        assert(9 * j + 9 == 9 * m);
        let p = pow2(9 * j);
        let f = fib(13 * j + 4);
        assert(3 * (p * 512) <= 512 * f) by (nonlinear_arith)
            requires
                3 * p <= f,
        ;
    }
}

/// Logarithmic height of an AVL tree with `n` nodes, in integers: whenever
/// the height is at least `13m + 2`, `3 * 2^(9m) <= n + 1`. Hence
/// height <= (13/9) log2((n + 1) / 3) + 14, about 1.44 log2(n).
pub proof fn lemma_avl_height_log(t: Option<Box<TreeNode>>, m: nat)
    requires
        avl_tree(t),
        13 * m + 2 <= ht(t),
    ensures
        3 * pow2(9 * m) <= size(t) + 1,
{
    lemma_avl_size(t);
    lemma_fib_blocks(m);
    lemma_fib_monotone(13 * m + 4, ht(t) + 2);
}

/// Every second Fibonacci number at least doubles: `fib(2k + 2) >= 2^k`.
pub proof fn lemma_fib_doubles(k: nat)
    ensures
        pow2(k) <= fib(2 * k + 2),
    decreases k,
{
    if k == 0 {
        lemma2_to64();
        assert(fib(2) == fib(1) + fib(0));
    } else {
        let j = (k - 1) as nat;
        lemma_fib_doubles(j);
        lemma_pow2_unfold(k);
        assert(fib(2 * k + 2) == fib(2 * j + 3) + fib(2 * j + 2));
        lemma_fib_monotone(2 * j + 2, 2 * j + 3);
    }
}

/// With distinct `u32` keys an AVL tree is at most 65 levels tall.
pub proof fn lemma_avl_height_small(t: Option<Box<TreeNode>>)
    requires
        avl_tree(t),
    ensures
        ht(t) <= 65,
{
    lemma_avl_size(t);
    lemma_size_bound(t);
    if ht(t) > 65 {
        lemma_fib_doubles(33);
        lemma_fib_monotone(68, ht(t) + 2);
        lemma2_to64();
        lemma_pow2_adds(32, 1);
    }
}

impl TreeNode {
    /// Recomputes every stored height in the subtree from the bottom up.
    pub fn fix_heights(node: Box<TreeNode>) -> (r: Box<TreeNode>)
        requires
            ht(Some(node)) < u32::MAX,
        ensures
            r.key == node.key,
            keys(Some(r)) == keys(Some(node)),
            inorder(Some(r)) == inorder(Some(node)),
            bst(Some(node)) ==> bst(Some(r)),
            ht(Some(r)) == ht(Some(node)),
            heights_ok(Some(r)),
            Some(r) == with_true_heights(Some(node)),
        decreases node,
    {
        let ghost n0: TreeNode = *node;
        let mut n = node;
        match n.left.take() {
            None => {},
            Some(c) => {
                n.left = Some(TreeNode::fix_heights(c));
            },
        }
        match n.right.take() {
            None => {},
            Some(c) => {
                n.right = Some(TreeNode::fix_heights(c));
            },
        }
        let ghost n1: TreeNode = *n;
        proof {
            lemma_same_payload(n1, n0);
            assert(stored_height(n1.left) == ht(n1.left));
            assert(stored_height(n1.right) == ht(n1.right));
            assert(ht(Some(Box::new(n1))) == ht(Some(Box::new(n0))));
            lemma_fixed_height(n1);
        }
        TreeNode::update_height_single_node(&mut n);
        proof {
            lemma_same_payload(*n, n1);
            assert(heights_ok(n.left) && heights_ok(n.right));
            assert(n.height == ht(Some(n)));
            assert(n1.left == with_true_heights(n0.left));
            assert(n1.right == with_true_heights(n0.right));
            assert(n.height == ht(Some(Box::new(n0))) as u32);
            assert(Some(n) == with_true_heights(Some(Box::new(n0))));
        }
        n
    }
}

/// `t` with every stored height replaced by the true height; keys, colors
/// and links stay as they are.
pub open spec fn with_true_heights(t: Option<Box<TreeNode>>) -> Option<Box<TreeNode>>
    decreases t,
{
    match t {
        None => None,
        Some(n) => Some(
            Box::new(
                TreeNode {
                    left: with_true_heights(n.left),
                    right: with_true_heights(n.right),
                    height: ht(t) as u32,
                    ..*n
                },
            ),
        ),
    }
}

/// Every stored height is the true height.
pub open spec fn heights_ok(t: Option<Box<TreeNode>>) -> bool
    decreases t,
{
    match t {
        None => true,
        Some(n) => heights_ok(n.left) && heights_ok(n.right) && n.height == ht(t),
    }
}

/// An AVL tree of distinct `u32` keys.
pub struct AVLTree {
    root: Option<Box<TreeNode>>,
}

impl AVLTree {
    /// The node structure the tree owns.
    pub closed spec fn tree(&self) -> Option<Box<TreeNode>> {
        self.root
    }

    /// BST order, true stored heights and balance factors in {-1, 0, 1}.
    pub open spec fn wf(&self) -> bool {
        avl_tree(self.tree())
    }

    /// An empty tree.
    pub fn new() -> (r: AVLTree)
        ensures
            r.wf(),
            r.tree().is_none(),
    {
        AVLTree { root: None }
    }

    /// The root link, for inspection.
    pub fn get_root(&self) -> (r: &Option<Box<TreeNode>>)
        ensures
            *r == self.tree(),
    {
        &self.root
    }

    /// Plain BST insertion without rebalancing; the new node has height 1
    /// and the given color. The result keeps BST order but need not be
    /// balanced.
    pub fn r_insert(&mut self, key: u32, color: NodeColor)
        requires
            bst(old(self).tree()),
        ensures
            bst(final(self).tree()),
            keys(final(self).tree()) == keys(old(self).tree()).insert(key as int),
            contains(old(self).tree(), key) ==> final(self).tree() == old(self).tree(),
            old(self).tree().is_none() ==> final(self).tree() == inserted_leaf(
                None,
                key,
                NodeColor::Black,
            ),
            old(self).tree().is_some() ==> final(self).tree() == inserted_leaf(
                old(self).tree(),
                key,
                color,
            ),
    {
        let root = self.root.take();
        match root {
            None => {
                self.root = TreeNode::new_rb(key, NodeColor::Black);
            },
            Some(n) => {
                self.root = TreeNode::regular_insert(Some(n), key, color);
            },
        }
    }

    /// Inserts a key and rebalances; a key already present leaves the tree
    /// unchanged.
    pub fn insert(&mut self, key: u32)
        requires
            old(self).wf(),
        ensures
            final(self).wf(),
            keys(final(self).tree()) == keys(old(self).tree()).insert(key as int),
            contains(old(self).tree(), key) ==> final(self).tree() == old(self).tree(),
            final(self).tree() == avl_inserted(old(self).tree(), key),
    {
        proof {
            lemma_avl_height_small(self.tree());
        }
        let root = self.root.take();
        self.root = TreeNode::insert_node_avl(root, key);
    }

    /// Removes a key and rebalances. Reports `Empty` for an empty tree and
    /// `NotFound` for an absent key, leaving the tree unchanged in both cases.
    pub fn delete(&mut self, key: u32) -> (r: DeleteOutcome)
        requires
            old(self).wf(),
        ensures
            final(self).wf(),
            keys(final(self).tree()) == keys(old(self).tree()).remove(key as int),
            r == DeleteOutcome::Empty <==> old(self).tree().is_none(),
            r == DeleteOutcome::NotFound <==> old(self).tree().is_some() && !contains(
                old(self).tree(),
                key,
            ),
            r == DeleteOutcome::Removed <==> contains(old(self).tree(), key),
            r != DeleteOutcome::Removed ==> final(self).tree() == old(self).tree(),
            contains(old(self).tree(), key) ==> final(self).tree() == avl_deleted(
                old(self).tree(),
                key,
            ),
    {
        if self.root.is_none() {
            proof {
                assert(keys(self.tree()).remove(key as int) =~= keys(self.tree()));
            }
            return DeleteOutcome::Empty;
        }
        if TreeNode::find_node(&self.root, key).is_none() {
            proof {
                assert(keys(self.tree()).remove(key as int) =~= keys(self.tree()));
            }
            return DeleteOutcome::NotFound;
        }
        proof {
            lemma_avl_height_small(self.tree());
        }
        let root = self.root.take();
        self.root = TreeNode::delete_node_avl(root, key);
        DeleteOutcome::Removed
    }

    /// Looks a key up; `None` when it is absent or the tree is empty.
    pub fn find(&self, key: u32) -> (r: Option<&TreeNode>)
        requires
            self.wf(),
        ensures
            r.is_some() == contains(self.tree(), key),
            r.is_some() ==> r.unwrap().key == key,
    {
        TreeNode::find_node(&self.root, key)
    }

    /// Whether the tree holds no key.
    pub fn is_tree_empty(&self) -> (r: bool)
        ensures
            r == self.tree().is_none(),
    {
        self.root.is_none()
    }

    /// Leaf count with every absent child slot as one leaf: `n + 1` for a
    /// tree of `n` nodes, and 0 for the empty tree.
    pub fn count_number_of_leaves(&self) -> (r: u64)
        requires
            self.wf(),
        ensures
            self.tree().is_none() ==> r == 0,
            self.tree().is_some() ==> r == leaf_count(self.tree()),
            self.tree().is_some() ==> r == size(self.tree()) + 1,
    {
        match &self.root {
            None => 0,
            Some(n) => {
                proof {
                    lemma_size_bound(self.tree());
                    lemma_leaf_count(self.tree());
                }
                TreeNode::node_count_number_of_leaves(n)
            },
        }
    }

    /// Height of the tree: 0 when empty, 1 for a single node.
    pub fn get_height_of_tree(&self) -> (r: usize)
        requires
            self.wf(),
        ensures
            r == ht(self.tree()),
    {
        match &self.root {
            None => 0,
            Some(n) => {
                proof {
                    lemma_avl_height_small(self.tree());
                }
                TreeNode::node_get_height_of_tree(n)
            },
        }
    }

    /// The keys in order: left subtree, node, right subtree.
    pub fn in_order(&self) -> (r: Vec<u32>)
        ensures
            r@ == inorder(self.tree()),
    {
        let mut out: Vec<u32> = Vec::new();
        TreeNode::node_in_order(&self.root, &mut out);
        assert(out@ =~= inorder(self.tree()));
        out
    }

    /// The keys in pre-order: node, left subtree, right subtree.
    pub fn pre_order(&self) -> (r: Vec<u32>)
        ensures
            r@ == preorder(self.tree()),
    {
        let mut out: Vec<u32> = Vec::new();
        TreeNode::node_pre_order(&self.root, &mut out);
        assert(out@ =~= preorder(self.tree()));
        out
    }
}

} // verus!
