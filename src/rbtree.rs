//! The red-black discipline: invariants, composite rotations, insertion
//! fixup, deletion with double-black fixup, and the `RBTree` container.
use vstd::prelude::*;
use vstd::arithmetic::power2::{pow2, lemma_pow2_adds, lemma_pow2_strictly_increases, lemma_pow2_pos, lemma2_to64};
use crate::node::{inserted_leaf, ChildPosition, DeleteOutcome, NodeColor, TreeNode, bst, keys, inorder, preorder, ht, size,
    leaf_count, contains, leftmost_key, rotated_right, rotated_left, lemma_size_bound, lemma_leaf_count};

verus! {

/// The state of the insertion fixup, evaluated at a grandparent.
#[derive(Clone, Copy, Debug, PartialEq, Eq, Structural)]
pub enum InsertCase {
    /// The parent is black (or there is no red pair below): no change.
    Nothing,
    /// Parent and uncle are red: recolor and continue further up.
    Recolor,
    /// Parent is the left child and the red node its left child.
    LL,
    /// Parent is the right child and the red node its right child.
    RR,
    /// Parent is the left child and the red node its right child.
    LR,
    /// Parent is the right child and the red node its left child.
    RL,
}

/// Whether a subtree is present with a red root.
pub open spec fn is_red(t: Option<Box<TreeNode>>) -> bool {
    t.is_some() && t.unwrap().color == NodeColor::Red
}

/// Black nodes on the leftmost downward path; equal on all paths when
/// `rb_ok` holds.
pub open spec fn black_height(t: Option<Box<TreeNode>>) -> nat
    decreases t,
{
    match t {
        None => 0,
        Some(n) => black_height(n.left) + if n.color == NodeColor::Black {
            1nat
        } else {
            0nat
        },
    }
}

/// No red node has a red child, and every downward path to an absent child
/// passes through the same number of black nodes.
pub open spec fn rb_ok(t: Option<Box<TreeNode>>) -> bool
    decreases t,
{
    match t {
        None => true,
        Some(n) => {
            &&& rb_ok(n.left)
            &&& rb_ok(n.right)
            &&& black_height(n.left) == black_height(n.right)
            &&& n.color == NodeColor::Red ==> !is_red(n.left) && !is_red(n.right)
        },
    }
}

/// A red-black tree: BST order, `rb_ok`, and a root that is not red.
pub open spec fn rb_tree(t: Option<Box<TreeNode>>) -> bool {
    bst(t) && rb_ok(t) && !is_red(t)
}

/// Both subtrees satisfy `rb_ok` with equal black height and are not both
/// red; only the root may be in a red-red conflict with one child.
pub open spec fn rb_almost(t: Option<Box<TreeNode>>) -> bool {
    &&& t.is_some()
    &&& rb_ok(t.unwrap().left)
    &&& rb_ok(t.unwrap().right)
    &&& black_height(t.unwrap().left) == black_height(t.unwrap().right)
    &&& !(is_red(t.unwrap().left) && is_red(t.unwrap().right))
}

/// The child in a given slot (absent for `Root`).
pub open spec fn child(n: TreeNode, pos: ChildPosition) -> Option<Box<TreeNode>> {
    match pos {
        ChildPosition::Left => n.left,
        ChildPosition::Right => n.right,
        ChildPosition::Root => None,
    }
}

/// The child opposite to a given slot (absent for `Root`).
pub open spec fn other_child(n: TreeNode, pos: ChildPosition) -> Option<Box<TreeNode>> {
    match pos {
        ChildPosition::Left => n.right,
        ChildPosition::Right => n.left,
        ChildPosition::Root => None,
    }
}

/// `n` after a right rotation with the two rotated nodes' colors swapped.
pub open spec fn ll_rotated(n: TreeNode) -> TreeNode {
    let r = rotated_right(n);
    let m = r.right.unwrap();
    TreeNode {
        color: n.color,
        right: Some(Box::new(TreeNode { color: r.color, ..*m })),
        ..r
    }
}

/// `n` after a left rotation with the two rotated nodes' colors swapped.
pub open spec fn rr_rotated(n: TreeNode) -> TreeNode {
    let r = rotated_left(n);
    let m = r.left.unwrap();
    TreeNode {
        color: n.color,
        left: Some(Box::new(TreeNode { color: r.color, ..*m })),
        ..r
    }
}

/// The classification of the insertion fixup at grandparent `g`, whose
/// child in slot `pos` is the parent.
pub open spec fn insert_case(g: TreeNode, pos: ChildPosition) -> InsertCase {
    let p = child(g, pos);
    if !is_red(p) {
        InsertCase::Nothing
    } else if !is_red(p.unwrap().left) && !is_red(p.unwrap().right) {
        InsertCase::Nothing
    } else if is_red(other_child(g, pos)) {
        InsertCase::Recolor
    } else if pos == ChildPosition::Left {
        if is_red(p.unwrap().left) {
            InsertCase::LL
        } else {
            InsertCase::LR
        }
    } else if is_red(p.unwrap().left) {
        InsertCase::RL
    } else {
        InsertCase::RR
    }
}

/// `g` after the recolor step: both children black, `g` red unless it is
/// the root.
pub open spec fn recolored(g: TreeNode, is_root: bool) -> TreeNode {
    TreeNode {
        color: if is_root {
            g.color
        } else {
            NodeColor::Red
        },
        left: Some(Box::new((TreeNode { color: NodeColor::Black, ..*g.left.unwrap() }))),
        right: Some(Box::new((TreeNode { color: NodeColor::Black, ..*g.right.unwrap() }))),
        ..g
    }
}

/// The subtree the insertion fixup leaves at grandparent `g`: the step that
/// `insert_case` names.
pub open spec fn fixed_after_insert(g: TreeNode, pos: ChildPosition, is_root: bool) -> TreeNode {
    match insert_case(g, pos) {
        InsertCase::Nothing => g,
        InsertCase::Recolor => recolored(g, is_root),
        InsertCase::LL => ll_rotated(g),
        InsertCase::RR => rr_rotated(g),
        InsertCase::LR => ll_rotated(
            (TreeNode { left: Some(Box::new(rr_rotated(*g.left.unwrap()))), ..g }),
        ),
        InsertCase::RL => rr_rotated(
            (TreeNode { right: Some(Box::new(ll_rotated(*g.right.unwrap()))), ..g }),
        ),
    }
}

/// The subtree red-black insertion builds: BST descent to a new red leaf,
/// then the fixup at every ancestor on the way back up.
pub open spec fn rb_inserted(t: Option<Box<TreeNode>>, k: u32, is_root: bool) -> Option<
    Box<TreeNode>,
>
    decreases t,
{
    match t {
        None => Some(
            Box::new(TreeNode { color: NodeColor::Red, key: k, left: None, right: None, height: 1 }),
        ),
        Some(n) => if k < n.key {
            Some(
                Box::new(
                    fixed_after_insert(
                        (TreeNode { left: rb_inserted(n.left, k, false), ..*n }),
                        ChildPosition::Left,
                        is_root,
                    ),
                ),
            )
        } else if k > n.key {
            Some(
                Box::new(
                    fixed_after_insert(
                        (TreeNode { right: rb_inserted(n.right, k, false), ..*n }),
                        ChildPosition::Right,
                        is_root,
                    ),
                ),
            )
        } else {
            t
        },
    }
}

/// The tree `RBTree::insert` builds: a black root for an empty tree,
/// otherwise red-black insertion from the root.
pub open spec fn rb_insert_result(t: Option<Box<TreeNode>>, k: u32) -> Option<Box<TreeNode>> {
    if t.is_none() {
        Some(
            Box::new(
                TreeNode { color: NodeColor::Black, key: k, left: None, right: None, height: 1 },
            ),
        )
    } else {
        rb_inserted(t, k, true)
    }
}

fn link_is_red(t: &Option<Box<TreeNode>>) -> (r: bool)
    ensures
        r == is_red(*t),
{
    match t {
        Some(n) => n.color == NodeColor::Red,
        None => false,
    }
}

/// Painting a node black whose children agree on black height yields a
/// valid subtree one black level taller than its children.
pub proof fn lemma_blacken(n: TreeNode)
    requires
        rb_ok(n.left),
        rb_ok(n.right),
        black_height(n.left) == black_height(n.right),
    ensures
        rb_ok(Some(Box::new((TreeNode { color: NodeColor::Black, ..n })))),
        black_height(Some(Box::new((TreeNode { color: NodeColor::Black, ..n }))))
            == black_height(n.left) + 1,
{
}

/// Outer-left red-red pair under a black grandparent with a black uncle: the
/// color-swapping right rotation yields a valid subtree of equal black height.
pub proof fn lemma_fix_ll(g: TreeNode)
    requires
        g.color == NodeColor::Black,
        is_red(g.left),
        rb_almost(g.left),
        is_red(g.left.unwrap().left),
        rb_ok(g.right),
        !is_red(g.right),
        black_height(g.left) == black_height(g.right),
    ensures
        rb_ok(Some(Box::new(ll_rotated(g)))),
        black_height(Some(Box::new(ll_rotated(g)))) == black_height(Some(Box::new(g))),
        ll_rotated(g).color == NodeColor::Black,
{
    let p = *g.left.unwrap();
    let r = ll_rotated(g);
    let m = *r.right.unwrap();
    assert(m.left == p.right && m.right == g.right && m.color == NodeColor::Red);
    assert(rb_ok(r.right));
    assert(black_height(r.right) == black_height(p.right));
}

/// Outer-right red-red pair: mirror image of `lemma_fix_ll`.
pub proof fn lemma_fix_rr(g: TreeNode)
    requires
        g.color == NodeColor::Black,
        is_red(g.right),
        rb_almost(g.right),
        is_red(g.right.unwrap().right),
        rb_ok(g.left),
        !is_red(g.left),
        black_height(g.left) == black_height(g.right),
    ensures
        rb_ok(Some(Box::new(rr_rotated(g)))),
        black_height(Some(Box::new(rr_rotated(g)))) == black_height(Some(Box::new(g))),
        rr_rotated(g).color == NodeColor::Black,
{
    let p = *g.right.unwrap();
    let r = rr_rotated(g);
    let m = *r.left.unwrap();
    assert(m.right == p.left && m.left == g.left && m.color == NodeColor::Red);
    assert(rb_ok(r.left));
    assert(black_height(r.left) == black_height(g.left));
}

/// Inner red-red pair under the left child: the double rotation yields a
/// valid subtree of equal black height.
pub proof fn lemma_fix_lr(g: TreeNode)
    requires
        g.color == NodeColor::Black,
        is_red(g.left),
        rb_almost(g.left),
        !is_red(g.left.unwrap().left),
        is_red(g.left.unwrap().right),
        rb_ok(g.right),
        !is_red(g.right),
        black_height(g.left) == black_height(g.right),
    ensures
        ({
            let r = ll_rotated(
                (TreeNode { left: Some(Box::new(rr_rotated(*g.left.unwrap()))), ..g }),
            );
            &&& rb_ok(Some(Box::new(r)))
            &&& black_height(Some(Box::new(r))) == black_height(Some(Box::new(g)))
            &&& r.color == NodeColor::Black
        }),
{
    let p = *g.left.unwrap();
    let n = *p.right.unwrap();
    let q = rr_rotated(p);
    let g1 = TreeNode { left: Some(Box::new(q)), ..g };
    let r = ll_rotated(g1);
    let a = *q.left.unwrap();
    assert(a.left == p.left && a.right == n.left && a.color == NodeColor::Red);
    assert(rb_ok(Some(Box::new(a))));
    let b = *r.right.unwrap();
    assert(b.left == n.right && b.right == g.right && b.color == NodeColor::Red);
    assert(rb_ok(Some(Box::new(b))));
    assert(r.left == Some(Box::new(a)));
}

/// Inner red-red pair under the right child: mirror image of `lemma_fix_lr`.
pub proof fn lemma_fix_rl(g: TreeNode)
    requires
        g.color == NodeColor::Black,
        is_red(g.right),
        rb_almost(g.right),
        is_red(g.right.unwrap().left),
        !is_red(g.right.unwrap().right),
        rb_ok(g.left),
        !is_red(g.left),
        black_height(g.left) == black_height(g.right),
    ensures
        ({
            let r = rr_rotated(
                (TreeNode { right: Some(Box::new(ll_rotated(*g.right.unwrap()))), ..g }),
            );
            &&& rb_ok(Some(Box::new(r)))
            &&& black_height(Some(Box::new(r))) == black_height(Some(Box::new(g)))
            &&& r.color == NodeColor::Black
        }),
{
    let p = *g.right.unwrap();
    let n = *p.left.unwrap();
    let q = ll_rotated(p);
    let g1 = TreeNode { right: Some(Box::new(q)), ..g };
    let r = rr_rotated(g1);
    let a = *q.right.unwrap();
    assert(a.right == p.right && a.left == n.right && a.color == NodeColor::Red);
    assert(rb_ok(Some(Box::new(a))));
    let b = *r.left.unwrap();
    assert(b.right == n.left && b.left == g.left && b.color == NodeColor::Red);
    assert(rb_ok(Some(Box::new(b))));
    assert(r.right == Some(Box::new(a)));
    assert(r.left == Some(Box::new(b)));
    assert(black_height(Some(Box::new(a))) == black_height(n.right));
    assert(black_height(Some(Box::new(b))) == black_height(g.left));
    assert(black_height(n.right) == black_height(g.left));
}

impl TreeNode {
    /// Right rotation at `node` that also swaps the colors of `node` and its
    /// left child.
    pub fn ll_rotate(node: Box<TreeNode>) -> (r: Box<TreeNode>)
        requires
            node.left.is_some(),
        ensures
            *r == ll_rotated(*node),
            keys(Some(r)) == keys(Some(node)),
            inorder(Some(r)) == inorder(Some(node)),
            bst(Some(node)) ==> bst(Some(r)),
    {
        let node_color = node.color;
        let mut top = TreeNode::right_rotate(node);
        let mut down = top.right.take().unwrap();
        down.color = top.color;
        top.color = node_color;
        top.right = Some(down);
        proof {
            let rot = rotated_right(*node);
            crate::node::lemma_same_payload(*down, *rot.right.unwrap());
            crate::node::lemma_same_payload(*top, rot);
        }
        top
    }

    /// Left rotation at `node` that also swaps the colors of `node` and its
    /// right child.
    pub fn rr_rotate(node: Box<TreeNode>) -> (r: Box<TreeNode>)
        requires
            node.right.is_some(),
        ensures
            *r == rr_rotated(*node),
            keys(Some(r)) == keys(Some(node)),
            inorder(Some(r)) == inorder(Some(node)),
            bst(Some(node)) ==> bst(Some(r)),
    {
        let node_color = node.color;
        let mut top = TreeNode::left_rotate(node);
        let mut down = top.left.take().unwrap();
        down.color = top.color;
        top.color = node_color;
        top.left = Some(down);
        proof {
            let rot = rotated_left(*node);
            crate::node::lemma_same_payload(*down, *rot.left.unwrap());
            crate::node::lemma_same_payload(*top, rot);
        }
        top
    }

    /// Double rotation for a left child leaning right: a color-swapping left
    /// rotation at the left child, then a color-swapping right rotation here.
    pub fn lr_rotate(node: Box<TreeNode>) -> (r: Box<TreeNode>)
        requires
            node.left.is_some(),
            node.left.unwrap().right.is_some(),
        ensures
            *r == ll_rotated(
                (TreeNode { left: Some(Box::new(rr_rotated(*node.left.unwrap()))), ..*node }),
            ),
            keys(Some(r)) == keys(Some(node)),
            inorder(Some(r)) == inorder(Some(node)),
            bst(Some(node)) ==> bst(Some(r)),
    {
        let mut n = node;
        let l = n.left.take().unwrap();
        n.left = Some(TreeNode::rr_rotate(l));
        proof {
            crate::node::lemma_same_payload(*n, *node);
        }
        TreeNode::ll_rotate(n)
    }

    /// Double rotation for a right child leaning left: a color-swapping right
    /// rotation at the right child, then a color-swapping left rotation here.
    pub fn rl_rotate(node: Box<TreeNode>) -> (r: Box<TreeNode>)
        requires
            node.right.is_some(),
            node.right.unwrap().left.is_some(),
        ensures
            *r == rr_rotated(
                (TreeNode { right: Some(Box::new(ll_rotated(*node.right.unwrap()))), ..*node }),
            ),
            keys(Some(r)) == keys(Some(node)),
            inorder(Some(r)) == inorder(Some(node)),
            bst(Some(node)) ==> bst(Some(r)),
    {
        let mut n = node;
        let c = n.right.take().unwrap();
        n.right = Some(TreeNode::ll_rotate(c));
        proof {
            crate::node::lemma_same_payload(*n, *node);
        }
        TreeNode::rr_rotate(n)
    }

    /// The rotation case named by the slots of the parent (under the
    /// grandparent) and of the node (under the parent).
    pub fn determine_rotation(parent_pos: ChildPosition, node_pos: ChildPosition) -> (r:
        InsertCase)
        ensures
            r == (match (parent_pos, node_pos) {
                (ChildPosition::Left, ChildPosition::Left) => InsertCase::LL,
                (ChildPosition::Right, ChildPosition::Right) => InsertCase::RR,
                (ChildPosition::Left, ChildPosition::Right) => InsertCase::LR,
                (ChildPosition::Right, ChildPosition::Left) => InsertCase::RL,
                _ => InsertCase::Nothing,
            }),
    {
        match (parent_pos, node_pos) {
            (ChildPosition::Left, ChildPosition::Left) => InsertCase::LL,
            (ChildPosition::Right, ChildPosition::Right) => InsertCase::RR,
            (ChildPosition::Left, ChildPosition::Right) => InsertCase::LR,
            (ChildPosition::Right, ChildPosition::Left) => InsertCase::RL,
            _ => InsertCase::Nothing,
        }
    }

    /// With `self` as grandparent: whether the parent in `parent_pos` is red.
    pub fn is_parent_red(&self, parent_pos: ChildPosition) -> (r: bool)
        ensures
            r == is_red(child(*self, parent_pos)),
    {
        match parent_pos {
            ChildPosition::Left => link_is_red(&self.left),
            ChildPosition::Right => link_is_red(&self.right),
            ChildPosition::Root => false,
        }
    }

    /// With `self` as grandparent: whether the uncle (the child opposite
    /// `parent_pos`) is red.
    pub fn is_uncle_red(&self, parent_pos: ChildPosition) -> (r: bool)
        ensures
            r == is_red(other_child(*self, parent_pos)),
    {
        match parent_pos {
            ChildPosition::Left => link_is_red(&self.right),
            ChildPosition::Right => link_is_red(&self.left),
            ChildPosition::Root => false,
        }
    }

    /// With `self` as grandparent: whether the uncle is black, an absent
    /// uncle counting as black.
    pub fn is_uncle_black(&self, parent_pos: ChildPosition) -> (r: bool)
        ensures
            r == !is_red(other_child(*self, parent_pos)),
    {
        !self.is_uncle_red(parent_pos)
    }

    /// Classifies the insertion fixup at grandparent `self` whose child in
    /// `parent_pos` is the parent of a possibly red-red pair.
    pub fn determine_case(&self, parent_pos: ChildPosition) -> (r: InsertCase)
        ensures
            r == insert_case(*self, parent_pos),
    {
        if !self.is_parent_red(parent_pos) {
            return InsertCase::Nothing;
        }
        let link = match parent_pos {
            ChildPosition::Left => &self.left,
            _ => &self.right,
        };
        let parent = match link {
            Some(p) => p,
            None => {
                return InsertCase::Nothing;
            },
        };
        let node_pos = if link_is_red(&parent.left) {
            ChildPosition::Left
        } else if link_is_red(&parent.right) {
            ChildPosition::Right
        } else {
            return InsertCase::Nothing;
        };
        if self.is_uncle_red(parent_pos) {
            InsertCase::Recolor
        } else {
            TreeNode::determine_rotation(parent_pos, node_pos)
        }
    }

    /// Recolor step at grandparent `g`: parent and uncle become black, and
    /// `g` becomes red unless it is the root.
    pub fn recolor(g: &mut TreeNode, is_root: bool)
        requires
            old(g).left.is_some(),
            old(g).right.is_some(),
        ensures
            final(g).key == old(g).key,
            final(g).height == old(g).height,
            final(g).color == (if is_root { old(g).color } else { NodeColor::Red }),
            final(g).left == Some(
                Box::new((TreeNode { color: NodeColor::Black, ..*old(g).left.unwrap() })),
            ),
            final(g).right == Some(
                Box::new((TreeNode { color: NodeColor::Black, ..*old(g).right.unwrap() })),
            ),
    {
        let mut l = g.left.take().unwrap();
        l.color = NodeColor::Black;
        g.left = Some(l);
        let mut r = g.right.take().unwrap();
        r.color = NodeColor::Black;
        g.right = Some(r);
        if !is_root {
            g.color = NodeColor::Red;
        }
    }

    /// Insertion fixup at grandparent `g` after the subtree in slot `pos`
    /// received a new key: applies the case that `determine_case` names.
    fn insert_fixup(g: Box<TreeNode>, pos: ChildPosition, is_root: bool) -> (r: Box<TreeNode>)
        requires
            pos != ChildPosition::Root,
            child(*g, pos).is_some(),
            bst(Some(g)),
            rb_ok(other_child(*g, pos)),
            rb_ok(child(*g, pos)) || (is_red(child(*g, pos)) && rb_almost(child(*g, pos))),
            black_height(child(*g, pos)) == black_height(other_child(*g, pos)),
            g.color == NodeColor::Red ==> rb_ok(child(*g, pos)) && !is_red(
                other_child(*g, pos),
            ),
            is_root ==> g.color == NodeColor::Black,
        ensures
            keys(Some(r)) == keys(Some(g)),
            inorder(Some(r)) == inorder(Some(g)),
            bst(Some(r)),
            rb_ok(Some(r)) || (g.color == NodeColor::Red && rb_almost(Some(r))),
            !is_root ==> black_height(Some(r)) == black_height(Some(g)),
            g.color == NodeColor::Red ==> r.color == NodeColor::Red,
            is_root ==> r.color == NodeColor::Black,
            rb_ok(Some(g)) ==> r == g,
            *r == fixed_after_insert(*g, pos, is_root),
    {
        proof {
            if rb_ok(Some(g)) {
                assert(rb_ok(child(*g, pos)));
                assert(insert_case(*g, pos) == InsertCase::Nothing);
            }
        }
        let case = g.determine_case(pos);
        match case {
            InsertCase::Nothing => {
                proof {
                    let p = *child(*g, pos).unwrap();
                    assert(rb_ok(Some(Box::new(p))));
                }
                g
            },
            InsertCase::Recolor => {
                let ghost g0: TreeNode = *g;
                let mut g = g;
                TreeNode::recolor(&mut g, is_root);
                proof {
                    let l0 = *g0.left.unwrap();
                    let r0 = *g0.right.unwrap();
                    crate::node::lemma_same_payload(*g.left.unwrap(), l0);
                    crate::node::lemma_same_payload(*g.right.unwrap(), r0);
                    crate::node::lemma_same_payload(*g, g0);
                    lemma_blacken(l0);
                    lemma_blacken(r0);
                }
                g
            },
            InsertCase::LL => {
                proof {
                    lemma_fix_ll(*g);
                }
                TreeNode::ll_rotate(g)
            },
            InsertCase::RR => {
                proof {
                    lemma_fix_rr(*g);
                }
                TreeNode::rr_rotate(g)
            },
            InsertCase::LR => {
                proof {
                    lemma_fix_lr(*g);
                }
                TreeNode::lr_rotate(g)
            },
            InsertCase::RL => {
                proof {
                    lemma_fix_rl(*g);
                }
                TreeNode::rl_rotate(g)
            },
        }
    }

    /// Red-black insertion into a subtree: BST descent, a red leaf for a new
    /// key, then the fixup at every ancestor on the way back up.
    fn insert_node_rb(t: Option<Box<TreeNode>>, key: u32, is_root: bool) -> (r: Option<
        Box<TreeNode>,
    >)
        requires
            bst(t),
            rb_ok(t),
            is_root ==> t.is_some() && !is_red(t),
        ensures
            r.is_some(),
            bst(r),
            keys(r) == keys(t).insert(key as int),
            !is_root ==> black_height(r) == black_height(t),
            !is_red(t) ==> rb_ok(r),
            is_red(t) ==> is_red(r) && rb_almost(r),
            is_root ==> !is_red(r),
            contains(t, key) ==> r == t,
            r == rb_inserted(t, key, is_root),
        decreases t,
    {
        match t {
            None => TreeNode::new_rb(key, NodeColor::Red),
            Some(node) => {
                assert(keys(t) == keys(node.left).union(keys(node.right)).insert(node.key as int));
                let mut g = node;
                if key < g.key {
                    let l = g.left.take();
                    g.left = TreeNode::insert_node_rb(l, key, false);
                    proof {
                        assert(keys(Some(g)) =~= keys(t).insert(key as int));
                        if contains(t, key) {
                            assert(*g == *node);
                        }
                    }
                    Some(TreeNode::insert_fixup(g, ChildPosition::Left, is_root))
                } else if key > g.key {
                    let r = g.right.take();
                    g.right = TreeNode::insert_node_rb(r, key, false);
                    proof {
                        assert(keys(Some(g)) =~= keys(t).insert(key as int));
                        if contains(t, key) {
                            assert(*g == *node);
                        }
                    }
                    Some(TreeNode::insert_fixup(g, ChildPosition::Right, is_root))
                } else {
                    proof {
                        assert(keys(t) =~= keys(t).insert(key as int));
                    }
                    Some(g)
                }
            },
        }
    }
}

/// Which fixup step applies next at `n`, whose child in `pos` is one black
/// level short: a red sibling first, then a red close nephew, then the rest.
pub open spec fn fixup_rank(n: TreeNode, pos: ChildPosition) -> nat {
    let s = other_child(n, pos);
    if is_red(s) {
        2
    } else if s.is_some() && pos == ChildPosition::Left && !is_red(s.unwrap().right) && is_red(
        s.unwrap().left,
    ) {
        1
    } else if s.is_some() && pos == ChildPosition::Right && !is_red(s.unwrap().left) && is_red(
        s.unwrap().right,
    ) {
        1
    } else {
        0
    }
}

/// The subtree and the shortage flag that the double-black fixup leaves at
/// `n`, whose child in slot `pos` is one black level short.
pub open spec fn fixed_after_delete(n: TreeNode, pos: ChildPosition) -> (TreeNode, bool)
    decreases fixup_rank(n, pos),
{
    if pos == ChildPosition::Left {
        let s = *n.right.unwrap();
        if s.color == NodeColor::Red {
            let top = rr_rotated(n);
            let down = *top.left.unwrap();
            if fixup_rank(down, ChildPosition::Left) < fixup_rank(n, pos) {
                (
                    TreeNode {
                        left: Some(Box::new(fixed_after_delete(down, ChildPosition::Left).0)),
                        ..top
                    },
                    false,
                )
            } else {
                (n, false)
            }
        } else if !is_red(s.left) && !is_red(s.right) {
            let m = TreeNode {
                right: Some(Box::new((TreeNode { color: NodeColor::Red, ..s }))),
                ..n
            };
            if n.color == NodeColor::Black {
                (m, true)
            } else {
                (TreeNode { color: NodeColor::Black, ..m }, false)
            }
        } else if !is_red(s.right) {
            let m = TreeNode { right: Some(Box::new(ll_rotated(s))), ..n };
            if fixup_rank(m, pos) < fixup_rank(n, pos) {
                fixed_after_delete(m, pos)
            } else {
                (n, false)
            }
        } else {
            let top = rr_rotated(n);
            (
                TreeNode {
                    right: Some(
                        Box::new((TreeNode { color: NodeColor::Black, ..*top.right.unwrap() })),
                    ),
                    ..top
                },
                false,
            )
        }
    } else {
        let s = *n.left.unwrap();
        if s.color == NodeColor::Red {
            let top = ll_rotated(n);
            let down = *top.right.unwrap();
            if fixup_rank(down, ChildPosition::Right) < fixup_rank(n, pos) {
                (
                    TreeNode {
                        right: Some(Box::new(fixed_after_delete(down, ChildPosition::Right).0)),
                        ..top
                    },
                    false,
                )
            } else {
                (n, false)
            }
        } else if !is_red(s.left) && !is_red(s.right) {
            let m = TreeNode {
                left: Some(Box::new((TreeNode { color: NodeColor::Red, ..s }))),
                ..n
            };
            if n.color == NodeColor::Black {
                (m, true)
            } else {
                (TreeNode { color: NodeColor::Black, ..m }, false)
            }
        } else if !is_red(s.left) {
            let m = TreeNode { left: Some(Box::new(rr_rotated(s))), ..n };
            if fixup_rank(m, pos) < fixup_rank(n, pos) {
                fixed_after_delete(m, pos)
            } else {
                (n, false)
            }
        } else {
            let top = ll_rotated(n);
            (
                TreeNode {
                    left: Some(
                        Box::new((TreeNode { color: NodeColor::Black, ..*top.left.unwrap() })),
                    ),
                    ..top
                },
                false,
            )
        }
    }
}

/// `m` as a subtree after one of its children lost a black level or not:
/// the fixup result in the first case, `m` itself in the second.
pub open spec fn repaired(m: TreeNode, pos: ChildPosition, short: bool) -> (
    Option<Box<TreeNode>>,
    bool,
) {
    if short {
        (Some(Box::new(fixed_after_delete(m, pos).0)), fixed_after_delete(m, pos).1)
    } else {
        (Some(Box::new(m)), false)
    }
}

/// The subtree and shortage flag red-black deletion produces: descent by
/// key; a node with two children takes its successor's key and the
/// successor is removed from the right subtree; a red node with at most one
/// child is detached; a black node with one child is replaced by that child
/// painted black; a black leaf is removed leaving a shortage; every shortage
/// is repaired by the fixup on the way back up.
pub open spec fn rb_deleted(t: Option<Box<TreeNode>>, k: u32) -> (Option<Box<TreeNode>>, bool)
    decreases t,
{
    match t {
        None => (None, false),
        Some(n) => if k < n.key {
            let d = rb_deleted(n.left, k);
            repaired((TreeNode { left: d.0, ..*n }), ChildPosition::Left, d.1)
        } else if k > n.key {
            let d = rb_deleted(n.right, k);
            repaired((TreeNode { right: d.0, ..*n }), ChildPosition::Right, d.1)
        } else if n.left.is_some() && n.right.is_some() {
            let succ = leftmost_key(*n.right.unwrap());
            let d = rb_deleted(n.right, succ);
            repaired((TreeNode { key: succ, right: d.0, ..*n }), ChildPosition::Right, d.1)
        } else if n.color == NodeColor::Red {
            if n.left.is_some() {
                (n.left, false)
            } else {
                (n.right, false)
            }
        } else if n.left.is_some() {
            (Some(Box::new((TreeNode { color: NodeColor::Black, ..*n.left.unwrap() }))), false)
        } else if n.right.is_some() {
            (Some(Box::new((TreeNode { color: NodeColor::Black, ..*n.right.unwrap() }))), false)
        } else {
            (None, true)
        },
    }
}

fn paint_black(n: Box<TreeNode>) -> (r: Box<TreeNode>)
    ensures
        *r == (TreeNode { color: NodeColor::Black, ..*n }),
        keys(Some(r)) == keys(Some(n)),
        inorder(Some(r)) == inorder(Some(n)),
        bst(Some(n)) ==> bst(Some(r)),
{
    let mut n = n;
    n.color = NodeColor::Black;
    n
}

fn paint_red(n: Box<TreeNode>) -> (r: Box<TreeNode>)
    ensures
        *r == (TreeNode { color: NodeColor::Red, ..*n }),
        keys(Some(r)) == keys(Some(n)),
        inorder(Some(r)) == inorder(Some(n)),
        bst(Some(n)) ==> bst(Some(r)),
{
    let mut n = n;
    n.color = NodeColor::Red;
    n
}

/// A black sibling whose only red child is the close one, rotated away from
/// the short side with its colors swapped, stays valid at equal black height
/// and now has a red far child.
pub proof fn lemma_turn_sibling_right(s: TreeNode)
    requires
        s.color == NodeColor::Black,
        rb_ok(Some(Box::new(s))),
        is_red(s.left),
        !is_red(s.right),
    ensures
        rb_ok(Some(Box::new(ll_rotated(s)))),
        black_height(Some(Box::new(ll_rotated(s)))) == black_height(Some(Box::new(s))),
        ll_rotated(s).color == NodeColor::Black,
        is_red(ll_rotated(s).right),
{
    let c = *s.left.unwrap();
    let r = ll_rotated(s);
    let m = *r.right.unwrap();
    assert(m.left == c.right && m.right == s.right && m.color == NodeColor::Red);
    assert(rb_ok(s.left));
    assert(rb_ok(c.right) && !is_red(c.right));
    assert(black_height(c.right) == black_height(c.left));
    assert(black_height(s.left) == black_height(c.left));
    assert(rb_ok(r.right));
}

/// Mirror image of `lemma_turn_sibling_right`.
pub proof fn lemma_turn_sibling_left(s: TreeNode)
    requires
        s.color == NodeColor::Black,
        rb_ok(Some(Box::new(s))),
        is_red(s.right),
        !is_red(s.left),
    ensures
        rb_ok(Some(Box::new(rr_rotated(s)))),
        black_height(Some(Box::new(rr_rotated(s)))) == black_height(Some(Box::new(s))),
        rr_rotated(s).color == NodeColor::Black,
        is_red(rr_rotated(s).left),
{
    let c = *s.right.unwrap();
    let r = rr_rotated(s);
    let m = *r.left.unwrap();
    assert(m.right == c.left && m.left == s.left && m.color == NodeColor::Red);
    assert(rb_ok(s.right));
    assert(rb_ok(c.left) && !is_red(c.left));
    assert(black_height(c.right) == black_height(c.left));
    assert(black_height(s.right) == black_height(c.left));
    assert(rb_ok(r.left));
    assert(black_height(r.left) == black_height(s.left));
}

/// Red far nephew, short left side: after the color-swapping left rotation
/// and painting the far nephew black, the subtree is valid and has regained
/// the missing black level.
pub proof fn lemma_far_red_left(n: TreeNode)
    requires
        rb_ok(n.left),
        !is_red(n.left),
        rb_ok(n.right),
        n.right.is_some(),
        n.right.unwrap().color == NodeColor::Black,
        is_red(n.right.unwrap().right),
        black_height(n.left) + 1 == black_height(n.right),
    ensures
        ({
            let top = rr_rotated(n);
            let r = TreeNode {
                right: Some(Box::new((TreeNode { color: NodeColor::Black, ..*top.right.unwrap() }))),
                ..top
            };
            &&& rb_ok(Some(Box::new(r)))
            &&& black_height(Some(Box::new(r))) == black_height(n.right) + (if n.color
                == NodeColor::Black {
                1nat
            } else {
                0nat
            })
            &&& r.color == n.color
        }),
{
    let s = *n.right.unwrap();
    let top = rr_rotated(n);
    let d = *top.left.unwrap();
    assert(d.left == n.left && d.right == s.left && d.color == NodeColor::Black);
    assert(rb_ok(s.left) && rb_ok(s.right));
    assert(black_height(n.right) == black_height(s.left) + 1);
    assert(rb_ok(top.left));
    assert(black_height(top.left) == black_height(n.left) + 1);
    let f = *s.right.unwrap();
    assert(black_height(s.right) == black_height(f.left));
    let fb = TreeNode { color: NodeColor::Black, ..*top.right.unwrap() };
    assert(fb.left == f.left && fb.right == f.right);
    assert(rb_ok(Some(Box::new(fb))));
    assert(black_height(Some(Box::new(fb))) == black_height(f.left) + 1);
}

/// Mirror image of `lemma_far_red_left`.
pub proof fn lemma_far_red_right(n: TreeNode)
    requires
        rb_ok(n.right),
        !is_red(n.right),
        rb_ok(n.left),
        n.left.is_some(),
        n.left.unwrap().color == NodeColor::Black,
        is_red(n.left.unwrap().left),
        black_height(n.right) + 1 == black_height(n.left),
    ensures
        ({
            let top = ll_rotated(n);
            let r = TreeNode {
                left: Some(Box::new((TreeNode { color: NodeColor::Black, ..*top.left.unwrap() }))),
                ..top
            };
            &&& rb_ok(Some(Box::new(r)))
            &&& black_height(Some(Box::new(r))) == black_height(n.left) + (if n.color
                == NodeColor::Black {
                1nat
            } else {
                0nat
            })
            &&& r.color == n.color
        }),
{
    let s = *n.left.unwrap();
    let top = ll_rotated(n);
    let d = *top.right.unwrap();
    assert(d.right == n.right && d.left == s.right && d.color == NodeColor::Black);
    assert(rb_ok(s.left) && rb_ok(s.right));
    assert(black_height(n.left) == black_height(s.left) + 1);
    assert(rb_ok(top.right));
    assert(black_height(top.right) == black_height(n.right) + 1);
    let f = *s.left.unwrap();
    assert(black_height(s.left) == black_height(f.left));
    let fb = TreeNode { color: NodeColor::Black, ..*top.left.unwrap() };
    assert(fb.left == f.left && fb.right == f.right);
    assert(rb_ok(Some(Box::new(fb))));
    assert(black_height(Some(Box::new(fb))) == black_height(f.left) + 1);
}

impl TreeNode {
    /// Double-black fixup at `n`, whose child in slot `pos` is one black
    /// level short of its sibling. Returns the repaired subtree and whether
    /// the shortage moved up to the caller (the subtree lost one black level).
    fn delete_fixup(n: Box<TreeNode>, pos: ChildPosition) -> (r: (Box<TreeNode>, bool))
        requires
            pos != ChildPosition::Root,
            bst(Some(n)),
            rb_ok(child(*n, pos)),
            rb_ok(other_child(*n, pos)),
            !is_red(child(*n, pos)),
            black_height(child(*n, pos)) + 1 == black_height(other_child(*n, pos)),
            n.color == NodeColor::Red ==> !is_red(other_child(*n, pos)),
        ensures
            bst(Some(r.0)),
            keys(Some(r.0)) == keys(Some(n)),
            inorder(Some(r.0)) == inorder(Some(n)),
            rb_ok(Some(r.0)),
            black_height(Some(r.0)) + (if r.1 { 1nat } else { 0nat }) == black_height(
                other_child(*n, pos),
            ) + (if n.color == NodeColor::Black { 1nat } else { 0nat }),
            r.0.color == NodeColor::Red ==> n.color == NodeColor::Red,
            n.color == NodeColor::Red ==> !r.1,
            *r.0 == fixed_after_delete(*n, pos).0,
            r.1 == fixed_after_delete(*n, pos).1,
        decreases fixup_rank(*n, pos),
    {
        let ghost n0: TreeNode = *n;
        let mut n = n;
        if pos == ChildPosition::Left {
            let s = n.right.take().unwrap();
            if s.color == NodeColor::Red {
                // red sibling: rotate toward the short side, then retry below
                n.right = Some(s);
                let ghost n1: TreeNode = *n;
                let mut top = TreeNode::rr_rotate(n);
                let ghost top0: TreeNode = *top;
                let down = top.left.take().unwrap();
                proof {
                    assert(down.left == n1.left && down.right == s.left);
                    assert(bst(top0.left));
                }
                let (fixed, _) = TreeNode::delete_fixup(down, ChildPosition::Left);
                top.left = Some(fixed);
                proof {
                    crate::node::lemma_same_payload(*top, top0);
                    assert(rb_ok(s.left) && rb_ok(s.right));
                    assert(black_height(Some(fixed)) == black_height(s.left));
                    assert(top.right == s.right);
                    assert(rb_ok(Some(top)));
                }
                (top, false)
            } else if !link_is_red(&s.left) && !link_is_red(&s.right) {
                // black sibling with black nephews: recolor
                n.right = Some(paint_red(s));
                proof {
                    assert(rb_ok(s.left) && rb_ok(s.right));
                    assert(rb_ok(n.right));
                    assert(black_height(n.right) == black_height(s.left));
                    crate::node::lemma_same_payload(*n, n0);
                }
                if n.color == NodeColor::Black {
                    (n, true)
                } else {
                    (paint_black(n), false)
                }
            } else if !link_is_red(&s.right) {
                // red close nephew: rotate the sibling away, then retry
                proof {
                    lemma_turn_sibling_right(*s);
                }
                n.right = Some(TreeNode::ll_rotate(s));
                proof {
                    crate::node::lemma_same_payload(*n, n0);
                }
                TreeNode::delete_fixup(n, pos)
            } else {
                // red far nephew: rotate toward the short side and recolor
                n.right = Some(s);
                proof {
                    lemma_far_red_left(*n);
                }
                let mut top = TreeNode::rr_rotate(n);
                let ghost top0: TreeNode = *top;
                let far = top.right.take().unwrap();
                top.right = Some(paint_black(far));
                proof {
                    crate::node::lemma_same_payload(*top, top0);
                }
                (top, false)
            }
        } else {
            let s = n.left.take().unwrap();
            if s.color == NodeColor::Red {
                n.left = Some(s);
                let ghost n1: TreeNode = *n;
                let mut top = TreeNode::ll_rotate(n);
                let ghost top0: TreeNode = *top;
                let down = top.right.take().unwrap();
                proof {
                    assert(down.right == n1.right && down.left == s.right);
                    assert(bst(top0.right));
                }
                let (fixed, _) = TreeNode::delete_fixup(down, ChildPosition::Right);
                top.right = Some(fixed);
                proof {
                    crate::node::lemma_same_payload(*top, top0);
                    assert(rb_ok(s.left) && rb_ok(s.right));
                    assert(black_height(Some(fixed)) == black_height(s.right));
                    assert(top.left == s.left);
                    assert(rb_ok(Some(top)));
                }
                (top, false)
            } else if !link_is_red(&s.left) && !link_is_red(&s.right) {
                n.left = Some(paint_red(s));
                proof {
                    assert(rb_ok(s.left) && rb_ok(s.right));
                    assert(rb_ok(n.left));
                    assert(black_height(n.left) == black_height(s.left));
                    crate::node::lemma_same_payload(*n, n0);
                }
                if n.color == NodeColor::Black {
                    (n, true)
                } else {
                    (paint_black(n), false)
                }
            } else if !link_is_red(&s.left) {
                proof {
                    lemma_turn_sibling_left(*s);
                }
                n.left = Some(TreeNode::rr_rotate(s));
                proof {
                    crate::node::lemma_same_payload(*n, n0);
                }
                TreeNode::delete_fixup(n, pos)
            } else {
                n.left = Some(s);
                proof {
                    lemma_far_red_right(*n);
                }
                let mut top = TreeNode::ll_rotate(n);
                let ghost top0: TreeNode = *top;
                let far = top.left.take().unwrap();
                top.left = Some(paint_black(far));
                proof {
                    crate::node::lemma_same_payload(*top, top0);
                }
                (top, false)
            }
        }
    }
}

impl TreeNode {
    /// Red-black deletion from a subtree. Returns the new subtree and whether
    /// it lost one black level, which the caller repairs with the
    /// double-black fixup.
    pub fn delete_node_rb(t: Option<Box<TreeNode>>, key: u32) -> (r: (Option<Box<TreeNode>>, bool))
        requires
            bst(t),
            rb_ok(t),
        ensures
            bst(r.0),
            keys(r.0) == keys(t).remove(key as int),
            rb_ok(r.0),
            black_height(r.0) + (if r.1 { 1nat } else { 0nat }) == black_height(t),
            is_red(r.0) ==> is_red(t),
            is_red(t) ==> !r.1,
            !contains(t, key) ==> r.0 == t && !r.1,
            r == rb_deleted(t, key),
        decreases t,
    {
        match t {
            None => {
                proof {
                    assert(keys(t).remove(key as int) =~= keys(t));
                }
                (None, false)
            },
            Some(node) => {
                let ghost n0: TreeNode = *node;
                assert(keys(t) == keys(node.left).union(keys(node.right)).insert(node.key as int));
                let mut n = node;
                if key < n.key {
                    let l = n.left.take();
                    let (nl, shrunk) = TreeNode::delete_node_rb(l, key);
                    n.left = nl;
                    proof {
                        assert(keys(Some(n)) =~= keys(t).remove(key as int));
                        crate::node::lemma_bst_after_removal(n0, *n);
                        if !contains(t, key) {
                            assert(*n == n0);
                        }
                    }
                    if shrunk {
                        let (f, sh) = TreeNode::delete_fixup(n, ChildPosition::Left);
                        (Some(f), sh)
                    } else {
                        (Some(n), false)
                    }
                } else if key > n.key {
                    let r = n.right.take();
                    let (nr, shrunk) = TreeNode::delete_node_rb(r, key);
                    n.right = nr;
                    proof {
                        assert(keys(Some(n)) =~= keys(t).remove(key as int));
                        crate::node::lemma_bst_after_removal(n0, *n);
                        if !contains(t, key) {
                            assert(*n == n0);
                        }
                    }
                    if shrunk {
                        let (f, sh) = TreeNode::delete_fixup(n, ChildPosition::Right);
                        (Some(f), sh)
                    } else {
                        (Some(n), false)
                    }
                } else if n.left.is_some() && n.right.is_some() {
                    // two children: take the successor's key, remove the successor
                    let succ = TreeNode::find_successor(&n);
                    let r = n.right.take();
                    let (nr, shrunk) = TreeNode::delete_node_rb(r, succ);
                    n.right = nr;
                    n.key = succ;
                    proof {
                        assert(keys(Some(n)) =~= keys(t).remove(key as int));
                        assert forall|x: int| keys(n.left).contains(x) implies x < n.key by {
                            assert(keys(n0.left).contains(x));
                        }
                    }
                    if shrunk {
                        let (f, sh) = TreeNode::delete_fixup(n, ChildPosition::Right);
                        (Some(f), sh)
                    } else {
                        (Some(n), false)
                    }
                } else if n.color == NodeColor::Red {
                    // a red node with at most one child has none: detach it
                    proof {
                        lemma_red_without_two_children(n0);
                        assert(keys(None) =~= keys(t).remove(key as int));
                    }
                    if n.left.is_some() {
                        (n.left, false)
                    } else {
                        (n.right, false)
                    }
                } else if n.left.is_some() {
                    // black with one child: the child is red; splice it in black
                    proof {
                        lemma_black_single_child(n0);
                        assert(keys(n0.left) =~= keys(t).remove(key as int));
                    }
                    let c = n.left.take().unwrap();
                    (Some(paint_black(c)), false)
                } else if n.right.is_some() {
                    proof {
                        lemma_black_single_child(n0);
                        assert(keys(n0.right) =~= keys(t).remove(key as int));
                    }
                    let c = n.right.take().unwrap();
                    (Some(paint_black(c)), false)
                } else {
                    // black leaf: removing it leaves the caller one black short
                    proof {
                        assert(keys(None) =~= keys(t).remove(key as int));
                    }
                    (None, true)
                }
            },
        }
    }
}

/// A red node that lacks a child has no children at all.
pub proof fn lemma_red_without_two_children(n: TreeNode)
    requires
        rb_ok(Some(Box::new(n))),
        n.color == NodeColor::Red,
        n.left.is_none() || n.right.is_none(),
    ensures
        n.left.is_none(),
        n.right.is_none(),
{
    if n.left.is_some() {
        assert(black_height(n.left) >= 1);
    }
    if n.right.is_some() {
        assert(black_height(n.right) >= 1);
    }
}

/// A black node with exactly one child has a red, childless child.
pub proof fn lemma_black_single_child(n: TreeNode)
    requires
        rb_ok(Some(Box::new(n))),
        n.color == NodeColor::Black,
        n.left.is_none() || n.right.is_none(),
    ensures
        n.left.is_some() ==> is_red(n.left) && n.left.unwrap().left.is_none()
            && n.left.unwrap().right.is_none(),
        n.right.is_some() ==> is_red(n.right) && n.right.unwrap().left.is_none()
            && n.right.unwrap().right.is_none(),
{
    if n.left.is_some() {
        let c = *n.left.unwrap();
        assert(black_height(n.left) == 0);
        assert(rb_ok(n.left));
        if c.left.is_some() {
            assert(black_height(c.left) >= 1);
        }
        if c.right.is_some() {
            assert(black_height(c.right) >= 1);
        }
    }
    if n.right.is_some() {
        let c = *n.right.unwrap();
        assert(black_height(n.right) == 0);
        assert(rb_ok(n.right));
        if c.left.is_some() {
            assert(black_height(c.left) >= 1);
        }
        if c.right.is_some() {
            assert(black_height(c.right) >= 1);
        }
    }
}

/// A red-black tree of distinct `u32` keys.
pub struct RBTree {
    root: Option<Box<TreeNode>>,
}

impl RBTree {
    /// The node structure the tree owns.
    pub closed spec fn tree(&self) -> Option<Box<TreeNode>> {
        self.root
    }

    /// BST order and all red-black invariants.
    pub open spec fn wf(&self) -> bool {
        rb_tree(self.tree())
    }

    /// An empty tree.
    pub fn new() -> (r: RBTree)
        ensures
            r.wf(),
            r.tree().is_none(),
    {
        RBTree { root: None }
    }

    /// The root link, for inspection.
    pub fn get_root(&self) -> (r: &Option<Box<TreeNode>>)
        ensures
            *r == self.tree(),
    {
        &self.root
    }

    /// Plain BST insertion of a node of the given color, without any
    /// rebalancing; an empty tree gets a black root. The result keeps BST
    /// order but need not satisfy the red-black invariants.
    pub fn r_insert(&mut self, key: u32, color: NodeColor)
        requires
            bst(old(self).tree()),
        ensures
            bst(final(self).tree()),
            keys(final(self).tree()) == keys(old(self).tree()).insert(key as int),
            contains(old(self).tree(), key) ==> final(self).tree() == old(self).tree(),
            old(self).tree().is_none() ==> final(self).tree() == inserted_leaf(
                None,
                key,
                NodeColor::Black,
            ),
            old(self).tree().is_some() ==> final(self).tree() == inserted_leaf(
                old(self).tree(),
                key,
                color,
            ),
    {
        let root = self.root.take();
        match root {
            None => {
                self.root = TreeNode::new_rb(key, NodeColor::Black);
            },
            Some(n) => {
                self.root = TreeNode::regular_insert(Some(n), key, color);
            },
        }
    }

    /// Inserts a key and restores the red-black invariants; a key already
    /// present leaves the tree unchanged.
    pub fn insert(&mut self, key: u32)
        requires
            old(self).wf(),
        ensures
            final(self).wf(),
            keys(final(self).tree()) == keys(old(self).tree()).insert(key as int),
            contains(old(self).tree(), key) ==> final(self).tree() == old(self).tree(),
            final(self).tree() == rb_insert_result(old(self).tree(), key),
    {
        let root = self.root.take();
        match root {
            None => {
                self.root = TreeNode::new_rb(key, NodeColor::Black);
            },
            Some(n) => {
                self.root = TreeNode::insert_node_rb(Some(n), key, true);
            },
        }
    }

    /// Looks a key up; `None` when it is absent or the tree is empty.
    pub fn find(&self, key: u32) -> (r: Option<&TreeNode>)
        requires
            self.wf(),
        ensures
            r.is_some() == contains(self.tree(), key),
            r.is_some() ==> r.unwrap().key == key,
    {
        TreeNode::find_node(&self.root, key)
    }

    /// Whether the tree holds no key.
    pub fn is_tree_empty(&self) -> (r: bool)
        ensures
            r == self.tree().is_none(),
    {
        self.root.is_none()
    }

    /// The keys in order: left subtree, node, right subtree.
    pub fn in_order(&self) -> (r: Vec<u32>)
        ensures
            r@ == inorder(self.tree()),
    {
        let mut out: Vec<u32> = Vec::new();
        TreeNode::node_in_order(&self.root, &mut out);
        assert(out@ =~= inorder(self.tree()));
        out
    }

    /// The keys in pre-order: node, left subtree, right subtree.
    pub fn pre_order(&self) -> (r: Vec<u32>)
        ensures
            r@ == preorder(self.tree()),
    {
        let mut out: Vec<u32> = Vec::new();
        TreeNode::node_pre_order(&self.root, &mut out);
        assert(out@ =~= preorder(self.tree()));
        out
    }

    /// Removes a key and restores the red-black invariants. Reports `Empty`
    /// for an empty tree and `NotFound` for an absent key, leaving the tree
    /// unchanged in both cases.
    pub fn delete(&mut self, key: u32) -> (r: DeleteOutcome)
        requires
            old(self).wf(),
        ensures
            final(self).wf(),
            keys(final(self).tree()) == keys(old(self).tree()).remove(key as int),
            r == DeleteOutcome::Empty <==> old(self).tree().is_none(),
            r == DeleteOutcome::NotFound <==> old(self).tree().is_some() && !contains(
                old(self).tree(),
                key,
            ),
            r == DeleteOutcome::Removed <==> contains(old(self).tree(), key),
            r != DeleteOutcome::Removed ==> final(self).tree() == old(self).tree(),
            contains(old(self).tree(), key) ==> final(self).tree() == rb_deleted(
                old(self).tree(),
                key,
            ).0,
    {
        if self.root.is_none() {
            proof {
                assert(keys(self.tree()).remove(key as int) =~= keys(self.tree()));
            }
            return DeleteOutcome::Empty;
        }
        if TreeNode::find_node(&self.root, key).is_none() {
            proof {
                assert(keys(self.tree()).remove(key as int) =~= keys(self.tree()));
            }
            return DeleteOutcome::NotFound;
        }
        let root = self.root.take();
        let (new_root, _) = TreeNode::delete_node_rb(root, key);
        self.root = new_root;
        DeleteOutcome::Removed
    }

    /// Leaf count with every absent child slot as one leaf: `n + 1` for a
    /// tree of `n` nodes, and 0 for the empty tree.
    pub fn count_number_of_leaves(&self) -> (r: u64)
        requires
            self.wf(),
        ensures
            self.tree().is_none() ==> r == 0,
            self.tree().is_some() ==> r == leaf_count(self.tree()),
            self.tree().is_some() ==> r == size(self.tree()) + 1,
    {
        match &self.root {
            None => 0,
            Some(n) => {
                proof {
                    lemma_size_bound(self.tree());
                    lemma_leaf_count(self.tree());
                }
                TreeNode::node_count_number_of_leaves(n)
            },
        }
    }

    /// Height of the tree: 0 when empty, 1 for a single node.
    pub fn get_height_of_tree(&self) -> (r: usize)
        requires
            self.wf(),
        ensures
            r == ht(self.tree()),
    {
        match &self.root {
            None => 0,
            Some(n) => {
                proof {
                    lemma_rb_height_bound(self.tree());
                    lemma_size_bound(self.tree());
                    if ht(self.tree()) > 66 {
                        lemma_pow2_strictly_increases(66, ht(self.tree()));
                        lemma2_to64();
                        lemma_pow2_adds(64, 2);
                        assert((size(self.tree()) + 1) * (size(self.tree()) + 1)
                            <= 0x1_0000_0001 * 0x1_0000_0001) by (nonlinear_arith)
                            requires size(self.tree()) <= 0x1_0000_0000;
                    }
                }
                TreeNode::node_get_height_of_tree(n)
            },
        }
    }
}

/// A valid red-black subtree is at most twice as tall as its black height,
/// plus one for a red root.
pub proof fn lemma_rb_height(t: Option<Box<TreeNode>>)
    requires
        rb_ok(t),
    ensures
        ht(t) <= 2 * black_height(t) + (if is_red(t) { 1nat } else { 0nat }),
    decreases t,
{
    if let Some(n) = t {
        lemma_rb_height(n.left);
        lemma_rb_height(n.right);
    }
}

/// A valid red-black subtree of black height `b` has at least `2^b - 1`
/// nodes.
pub proof fn lemma_rb_size(t: Option<Box<TreeNode>>)
    requires
        rb_ok(t),
    ensures
        pow2(black_height(t)) <= size(t) + 1,
    decreases t,
{
    if let Some(n) = t {
        lemma_rb_size(n.left);
        lemma_rb_size(n.right);
        if n.color == NodeColor::Black {
            lemma_pow2_adds(1, black_height(n.left));
            lemma2_to64();
        } else {
        }
    } else {
        lemma2_to64();
    }
}

/// Height bound of a red-black tree with `n` nodes: height <= 2 log2(n + 1),
/// stated without logarithms as `2^height <= (n + 1)^2`.
pub proof fn lemma_rb_height_bound(t: Option<Box<TreeNode>>)
    requires
        rb_tree(t),
    ensures
        pow2(ht(t)) <= (size(t) + 1) * (size(t) + 1),
{
    lemma_rb_height(t);
    lemma_rb_size(t);
    let b = black_height(t);
    lemma_pow2_adds(b, b);
    lemma_pow2_pos(b);
    if ht(t) < 2 * b {
        lemma_pow2_strictly_increases(ht(t), 2 * b);
    }
    let p = pow2(b);
    let m = size(t) + 1;
    assert(p * p <= m * m) by (nonlinear_arith)
        requires
            p <= m,
            0 < p,
    ;
}

} // verus!
