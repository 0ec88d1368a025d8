//! The node record, its mathematical model, rotations and introspection.
use vstd::prelude::*;
use vstd::set_lib::{set_int_range, lemma_int_range, lemma_len_subset, lemma_set_disjoint_lens};

verus! {

/// The color of a node under the red-black discipline.
#[derive(Clone, Copy, Debug, PartialEq, Eq, Structural)]
pub enum NodeColor {
    Red,
    Black,
}

/// Which child slot of its parent a node occupies.
#[derive(Clone, Copy, Debug, PartialEq, Eq, Structural)]
pub enum ChildPosition {
    Left,
    Right,
    Root,
}

/// What `delete` found.
#[derive(Clone, Copy, Debug, PartialEq, Eq, Structural)]
pub enum DeleteOutcome {
    /// The key was present and has been removed.
    Removed,
    /// The tree holds keys, but not this one; nothing changed.
    NotFound,
    /// The tree is empty; nothing changed.
    Empty,
}

/// A node: a key, red-black color, AVL height and two owned children.
#[derive(Debug)]
pub struct TreeNode {
    pub color: NodeColor,
    pub key: u32,
    pub left: Option<Box<TreeNode>>,
    pub right: Option<Box<TreeNode>>,
    pub height: u32,
}

/// The set of keys stored in a subtree.
pub open spec fn keys(t: Option<Box<TreeNode>>) -> Set<int>
    decreases t,
{
    match t {
        None => Set::empty(),
        Some(n) => keys(n.left).union(keys(n.right)).insert(n.key as int),
    }
}

/// Binary-search-tree order: left keys < node key < right keys, everywhere.
pub open spec fn bst(t: Option<Box<TreeNode>>) -> bool
    decreases t,
{
    match t {
        None => true,
        Some(n) => {
            &&& bst(n.left)
            &&& bst(n.right)
            &&& forall|x: int| keys(n.left).contains(x) ==> x < n.key
            &&& forall|x: int| keys(n.right).contains(x) ==> x > n.key
        },
    }
}

/// Keys in order: left subtree, node, right subtree.
pub open spec fn inorder(t: Option<Box<TreeNode>>) -> Seq<u32>
    decreases t,
{
    match t {
        None => Seq::empty(),
        Some(n) => inorder(n.left) + seq![n.key] + inorder(n.right),
    }
}

/// Keys in pre-order: node, left subtree, right subtree.
pub open spec fn preorder(t: Option<Box<TreeNode>>) -> Seq<u32>
    decreases t,
{
    match t {
        None => Seq::empty(),
        Some(n) => seq![n.key] + preorder(n.left) + preorder(n.right),
    }
}

/// Height: 0 for an absent subtree, else one more than the taller child.
pub open spec fn ht(t: Option<Box<TreeNode>>) -> nat
    decreases t,
{
    match t {
        None => 0,
        Some(n) => 1 + if ht(n.left) >= ht(n.right) {
            ht(n.left)
        } else {
            ht(n.right)
        },
    }
}

/// Number of nodes.
pub open spec fn size(t: Option<Box<TreeNode>>) -> nat
    decreases t,
{
    match t {
        None => 0,
        Some(n) => 1 + size(n.left) + size(n.right),
    }
}

/// Leaf count where every absent child slot is one virtual leaf.
pub open spec fn leaf_count(t: Option<Box<TreeNode>>) -> nat
    decreases t,
{
    match t {
        None => 1,
        Some(n) => leaf_count(n.left) + leaf_count(n.right),
    }
}

/// Whether a subtree holds a key.
pub open spec fn contains(t: Option<Box<TreeNode>>, k: u32) -> bool {
    keys(t).contains(k as int)
}

/// The shape of `n` after a right rotation (its left child moves up).
pub open spec fn rotated_right(n: TreeNode) -> TreeNode
    recommends
        n.left.is_some(),
{
    let c = n.left.unwrap();
    TreeNode {
        color: c.color,
        key: c.key,
        left: c.left,
        right: Some(
            Box::new(
                TreeNode {
                    color: n.color,
                    key: n.key,
                    left: c.right,
                    right: n.right,
                    height: n.height,
                },
            ),
        ),
        height: c.height,
    }
}

/// The shape of `n` after a left rotation (its right child moves up).
pub open spec fn rotated_left(n: TreeNode) -> TreeNode
    recommends
        n.right.is_some(),
{
    let c = n.right.unwrap();
    TreeNode {
        color: c.color,
        key: c.key,
        left: Some(
            Box::new(
                TreeNode {
                    color: n.color,
                    key: n.key,
                    left: n.left,
                    right: c.left,
                    height: n.height,
                },
            ),
        ),
        right: c.right,
        height: c.height,
    }
}

impl TreeNode {
    /// A fresh black node of height 1 with no children.
    pub fn new(key: u32) -> (r: TreeNode)
        ensures
            r.key == key,
            r.color == NodeColor::Black,
            r.height == 1,
            r.left.is_none(),
            r.right.is_none(),
    {
        TreeNode { color: NodeColor::Black, key, left: None, right: None, height: 1 }
    }

    /// A fresh childless node of the given color and height 1.
    pub fn new_rb(key: u32, c: NodeColor) -> (r: Option<Box<TreeNode>>)
        ensures
            r.is_some(),
            r.unwrap().key == key,
            r.unwrap().color == c,
            r.unwrap().height == 1,
            r.unwrap().left.is_none(),
            r.unwrap().right.is_none(),
    {
        Some(Box::new(TreeNode { color: c, key, left: None, right: None, height: 1 }))
    }

    /// Single right rotation: the left child becomes the subtree root and
    /// `node` its right child, taking over the child's former right subtree.
    /// Colors and heights travel with their nodes unchanged.
    pub fn right_rotate(node: Box<TreeNode>) -> (r: Box<TreeNode>)
        requires
            node.left.is_some(),
        ensures
            *r == rotated_right(*node),
            keys(Some(r)) == keys(Some(node)),
            inorder(Some(r)) == inorder(Some(node)),
            bst(Some(node)) ==> bst(Some(r)),
    {
        let mut n = node;
        let mut c = n.left.take().unwrap();
        n.left = c.right.take();
        c.right = Some(n);
        proof {
            lemma_rotate_right_keeps_order(*node);
        }
        c
    }

    /// Single left rotation: the right child becomes the subtree root and
    /// `node` its left child, taking over the child's former left subtree.
    pub fn left_rotate(node: Box<TreeNode>) -> (r: Box<TreeNode>)
        requires
            node.right.is_some(),
        ensures
            *r == rotated_left(*node),
            keys(Some(r)) == keys(Some(node)),
            inorder(Some(r)) == inorder(Some(node)),
            bst(Some(node)) ==> bst(Some(r)),
    {
        let mut n = node;
        let mut c = n.right.take().unwrap();
        n.right = c.left.take();
        c.left = Some(n);
        proof {
            lemma_rotate_left_keeps_order(*node);
        }
        c
    }
}

/// A node whose children hold the same ordered content as another's, under
/// the same key, holds the same content, whatever the colors and stored
/// heights; BST order carries over from `b` to `a`.
pub proof fn lemma_same_payload(a: TreeNode, b: TreeNode)
    requires
        a.key == b.key,
        keys(a.left) == keys(b.left),
        keys(a.right) == keys(b.right),
        inorder(a.left) == inorder(b.left),
        inorder(a.right) == inorder(b.right),
        bst(b.left) ==> bst(a.left),
        bst(b.right) ==> bst(a.right),
    ensures
        keys(Some(Box::new(a))) == keys(Some(Box::new(b))),
        inorder(Some(Box::new(a))) == inorder(Some(Box::new(b))),
        bst(Some(Box::new(b))) ==> bst(Some(Box::new(a))),
{
}

/// Replacing one child by a subtree whose keys are a subset of the old
/// child's keeps BST order.
pub proof fn lemma_bst_after_removal(old_n: TreeNode, new_n: TreeNode)
    requires
        bst(Some(Box::new(old_n))),
        new_n.key == old_n.key,
        bst(new_n.left),
        bst(new_n.right),
        keys(new_n.left).subset_of(keys(old_n.left)),
        keys(new_n.right).subset_of(keys(old_n.right)),
    ensures
        bst(Some(Box::new(new_n))),
{
    assert forall|x: int| keys(new_n.left).contains(x) implies x < new_n.key by {
        assert(keys(old_n.left).contains(x));
    }
    assert forall|x: int| keys(new_n.right).contains(x) implies x > new_n.key by {
        assert(keys(old_n.right).contains(x));
    }
}

/// In a BST the key set is finite and has one key per node.
pub proof fn lemma_keys_len(t: Option<Box<TreeNode>>)
    requires
        bst(t),
    ensures
        keys(t).finite(),
        keys(t).len() == size(t),
    decreases t,
{
    if let Some(n) = t {
        lemma_keys_len(n.left);
        lemma_keys_len(n.right);
        assert(keys(n.left).disjoint(keys(n.right))) by {
            assert forall|x: int| keys(n.left).contains(x) implies !keys(n.right).contains(x) by {
            }
        }
        lemma_set_disjoint_lens(keys(n.left), keys(n.right));
        assert(!keys(n.left).union(keys(n.right)).contains(n.key as int));
    } else {
        assert(keys(t) =~= Set::empty());
    }
}

/// Keys are distinct `u32` values, so a BST holds at most 2^32 nodes.
pub proof fn lemma_size_bound(t: Option<Box<TreeNode>>)
    requires
        bst(t),
    ensures
        size(t) <= 0x1_0000_0000,
{
    lemma_keys_len(t);
    lemma_keys_in_range(t);
    lemma_int_range(0, 0x1_0000_0000);
    lemma_len_subset(keys(t), set_int_range(0, 0x1_0000_0000));
}

/// Every key lies in the range of `u32`.
pub proof fn lemma_keys_in_range(t: Option<Box<TreeNode>>)
    ensures
        keys(t).subset_of(set_int_range(0, 0x1_0000_0000)),
    decreases t,
{
    if let Some(n) = t {
        lemma_keys_in_range(n.left);
        lemma_keys_in_range(n.right);
    }
}

/// A subtree with `n` nodes has `n + 1` absent child slots.
pub proof fn lemma_leaf_count(t: Option<Box<TreeNode>>)
    ensures
        leaf_count(t) == size(t) + 1,
    decreases t,
{
    if let Some(n) = t {
        lemma_leaf_count(n.left);
        lemma_leaf_count(n.right);
    }
}

/// A right rotation keeps the key set, the in-order sequence and BST order.
pub proof fn lemma_rotate_right_keeps_order(n: TreeNode)
    requires
        n.left.is_some(),
    ensures
        keys(Some(Box::new(rotated_right(n)))) == keys(Some(Box::new(n))),
        inorder(Some(Box::new(rotated_right(n)))) == inorder(Some(Box::new(n))),
        bst(Some(Box::new(n))) ==> bst(Some(Box::new(rotated_right(n)))),
{
    let c = n.left.unwrap();
    let r = rotated_right(n);
    assert(keys(r.right) == keys(c.right).union(keys(n.right)).insert(n.key as int));
    assert(inorder(r.right) == inorder(c.right) + seq![n.key] + inorder(n.right));
    assert(inorder(n.left) == inorder(c.left) + seq![c.key] + inorder(c.right));
    assert(inorder(Some(Box::new(r))) == inorder(c.left) + seq![c.key] + inorder(r.right));
    assert(inorder(Some(Box::new(n))) == inorder(n.left) + seq![n.key] + inorder(n.right));
    assert(keys(n.left) == keys(c.left).union(keys(c.right)).insert(c.key as int));
    assert(keys(Some(Box::new(r))) == keys(c.left).union(keys(r.right)).insert(c.key as int));
    assert(keys(Some(Box::new(n))) == keys(n.left).union(keys(n.right)).insert(n.key as int));
    assert(keys(Some(Box::new(r))) =~= keys(Some(Box::new(n))));
    assert(inorder(Some(Box::new(r))) =~= inorder(Some(Box::new(n))));
    if bst(Some(Box::new(n))) {
        assert(keys(n.left).contains(c.key as int));
        assert(bst(n.left));
        assert(bst(c.right));
        assert forall|x: int| keys(c.right).contains(x) implies x < n.key by {
            assert(keys(n.left).contains(x));
        }
        assert(bst(r.right) == (bst(c.right) && bst(n.right) && (forall|x: int|
            keys(c.right).contains(x) ==> x < n.key) && (forall|x: int|
            keys(n.right).contains(x) ==> x > n.key)));
        assert(bst(r.right));
    }
}

/// A left rotation keeps the key set, the in-order sequence and BST order.
pub proof fn lemma_rotate_left_keeps_order(n: TreeNode)
    requires
        n.right.is_some(),
    ensures
        keys(Some(Box::new(rotated_left(n)))) == keys(Some(Box::new(n))),
        inorder(Some(Box::new(rotated_left(n)))) == inorder(Some(Box::new(n))),
        bst(Some(Box::new(n))) ==> bst(Some(Box::new(rotated_left(n)))),
{
    let c = n.right.unwrap();
    let r = rotated_left(n);
    assert(keys(r.left) == keys(n.left).union(keys(c.left)).insert(n.key as int));
    assert(inorder(r.left) == inorder(n.left) + seq![n.key] + inorder(c.left));
    assert(inorder(n.right) == inorder(c.left) + seq![c.key] + inorder(c.right));
    assert(keys(n.right) == keys(c.left).union(keys(c.right)).insert(c.key as int));
    assert(inorder(Some(Box::new(r))) == inorder(r.left) + seq![c.key] + inorder(c.right));
    assert(inorder(Some(Box::new(n))) == inorder(n.left) + seq![n.key] + inorder(n.right));
    assert(keys(Some(Box::new(r))) == keys(r.left).union(keys(c.right)).insert(c.key as int));
    assert(keys(Some(Box::new(n))) == keys(n.left).union(keys(n.right)).insert(n.key as int));
    assert(keys(Some(Box::new(r))) =~= keys(Some(Box::new(n))));
    assert(inorder(Some(Box::new(r))) =~= inorder(Some(Box::new(n))));
    if bst(Some(Box::new(n))) {
        assert(keys(n.right).contains(c.key as int));
        assert(bst(n.right));
        assert(bst(c.left));
        assert forall|x: int| keys(c.left).contains(x) implies x > n.key by {
            assert(keys(n.right).contains(x));
        }
        assert(bst(r.left) == (bst(n.left) && bst(c.left) && (forall|x: int|
            keys(n.left).contains(x) ==> x < n.key) && (forall|x: int|
            keys(c.left).contains(x) ==> x > n.key)));
        assert(bst(r.left));
    }
}

/// `t` with a childless node of key `k`, color `c` and height 1 attached at
/// the absent slot that BST descent by `k` reaches; every other node is kept
/// as it is. A key already present leaves `t` unchanged.
pub open spec fn inserted_leaf(t: Option<Box<TreeNode>>, k: u32, c: NodeColor) -> Option<
    Box<TreeNode>,
>
    decreases t,
{
    match t {
        None => Some(Box::new(TreeNode { color: c, key: k, left: None, right: None, height: 1 })),
        Some(n) => if k < n.key {
            Some(Box::new(TreeNode { left: inserted_leaf(n.left, k, c), ..*n }))
        } else if k > n.key {
            Some(Box::new(TreeNode { right: inserted_leaf(n.right, k, c), ..*n }))
        } else {
            t
        },
    }
}

/// The key of the leftmost node of the subtree rooted at `n`.
pub open spec fn leftmost_key(n: TreeNode) -> u32
    decreases n,
{
    match n.left {
        None => n.key,
        Some(l) => leftmost_key(*l),
    }
}

impl TreeNode {
    /// Plain BST insertion without rebalancing. A new node gets `color` and
    /// height 1; an already present key leaves the subtree untouched.
    pub fn regular_insert(t: Option<Box<TreeNode>>, key: u32, color: NodeColor) -> (r: Option<
        Box<TreeNode>,
    >)
        requires
            bst(t),
        ensures
            r.is_some(),
            bst(r),
            keys(r) == keys(t).insert(key as int),
            contains(t, key) ==> r == t,
            r == inserted_leaf(t, key, color),
        decreases t,
    {
        match t {
            None => TreeNode::new_rb(key, color),
            Some(node) => {
                assert(keys(t) == keys(node.left).union(keys(node.right)).insert(node.key as int));
                let mut n = node;
                if key < n.key {
                    let l = n.left.take();
                    n.left = TreeNode::regular_insert(l, key, color);
                } else if key > n.key {
                    let r = n.right.take();
                    n.right = TreeNode::regular_insert(r, key, color);
                }
                assert(keys(Some(n)) == keys(n.left).union(keys(n.right)).insert(n.key as int));
                assert(keys(Some(n)) =~= keys(t).insert(key as int));
                proof {
                    if contains(t, key) {
                        assert(*n == *node);
                    }
                }
                Some(n)
            },
        }
    }

    /// Looks a key up by BST descent.
    pub fn find_node(t: &Option<Box<TreeNode>>, key: u32) -> (r: Option<&TreeNode>)
        requires
            bst(*t),
        ensures
            r.is_some() == contains(*t, key),
            r.is_some() ==> r.unwrap().key == key,
        decreases *t,
    {
        match t {
            None => None,
            Some(n) => {
                assert(keys(*t) == keys(n.left).union(keys(n.right)).insert(n.key as int));
                if key == n.key {
                    Some(&**n)
                } else if key < n.key {
                    TreeNode::find_node(&n.left, key)
                } else {
                    TreeNode::find_node(&n.right, key)
                }
            },
        }
    }

    /// The in-order successor key of `node`: the smallest key of its right
    /// subtree.
    pub fn find_successor(node: &TreeNode) -> (r: u32)
        requires
            node.right.is_some(),
            bst(node.right),
        ensures
            keys(node.right).contains(r as int),
            forall|x: int| keys(node.right).contains(x) ==> r <= x,
            r == leftmost_key(*node.right.unwrap()),
    {
        TreeNode::min_key(node.right.as_ref().unwrap())
    }

    /// The smallest key of a subtree: its leftmost node.
    pub fn min_key(n: &TreeNode) -> (r: u32)
        requires
            bst(Some(Box::new(*n))),
        ensures
            keys(Some(Box::new(*n))).contains(r as int),
            forall|x: int| keys(Some(Box::new(*n))).contains(x) ==> r <= x,
            r == leftmost_key(*n),
        decreases n,
    {
        assert(keys(Some(Box::new(*n))) == keys(n.left).union(keys(n.right)).insert(n.key as int));
        match &n.left {
            None => n.key,
            Some(l) => {
                assert(bst(n.left));
                TreeNode::min_key(l)
            },
        }
    }

    /// Leaf count where every absent child slot counts as one leaf; a node
    /// with no children therefore counts two.
    pub fn node_count_number_of_leaves(node: &TreeNode) -> (r: u64)
        requires
            leaf_count(Some(Box::new(*node))) <= u64::MAX,
        ensures
            r == leaf_count(Some(Box::new(*node))),
        decreases node,
    {
        assert(leaf_count(Some(Box::new(*node))) == leaf_count(node.left) + leaf_count(node.right));
        let l: u64 = match &node.left {
            None => 1,
            Some(c) => TreeNode::node_count_number_of_leaves(c),
        };
        let r: u64 = match &node.right {
            None => 1,
            Some(c) => TreeNode::node_count_number_of_leaves(c),
        };
        l + r
    }

    /// Height of the subtree rooted here: 1 for a node without children.
    pub fn node_get_height_of_tree(node: &TreeNode) -> (r: usize)
        requires
            ht(Some(Box::new(*node))) <= usize::MAX,
        ensures
            r == ht(Some(Box::new(*node))),
        decreases node,
    {
        assert(ht(Some(Box::new(*node))) == 1 + if ht(node.left) >= ht(node.right) {
            ht(node.left)
        } else {
            ht(node.right)
        });
        let l: usize = match &node.left {
            None => 0,
            Some(c) => TreeNode::node_get_height_of_tree(c),
        };
        let r: usize = match &node.right {
            None => 0,
            Some(c) => TreeNode::node_get_height_of_tree(c),
        };
        if l >= r {
            l + 1
        } else {
            r + 1
        }
    }

    /// Appends the keys of a subtree in order (left, node, right).
    pub fn node_in_order(t: &Option<Box<TreeNode>>, out: &mut Vec<u32>)
        ensures
            final(out)@ == old(out)@ + inorder(*t),
        decreases *t,
    {
        match t {
            None => {
                assert(old(out)@ + inorder(*t) =~= old(out)@);
            },
            Some(n) => {
                TreeNode::node_in_order(&n.left, out);
                out.push(n.key);
                TreeNode::node_in_order(&n.right, out);
                assert(final(out)@ =~= old(out)@ + inorder(*t));
            },
        }
    }

    /// Appends the keys of a subtree in pre-order (node, left, right).
    pub fn node_pre_order(t: &Option<Box<TreeNode>>, out: &mut Vec<u32>)
        ensures
            final(out)@ == old(out)@ + preorder(*t),
        decreases *t,
    {
        match t {
            None => {
                assert(old(out)@ + preorder(*t) =~= old(out)@);
            },
            Some(n) => {
                out.push(n.key);
                TreeNode::node_pre_order(&n.left, out);
                TreeNode::node_pre_order(&n.right, out);
                assert(final(out)@ =~= old(out)@ + preorder(*t));
            },
        }
    }
}

/// Strictly increasing.
pub open spec fn sorted(s: Seq<u32>) -> bool {
    forall|i: int, j: int| 0 <= i < j < s.len() ==> s[i] < s[j]
}

/// The in-order sequence of a BST is strictly increasing and holds exactly
/// its keys.
pub proof fn lemma_inorder_sorted(t: Option<Box<TreeNode>>)
    requires
        bst(t),
    ensures
        sorted(inorder(t)),
        forall|x: u32| inorder(t).contains(x) <==> keys(t).contains(x as int),
    decreases t,
{
    if let Some(n) = t {
        lemma_inorder_sorted(n.left);
        lemma_inorder_sorted(n.right);
        let l = inorder(n.left);
        let r = inorder(n.right);
        let s = inorder(t);
        assert(s == l + seq![n.key] + r);
        assert forall|i: int| 0 <= i < l.len() implies s[i] == l[i] && s[i] < n.key by {
            assert(l.contains(l[i]));
        }
        assert(s[l.len() as int] == n.key);
        assert forall|i: int| l.len() < i < s.len() implies s[i] == r[i - l.len() - 1] && s[i]
            > n.key by {
            assert(r.contains(r[i - l.len() - 1]));
        }
        assert forall|x: u32| s.contains(x) <==> keys(t).contains(x as int) by {
            if s.contains(x) {
                let i = choose|i: int| 0 <= i < s.len() && s[i] == x;
                if i < l.len() {
                    assert(l.contains(x));
                } else if l.len() < i {
                    assert(r.contains(x));
                }
            }
            if keys(t).contains(x as int) {
                if keys(n.left).contains(x as int) {
                    let i = choose|i: int| 0 <= i < l.len() && l[i] == x;
                    assert(s[i] == x);
                } else if keys(n.right).contains(x as int) {
                    let i = choose|i: int| 0 <= i < r.len() && r[i] == x;
                    assert(s[i + l.len() + 1] == x);
                } else {
                    assert(s[l.len() as int] == x);
                }
            }
        }
        assert forall|i: int, j: int| 0 <= i < j < s.len() implies s[i] < s[j] by {
            if j < l.len() {
            } else if i > l.len() {
                assert(s[i] == r[i - l.len() - 1] && s[j] == r[j - l.len() - 1]);
            }
        }
    }
}

/// Two strictly increasing sequences with the same elements are equal.
pub proof fn lemma_sorted_unique(a: Seq<u32>, b: Seq<u32>)
    requires
        sorted(a),
        sorted(b),
        forall|x: u32| a.contains(x) <==> b.contains(x),
    ensures
        a == b,
    decreases a.len(),
{
    if a.len() == 0 {
        if b.len() > 0 {
            assert(b.contains(b[0]));
        }
        assert(a =~= b);
    } else if b.len() == 0 {
        assert(a.contains(a[0]));
    } else {
        assert(a.contains(a[0]));
        assert(b.contains(b[0]));
        let i = choose|i: int| 0 <= i < a.len() && a[i] == b[0];
        let j = choose|j: int| 0 <= j < b.len() && b[j] == a[0];
        assert(a[0] <= a[i]);
        assert(b[0] <= b[j]);
        assert(a[0] == b[0]);
        let a1 = a.subrange(1, a.len() as int);
        let b1 = b.subrange(1, b.len() as int);
        assert forall|x: u32| a1.contains(x) <==> b1.contains(x) by {
            if a1.contains(x) {
                let k = choose|k: int| 0 <= k < a1.len() && a1[k] == x;
                assert(a[k + 1] == x);
                assert(a.contains(x));
                let m = choose|m: int| 0 <= m < b.len() && b[m] == x;
                assert(m != 0);
                assert(b1[m - 1] == x);
            }
            if b1.contains(x) {
                let k = choose|k: int| 0 <= k < b1.len() && b1[k] == x;
                assert(b[k + 1] == x);
                assert(b.contains(x));
                let m = choose|m: int| 0 <= m < a.len() && a[m] == x;
                assert(m != 0);
                assert(a1[m - 1] == x);
            }
        }
        lemma_sorted_unique(a1, b1);
        assert(a =~= seq![a[0]] + a1);
        assert(b =~= seq![b[0]] + b1);
    }
}

/// Two BSTs with the same keys have the same in-order sequence, whatever
/// their shapes.
pub proof fn lemma_same_keys_same_inorder(t1: Option<Box<TreeNode>>, t2: Option<Box<TreeNode>>)
    requires
        bst(t1),
        bst(t2),
        keys(t1) == keys(t2),
    ensures
        inorder(t1) == inorder(t2),
{
    lemma_inorder_sorted(t1);
    lemma_inorder_sorted(t2);
    lemma_sorted_unique(inorder(t1), inorder(t2));
}

/// Round trip: for a tree `t` without key `k`, inserting `k` and then
/// deleting it yields a tree with the same in-order sequence as `t` (its
/// shape may differ).
pub proof fn lemma_insert_delete_round_trip(
    t: Option<Box<TreeNode>>,
    inserted: Option<Box<TreeNode>>,
    deleted: Option<Box<TreeNode>>,
    k: u32,
)
    requires
        bst(t),
        bst(inserted),
        bst(deleted),
        !contains(t, k),
        keys(inserted) == keys(t).insert(k as int),
        keys(deleted) == keys(inserted).remove(k as int),
    ensures
        inorder(deleted) == inorder(t),
{
    assert(keys(deleted) =~= keys(t));
    lemma_same_keys_same_inorder(deleted, t);
}

/// The node one of whose children holds key `k`, found by descending from
/// the root of `t`; absent when `k` is at the root or not in `t`.
pub open spec fn parent_of(t: Option<Box<TreeNode>>, k: u32) -> Option<TreeNode>
    decreases t,
{
    match t {
        None => None,
        Some(n) => if k == n.key {
            None
        } else if k < n.key {
            if n.left.is_some() && n.left.unwrap().key == k {
                Some(*n)
            } else {
                parent_of(n.left, k)
            }
        } else {
            if n.right.is_some() && n.right.unwrap().key == k {
                Some(*n)
            } else {
                parent_of(n.right, k)
            }
        },
    }
}

/// The child of `p` that is not the one holding key `k`.
pub open spec fn sibling_in(p: TreeNode, k: u32) -> Option<Box<TreeNode>> {
    if p.left.is_some() && p.left.unwrap().key == k {
        p.right
    } else {
        p.left
    }
}

fn link_key_is(t: &Option<Box<TreeNode>>, k: u32) -> (r: bool)
    ensures
        r == (t.is_some() && t.unwrap().key == k),
{
    match t {
        Some(n) => n.key == k,
        None => false,
    }
}

impl TreeNode {
    /// The parent of the node holding `key` in the tree rooted at `t`.
    pub fn get_parent(t: &Option<Box<TreeNode>>, key: u32) -> (r: Option<&TreeNode>)
        ensures
            r.is_some() == parent_of(*t, key).is_some(),
            r.is_some() ==> *r.unwrap() == parent_of(*t, key).unwrap(),
        decreases *t,
    {
        match t {
            None => None,
            Some(n) => {
                if key == n.key {
                    None
                } else if key < n.key {
                    if link_key_is(&n.left, key) {
                        Some(&**n)
                    } else {
                        TreeNode::get_parent(&n.left, key)
                    }
                } else {
                    if link_key_is(&n.right, key) {
                        Some(&**n)
                    } else {
                        TreeNode::get_parent(&n.right, key)
                    }
                }
            },
        }
    }

    /// The key of the parent of the node holding `key`.
    pub fn get_parent_key(t: &Option<Box<TreeNode>>, key: u32) -> (r: Option<u32>)
        ensures
            r.is_some() == parent_of(*t, key).is_some(),
            r.is_some() ==> r.unwrap() == parent_of(*t, key).unwrap().key,
    {
        match TreeNode::get_parent(t, key) {
            Some(p) => Some(p.key),
            None => None,
        }
    }

    /// The parent of the parent of the node holding `key`.
    pub fn get_grandparent(t: &Option<Box<TreeNode>>, key: u32) -> (r: Option<&TreeNode>)
        ensures
            parent_of(*t, key).is_none() ==> r.is_none(),
            parent_of(*t, key).is_some() ==> r.is_some() == parent_of(
                *t,
                parent_of(*t, key).unwrap().key,
            ).is_some(),
            r.is_some() ==> *r.unwrap() == parent_of(*t, parent_of(*t, key).unwrap().key).unwrap(),
    {
        match TreeNode::get_parent(t, key) {
            Some(p) => TreeNode::get_parent(t, p.key),
            None => None,
        }
    }

    /// Which child slot of its parent the node holding `key` occupies;
    /// `Root` when it has no parent (it is the root or absent).
    pub fn child_position(t: &Option<Box<TreeNode>>, key: u32) -> (r: ChildPosition)
        ensures
            parent_of(*t, key).is_none() ==> r == ChildPosition::Root,
            parent_of(*t, key).is_some() ==> r == if parent_of(*t, key).unwrap().left.is_some()
                && parent_of(*t, key).unwrap().left.unwrap().key == key {
                ChildPosition::Left
            } else {
                ChildPosition::Right
            },
    {
        match TreeNode::get_parent(t, key) {
            Some(p) => if link_key_is(&p.left, key) {
                ChildPosition::Left
            } else {
                ChildPosition::Right
            },
            None => ChildPosition::Root,
        }
    }

    /// The other child of the parent of the node holding `key`.
    pub fn get_sibling(t: &Option<Box<TreeNode>>, key: u32) -> (r: Option<&TreeNode>)
        ensures
            parent_of(*t, key).is_none() ==> r.is_none(),
            parent_of(*t, key).is_some() ==> r.is_some() == sibling_in(
                parent_of(*t, key).unwrap(),
                key,
            ).is_some(),
            r.is_some() ==> *r.unwrap() == *sibling_in(parent_of(*t, key).unwrap(), key).unwrap(),
    {
        match TreeNode::get_parent(t, key) {
            Some(p) => {
                let other = if link_key_is(&p.left, key) {
                    &p.right
                } else {
                    &p.left
                };
                match other {
                    Some(s) => Some(&**s),
                    None => None,
                }
            },
            None => None,
        }
    }

    /// The sibling of the parent of the node holding `key`.
    pub fn get_uncle(t: &Option<Box<TreeNode>>, key: u32) -> (r: Option<&TreeNode>)
        ensures
            parent_of(*t, key).is_none() ==> r.is_none(),
            parent_of(*t, key).is_some() ==> {
                let pk = parent_of(*t, key).unwrap().key;
                &&& parent_of(*t, pk).is_none() ==> r.is_none()
                &&& parent_of(*t, pk).is_some() ==> r.is_some() == sibling_in(
                    parent_of(*t, pk).unwrap(),
                    pk,
                ).is_some()
                &&& r.is_some() ==> *r.unwrap() == *sibling_in(
                    parent_of(*t, pk).unwrap(),
                    pk,
                ).unwrap()
            },
    {
        match TreeNode::get_parent(t, key) {
            Some(p) => TreeNode::get_sibling(t, p.key),
            None => None,
        }
    }
}

} // verus!
