use vstd::prelude::*;

use crate::range_ops::max_int;

verus! {

/// A node as the tree's view sees it: key, left child id, right child id.
pub type NodeView = (u32, Option<usize>, Option<usize>);

/// Id of the child `c` of node `i`, or -1 where there is none (or it is not a proper child).
pub open spec fn child(t: Seq<NodeView>, c: Option<usize>, i: int) -> int {
    match c {
        Some(c) => if i < c < t.len() {
            c as int
        } else {
            -1
        },
        None => -1,
    }
}

/// Id of the left child of node `i`, or -1.
pub open spec fn left_of(t: Seq<NodeView>, i: int) -> int {
    child(t, t[i].1, i)
}

/// Id of the right child of node `i`, or -1.
pub open spec fn right_of(t: Seq<NodeView>, i: int) -> int {
    child(t, t[i].2, i)
}

/// Id of an optional node, -1 for none.
pub open spec fn id_of(o: Option<usize>) -> int {
    match o {
        Some(i) => i as int,
        None => -1,
    }
}

/// Ids still ahead of `i`: children have larger ids than their parent.
pub open spec fn ahead(t: Seq<NodeView>, i: int) -> int {
    if 0 <= i < t.len() {
        t.len() - i
    } else {
        0
    }
}

/// There is a root, and every child id is larger than its parent's and names a node.
pub open spec fn linked(t: Seq<NodeView>) -> bool {
    &&& t.len() >= 1
    &&& forall|i: int|
        0 <= i < t.len() && (#[trigger] t[i]).1 is Some ==> i < t[i].1.unwrap() < t.len()
    &&& forall|i: int|
        0 <= i < t.len() && (#[trigger] t[i]).2 is Some ==> i < t[i].2.unwrap() < t.len()
}

/// Sum of the keys of the subtree at `i`.
pub open spec fn sum_from(t: Seq<NodeView>, i: int) -> nat
    decreases ahead(t, i),
{
    if 0 <= i < t.len() {
        t[i].0 as nat + sum_from(t, left_of(t, i)) + sum_from(t, right_of(t, i))
    } else {
        0
    }
}

/// Number of nodes of the subtree at `i`.
pub open spec fn size_from(t: Seq<NodeView>, i: int) -> nat
    decreases ahead(t, i),
{
    if 0 <= i < t.len() {
        1 + size_from(t, left_of(t, i)) + size_from(t, right_of(t, i))
    } else {
        0
    }
}

/// Keys of the subtree at `i`, in order.
pub open spec fn inorder_from(t: Seq<NodeView>, i: int) -> Seq<u32>
    decreases ahead(t, i),
{
    if 0 <= i < t.len() {
        inorder_from(t, left_of(t, i)) + seq![t[i].0] + inorder_from(t, right_of(t, i))
    } else {
        Seq::empty()
    }
}

/// Every key of the subtree at `i` lies strictly between the optional bounds, and each
/// node's left keys are smaller and right keys larger than its own.
pub open spec fn bst_from(t: Seq<NodeView>, i: int, lo: Option<u32>, hi: Option<u32>) -> bool
    decreases ahead(t, i),
{
    if 0 <= i < t.len() {
        let k = t[i].0;
        &&& lo matches Some(m) ==> k > m
        &&& hi matches Some(m) ==> k < m
        &&& bst_from(t, left_of(t, i), lo, Some(k))
        &&& bst_from(t, right_of(t, i), Some(k), hi)
    } else {
        true
    }
}

/// For the subtree at `i`: the best sum of a path through a node and down both sides,
/// and the best sum of a path from `i` down to a leaf.
pub open spec fn mps_from(t: Seq<NodeView>, i: int) -> (nat, nat)
    decreases ahead(t, i),
{
    if 0 <= i < t.len() {
        let (bl, ml) = mps_from(t, left_of(t, i));
        let (br, mr) = mps_from(t, right_of(t, i));
        let k = t[i].0 as nat;
        (max_int(max_int(bl as int, br as int), (ml + mr + k) as int) as nat, (max_int(ml as int, mr as int) + k) as nat)
    } else {
        (0, 0)
    }
}

/// Largest sum of a path from `i` down to a leaf, taking the larger side where both exist.
pub open spec fn leaf_path(t: Seq<NodeView>, i: int) -> nat
    decreases ahead(t, i),
{
    if 0 <= i < t.len() {
        let (l, r) = (left_of(t, i), right_of(t, i));
        let k = t[i].0 as nat;
        if l >= 0 && r >= 0 {
            k + max_int(leaf_path(t, l) as int, leaf_path(t, r) as int) as nat
        } else {
            k + leaf_path(t, l) + leaf_path(t, r)
        }
    } else {
        0
    }
}

/// Largest sum of a leaf-to-leaf path through a node of the subtree at `i` that has two
/// children, or 0 if there is none.
pub open spec fn best_leaf_pair(t: Seq<NodeView>, i: int) -> nat
    decreases ahead(t, i),
{
    if 0 <= i < t.len() {
        let (l, r) = (left_of(t, i), right_of(t, i));
        let below = max_int(best_leaf_pair(t, l) as int, best_leaf_pair(t, r) as int);
        if l >= 0 && r >= 0 {
            max_int(below, (leaf_path(t, l) + t[i].0 + leaf_path(t, r)) as int) as nat
        } else {
            below as nat
        }
    } else {
        0
    }
}

/// The sums at a node bound those at its children.
proof fn lemma_sums_at(t: Seq<NodeView>, i: int)
    ensures
        mps_from(t, i).1 <= mps_from(t, i).0,
        0 <= i < t.len() ==> {
            &&& sum_from(t, left_of(t, i)) <= sum_from(t, i)
            &&& sum_from(t, right_of(t, i)) <= sum_from(t, i)
            &&& mps_from(t, left_of(t, i)).0 <= mps_from(t, i).0
            &&& mps_from(t, right_of(t, i)).0 <= mps_from(t, i).0
            &&& leaf_path(t, left_of(t, i)) <= leaf_path(t, i)
            &&& leaf_path(t, right_of(t, i)) <= leaf_path(t, i)
            &&& best_leaf_pair(t, left_of(t, i)) <= best_leaf_pair(t, i)
            &&& best_leaf_pair(t, right_of(t, i)) <= best_leaf_pair(t, i)
        },
{
}

/// A node of the arena: its key and the ids of its children.
pub struct Node {
    key: u32,
    id_left: Option<usize>,
    id_right: Option<usize>,
}

impl Node {
    fn new(key: u32) -> (r: Self)
        ensures
            r.key == key,
            r.id_left is None,
            r.id_right is None,
    {
        Self { key, id_left: None, id_right: None }
    }
}

/// A binary tree of `u32` keys stored in an arena; node 0 is the root.
pub struct Tree {
    nodes: Vec<Node>,
}

impl View for Tree {
    type V = Seq<NodeView>;

    closed spec fn view(&self) -> Seq<NodeView> {
        self.nodes@.map_values(|n: Node| (n.key, n.id_left, n.id_right))
    }
}

impl Tree {
    /// The arena holds a root and every child id names a later node.
    pub open spec fn wf(self) -> bool {
        linked(self@)
    }

    /// A tree of one node holding `key`.
    pub fn with_root(key: u32) -> (r: Self)
        ensures
            r.wf(),
            r@ == seq![(key, None::<usize>, None::<usize>)],
    {
        let r = Self { nodes: vec![Node::new(key)] };
        proof {
            assert(r@ =~= seq![(key, None::<usize>, None::<usize>)]);
        }
        r
    }

    /// Adds a node holding `key` as the left child of `parent_id` when `is_left`, else as
    /// its right child, and returns the new node's id.
    pub fn add_node(&mut self, parent_id: usize, key: u32, is_left: bool) -> (r: usize)
        requires
            old(self).wf(),
            parent_id < old(self)@.len(),
            old(self)@.len() < usize::MAX,
            is_left ==> old(self)@[parent_id as int].1 is None,
            !is_left ==> old(self)@[parent_id as int].2 is None,
        ensures
            final(self).wf(),
            r == old(self)@.len(),
            final(self)@ == old(self)@.update(
                parent_id as int,
                if is_left {
                    (old(self)@[parent_id as int].0, Some(r), old(self)@[parent_id as int].2)
                } else {
                    (old(self)@[parent_id as int].0, old(self)@[parent_id as int].1, Some(r))
                },
            ).push((key, None, None)),
    {
        let ghost t0 = self@;
        let child_id = self.nodes.len();
        self.nodes.push(Node::new(key));
        if is_left {
            self.nodes[parent_id].id_left = Some(child_id);
        } else {
            self.nodes[parent_id].id_right = Some(child_id);
        }
        proof {
            let expect = t0.update(
                parent_id as int,
                if is_left {
                    (t0[parent_id as int].0, Some(child_id), t0[parent_id as int].2)
                } else {
                    (t0[parent_id as int].0, t0[parent_id as int].1, Some(child_id))
                },
            ).push((key, None, None));
            assert(self@ =~= expect);
        }
        child_id
    }

    proof fn lemma_node(self, id: int)
        requires
            self.wf(),
            0 <= id < self@.len(),
        ensures
            self@[id] == (self.nodes@[id].key, self.nodes@[id].id_left, self.nodes@[id].id_right),
            left_of(self@, id) == id_of(self.nodes@[id].id_left),
            right_of(self@, id) == id_of(self.nodes@[id].id_right),
            id_of(self.nodes@[id].id_left) < self@.len(),
            id_of(self.nodes@[id].id_right) < self@.len(),
            self.nodes@[id].id_left is Some ==> id < id_of(self.nodes@[id].id_left),
            self.nodes@[id].id_right is Some ==> id < id_of(self.nodes@[id].id_right),
    {
        assert(self@[id] == (self.nodes@[id].key, self.nodes@[id].id_left, self.nodes@[id].id_right));
    }

    /// Sum of all the keys in the tree.
    pub fn sum(&self) -> (r: u32)
        requires
            self.wf(),
            sum_from(self@, 0) <= u32::MAX,
        ensures
            r == sum_from(self@, 0),
    {
        self.rec_sum(Some(0))
    }

    fn rec_sum(&self, node_id: Option<usize>) -> (r: u32)
        requires
            self.wf(),
            id_of(node_id) < self@.len(),
            sum_from(self@, id_of(node_id)) <= u32::MAX,
        ensures
            r == sum_from(self@, id_of(node_id)),
        decreases ahead(self@, id_of(node_id)),
    {
        if let Some(id) = node_id {
            let node = &self.nodes[id];
            proof {
                self.lemma_node(id as int);
                lemma_sums_at(self@, id as int);
            }
            let sum_left = self.rec_sum(node.id_left);
            let sum_right = self.rec_sum(node.id_right);
            return sum_left + sum_right + node.key;
        }
        0
    }

    /// Keys of the tree in order: left subtree, node, right subtree.
    pub fn inorder(&self) -> (r: Vec<u32>)
        requires
            self.wf(),
        ensures
            r@ == inorder_from(self@, 0),
    {
        let mut keys: Vec<u32> = Vec::new();
        self.inorder_rec(Some(0), &mut keys);
        proof {
            assert(keys@ =~= inorder_from(self@, 0));
        }
        keys
    }

    /// Appends the keys of the subtree at `node_id`, in order, to `keys`.
    pub fn inorder_rec(&self, node_id: Option<usize>, keys: &mut Vec<u32>)
        requires
            self.wf(),
            id_of(node_id) < self@.len(),
        ensures
            final(keys)@ == old(keys)@ + inorder_from(self@, id_of(node_id)),
        decreases ahead(self@, id_of(node_id)),
    {
        if let Some(id) = node_id {
            let node = &self.nodes[id];
            proof {
                self.lemma_node(id as int);
            }
            let ghost k0 = keys@;
            self.inorder_rec(node.id_left, keys);
            keys.push(node.key);
            self.inorder_rec(node.id_right, keys);
            proof {
                assert(keys@ =~= k0 + inorder_from(self@, id as int));
            }
        } else {
            proof {
                assert(keys@ =~= old(keys)@ + inorder_from(self@, id_of(node_id)));
            }
        }
    }

    /// Number of nodes in the subtree at `node_id`.
    pub fn subtree_size(&self, node_id: Option<usize>) -> (r: u32)
        requires
            self.wf(),
            id_of(node_id) < self@.len(),
            size_from(self@, id_of(node_id)) <= u32::MAX,
        ensures
            r == size_from(self@, id_of(node_id)),
        decreases ahead(self@, id_of(node_id)),
    {
        if let Some(id) = node_id {
            let node = &self.nodes[id];
            proof {
                self.lemma_node(id as int);
            }
            let sl = self.subtree_size(node.id_left);
            let sr = self.subtree_size(node.id_right);
            let su = sl + sr + 1;
            return su;
        }
        0
    }

    /// Whether the tree is a binary search tree with distinct keys.
    pub fn is_bst(&self) -> (r: bool)
        requires
            self.wf(),
        ensures
            r == bst_from(self@, 0, None, None),
    {
        self.is_bst_rec(Some(0), None, None)
    }

    /// Whether the subtree at `node_id` is a binary search tree whose keys lie strictly
    /// between `min` and `max` (each bound optional).
    pub fn is_bst_rec(&self, node_id: Option<usize>, min: Option<u32>, max: Option<u32>) -> (r: bool)
        requires
            self.wf(),
            id_of(node_id) < self@.len(),
        ensures
            r == bst_from(self@, id_of(node_id), min, max),
        decreases ahead(self@, id_of(node_id)),
    {
        if let Some(id) = node_id {
            let node = &self.nodes[id];
            proof {
                self.lemma_node(id as int);
            }
            if let Some(min_val) = min {
                if node.key <= min_val {
                    return false;
                }
            }
            if let Some(max_val) = max {
                if node.key >= max_val {
                    return false;
                }
            }
            let is_left_bst = self.is_bst_rec(node.id_left, min, Some(node.key));
            let is_right_bst = self.is_bst_rec(node.id_right, Some(node.key), max);
            is_left_bst && is_right_bst
        } else {
            true
        }
    }

    /// Best root-to-leaf path sum of the tree (the second half of `get_mps_rec` at the root).
    pub fn get_mps(&self) -> (r: u32)
        requires
            self.wf(),
            mps_from(self@, 0).0 <= u32::MAX,
        ensures
            r == mps_from(self@, 0).1,
    {
        self.get_mps_rec(Some(0)).1
    }

    /// For the subtree at `node_id`: the best sum of a path through a node and down both
    /// sides so far, and the best path sum from `node_id` down to a leaf.
    pub fn get_mps_rec(&self, node_id: Option<usize>) -> (r: (u32, u32))
        requires
            self.wf(),
            id_of(node_id) < self@.len(),
            mps_from(self@, id_of(node_id)).0 <= u32::MAX,
        ensures
            r.0 == mps_from(self@, id_of(node_id)).0,
            r.1 == mps_from(self@, id_of(node_id)).1,
        decreases ahead(self@, id_of(node_id)),
    {
        if let Some(id) = node_id {
            let node = &self.nodes[id];
            proof {
                self.lemma_node(id as int);
                lemma_sums_at(self@, id as int);
                lemma_sums_at(self@, id_of(node.id_left));
                lemma_sums_at(self@, id_of(node.id_right));
            }
            let (bl, ml) = self.get_mps_rec(node.id_left);
            let (br, mr) = self.get_mps_rec(node.id_right);
            let bu = bl.max(br).max(ml + mr + node.key);
            let mut mu = ml.max(mr) + node.key;
            if mu == u32::MIN {
                mu = node.key;
            }
            return (bu, mu);
        } else {
            return (u32::MIN, u32::MIN);
        }
    }

    /// Largest sum of a path between two leaves, or 0 if no node has two children.
    pub fn max_path_sum(&self) -> (r: u32)
        requires
            self.wf(),
            leaf_path(self@, 0) <= u32::MAX,
            best_leaf_pair(self@, 0) <= u32::MAX,
        ensures
            r == best_leaf_pair(self@, 0),
    {
        let mut max_sum: u32 = u32::MIN;
        self.max_leaf_to_leaf_sum(Some(0), &mut max_sum);
        max_sum
    }

    /// Returns the best leaf path sum from `node_id`, and raises `max_sum` to the best
    /// leaf-to-leaf sum of the subtree.
    fn max_leaf_to_leaf_sum(&self, node_id: Option<usize>, max_sum: &mut u32) -> (r: u32)
        requires
            self.wf(),
            id_of(node_id) < self@.len(),
            leaf_path(self@, id_of(node_id)) <= u32::MAX,
            best_leaf_pair(self@, id_of(node_id)) <= u32::MAX,
        ensures
            r == leaf_path(self@, id_of(node_id)),
            *final(max_sum) == max_int(*old(max_sum) as int, best_leaf_pair(self@, id_of(node_id)) as int),
        decreases ahead(self@, id_of(node_id)),
    {
        if let Some(id) = node_id {
            let node = &self.nodes[id];
            proof {
                self.lemma_node(id as int);
                lemma_sums_at(self@, id as int);
                lemma_sums_at(self@, id_of(node.id_left));
                lemma_sums_at(self@, id_of(node.id_right));
            }
            if node.id_left.is_none() && node.id_right.is_none() {
                return node.key;
            }
            let left_sum = match node.id_left {
                Some(left_id) => Some(self.max_leaf_to_leaf_sum(Some(left_id), max_sum)),
                None => None,
            };
            let right_sum = match node.id_right {
                Some(right_id) => Some(self.max_leaf_to_leaf_sum(Some(right_id), max_sum)),
                None => None,
            };
            if let (Some(left), Some(right)) = (left_sum, right_sum) {
                *max_sum = (*max_sum).max(left + node.key + right);
                return node.key + left.max(right);
            } else {
                return node.key + left_sum.unwrap_or(0) + right_sum.unwrap_or(0);
            }
        }
        0
    }
}

} // verus!
