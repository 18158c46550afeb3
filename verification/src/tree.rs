//! An arena-backed binary tree with `u32` keys and verified queries.

use crate::lemmas;
use crate::model::{
    attach, bst_accepts, bst_sub, key_sum, mps_best, mps_down, opt_index, path_ok, slot, subtree_max, subtree_sum,
    sum_ok, SpecNode,
};
use vstd::prelude::*;

verus! {

/// Why an attachment was refused. Both cases signal a mistake in the build
/// sequence, never a recoverable condition.
#[derive(Clone, Copy, Debug, PartialEq, Eq)]
pub enum TreeError {
    /// The parent index does not name an existing node.
    InvalidIndex,
    /// The targeted child slot of the parent is already set.
    SlotOccupied,
}

/// One arena node: a key and the optional arena indices of its children.
#[derive(Clone, Copy)]
pub struct Node {
    key: u32,
    id_left: Option<usize>,
    id_right: Option<usize>,
}

impl View for Node {
    type V = SpecNode;

    closed spec fn view(&self) -> SpecNode {
        SpecNode { key: self.key as int, left: opt_index(self.id_left), right: opt_index(self.id_right) }
    }
}

impl Node {
    /// A fresh node with both child slots empty.
    fn new(key: u32) -> (n: Node)
        ensures
            n@ == (SpecNode { key: key as int, left: None, right: None }),
    {
        Node { key, id_left: None, id_right: None }
    }
}

/// The arena tree: it owns every node, the node at index 0 is the root, and
/// nodes only ever refer to later nodes, so the structure is a tree by
/// construction.
pub struct Tree {
    nodes: Vec<Node>,
}

impl View for Tree {
    type V = Seq<SpecNode>;

    closed spec fn view(&self) -> Seq<SpecNode> {
        Seq::new(self.nodes@.len(), |i: int| self.nodes@[i]@)
    }
}

impl Tree {
    /// The structural invariant: established by `with_root` and preserved by
    /// `add_node`.
    pub open spec fn wf(self) -> bool {
        crate::model::wf(self@)
    }

    /// A tree holding exactly one node, the root, with the given key.
    pub fn with_root(key: u32) -> (t: Tree)
        ensures
            t.wf(),
            t@.len() == 1,
            t@[0] == (SpecNode { key: key as int, left: None, right: None }),
    {
        let t = Tree { nodes: vec![Node::new(key)] };
        proof {
            assert forall|i: int| 0 <= i < t@.len() implies #[trigger] crate::model::link_ok(
                t@,
                i,
            ) by {}
        }
        t
    }

    /// Appends a node with `key` and attaches it as the left (if `is_left`)
    /// or right child of `parent_id`, returning the new node's index, which
    /// is always the previous node count. Fails without changing the tree
    /// when `parent_id` does not exist or the targeted slot is already set.
    pub fn add_node(&mut self, parent_id: usize, key: u32, is_left: bool) -> (r: Result<
        usize,
        TreeError,
    >)
        requires
            old(self).wf(),
        ensures
            final(self).wf(),
            parent_id >= old(self)@.len() ==> r == Err::<usize, TreeError>(TreeError::InvalidIndex)
                && final(self)@ == old(self)@,
            parent_id < old(self)@.len() && slot(old(self)@, parent_id as int, is_left) is Some
                ==> r == Err::<usize, TreeError>(TreeError::SlotOccupied) && final(self)@ == old(self)@,
            parent_id < old(self)@.len() && slot(old(self)@, parent_id as int, is_left) is None
                ==> r == Ok::<usize, TreeError>(old(self)@.len() as usize) && final(self)@ == attach(
                old(self)@,
                parent_id as int,
                is_left,
                key as int,
            ),
    {
        if parent_id >= self.nodes.len() {
            return Err(TreeError::InvalidIndex);
        }
        let occupied = if is_left {
            self.nodes[parent_id].id_left.is_some()
        } else {
            self.nodes[parent_id].id_right.is_some()
        };
        if occupied {
            return Err(TreeError::SlotOccupied);
        }
        let child_id = self.nodes.len();
        self.nodes.push(Node::new(key));
        let mut parent = self.nodes[parent_id];
        if is_left {
            parent.id_left = Some(child_id);
        } else {
            parent.id_right = Some(child_id);
        }
        self.nodes[parent_id] = parent;
        proof {
            let s = old(self)@;
            let p = parent_id as int;
            assert(self@ =~= attach(s, p, is_left, key as int));
            lemmas::lemma_attach_wf(s, p, is_left, key as int);
        }
        Ok(child_id)
    }

    /// Every key of the tree is a `u32`, so in the model it lies in
    /// `[0, u32::MAX]`.
    proof fn keys_bounded(&self)
        ensures
            crate::model::keys_in_range(self@, 0, u32::MAX as int),
    {
        assert forall|i: int| 0 <= i < self@.len() implies 0 <= #[trigger] self@[i].key
            <= u32::MAX as int by {
            assert(self@[i] == self.nodes@[i]@);
        }
    }

    /// The sum of every key in the tree, by a post-order traversal from the
    /// root. The whole sum must fit in a `u32`; the keys being unsigned,
    /// that also bounds every partial sum the traversal forms.
    pub fn sum(&self) -> (r: u32)
        requires
            self.wf(),
            key_sum(self@) <= u32::MAX,
        ensures
            r as int == key_sum(self@),
    {
        proof {
            crate::laws::lemma_sum_counts_every_key(self@);
            self.keys_bounded();
            lemmas::lemma_sum_ok_from_total(self@, 0, u32::MAX as int);
        }
        self.rec_sum(Some(0))
    }

    /// The sum of the subtree rooted at `node_id`: the left subtree's sum,
    /// plus the right subtree's, plus the node's own key; an absent subtree
    /// contributes zero.
    fn rec_sum(&self, node_id: Option<usize>) -> (r: u32)
        requires
            self.wf(),
            match node_id {
                Some(id) => id < self@.len() && sum_ok(self@, id as int, 0, u32::MAX as int),
                None => true,
            },
        ensures
            r as int == match node_id {
                Some(id) => subtree_sum(self@, id as int),
                None => 0,
            },
        decreases crate::model::rank(self@, node_id),
    {
        if let Some(id) = node_id {
            let node = &self.nodes[id];
            proof {
                let s = self@;
                assert(s[id as int] == self.nodes@[id as int]@);
                assert(crate::model::link_ok(s, id as int));
                self.keys_bounded();
                match s[id as int].left {
                    Some(l) => {
                        lemmas::lemma_subtree_sum_nonneg(s, l, u32::MAX as int);
                    },
                    None => {},
                }
                match s[id as int].right {
                    Some(r2) => {
                        lemmas::lemma_subtree_sum_nonneg(s, r2, u32::MAX as int);
                    },
                    None => {},
                }
            }
            let sum_left = self.rec_sum(node.id_left);
            let sum_right = self.rec_sum(node.id_right);
            return sum_left + sum_right + node.key;
        }
        0
    }

    /// Whether the key set, read as a binary search tree rooted at index 0,
    /// passes the ordering check: at every node the largest key of the left
    /// subtree is at most the node's key, and — the check's sentinel for the
    /// right side bottoming out at the type's maximum — the node's key is
    /// strictly below `u32::MAX`.
    pub fn is_bst(&self) -> (r: bool)
        requires
            self.wf(),
        ensures
            r == bst_accepts(self@, u32::MAX as int),
    {
        proof {
            lemmas::lemma_bst_accepts_equiv(self@, u32::MAX as int);
        }
        self.is_bst_rec(Some(0)).0
    }

    /// One post-order pass of the ordering check over the subtree rooted at
    /// `node_id`, reporting (passes, reported minimum, reported maximum).
    /// Both reported bounds are folded with a maximum-style reduction, so the
    /// reported minimum is always the `u32::MAX` sentinel, while the
    /// reported maximum is the subtree's true largest key.
    fn is_bst_rec(&self, node_id: Option<usize>) -> (r: (bool, u32, u32))
        requires
            self.wf(),
            match node_id {
                Some(id) => id < self@.len(),
                None => true,
            },
        ensures
            r.0 == (match node_id {
                Some(id) => bst_sub(self@, id as int, u32::MAX as int),
                None => true,
            }),
            r.1 == u32::MAX,
            r.2 as int == (match node_id {
                Some(id) => subtree_max(self@, id as int),
                None => 0,
            }),
        decreases crate::model::rank(self@, node_id),
    {
        match node_id {
            Some(id) => {
                let node = &self.nodes[id];
                proof {
                    let s = self@;
                    assert(s[id as int] == self.nodes@[id as int]@);
                    assert(crate::model::link_ok(s, id as int));
                    self.keys_bounded();
                    match s[id as int].left {
                        Some(l) => {
                            assert(subtree_max(s, l) >= s[l].key >= 0);
                        },
                        None => {},
                    }
                    match s[id as int].right {
                        Some(r2) => {
                            assert(subtree_max(s, r2) >= s[r2].key >= 0);
                        },
                        None => {},
                    }
                }
                let (lprop, lmin, lmax) = self.is_bst_rec(node.id_left);
                let (rprop, rmin, rmax) = self.is_bst_rec(node.id_right);
                let prop = lprop && rprop && lmax <= node.key && rmin > node.key;
                let rep_min = max_u32(max_u32(lmin, rmin), node.key);
                let rep_max = max_u32(max_u32(lmax, rmax), node.key);
                (prop, rep_min, rep_max)
            },
            None => (true, u32::MAX, u32::MIN),
        }
    }

    /// The maximum key sum along a path joining two special nodes (nodes of
    /// degree one: leaves, or the root when it has a single child), the path
    /// bending at one highest node. Every intermediate total the traversal
    /// forms must fit in a `u32`, which `path_ok` states.
    pub fn max_path_sum(&self) -> (r: u32)
        requires
            self.wf(),
            path_ok(self@, 0, 0, u32::MAX as int),
        ensures
            r as int == mps_best(self@, 0),
    {
        self.max_path_sum_rec(Some(0)).1.unwrap()
    }

    /// One post-order pass over the subtree rooted at `node_id`, reporting
    /// the best downward path sum from that root and the best path sum found
    /// anywhere in the subtree (absent for an absent subtree).
    fn max_path_sum_rec(&self, node_id: Option<usize>) -> (r: (u32, Option<u32>))
        requires
            self.wf(),
            match node_id {
                Some(id) => id < self@.len() && path_ok(self@, id as int, 0, u32::MAX as int),
                None => true,
            },
        ensures
            r.0 as int == (match node_id {
                Some(id) => mps_down(self@, id as int),
                None => 0,
            }),
            (match node_id {
                Some(id) => r.1 matches Some(b) && b as int == mps_best(self@, id as int),
                None => r.1 is None,
            }),
        decreases crate::model::rank(self@, node_id),
    {
        match node_id {
            Some(id) => {
                let node = &self.nodes[id];
                proof {
                    assert(self@[id as int] == self.nodes@[id as int]@);
                    assert(crate::model::link_ok(self@, id as int));
                    self.keys_bounded();
                }
                let (bpl, bsl) = self.max_path_sum_rec(node.id_left);
                let (bpr, bsr) = self.max_path_sum_rec(node.id_right);
                let best_solution_here = bpl + bpr + node.key;
                let best_sol = match (bsl, bsr) {
                    (None, None) => best_solution_here,
                    (Some(x), Some(y)) => max_u32(max_u32(best_solution_here, x), y),
                    (None, Some(x)) => max_u32(best_solution_here, x),
                    (Some(x), None) => max_u32(best_solution_here, x),
                };
                (node.key + max_u32(bpl, bpr), Some(best_sol))
            },
            None => (0, None),
        }
    }
}

/// The larger of two `u32` values.
fn max_u32(a: u32, b: u32) -> (r: u32)
    ensures
        r as int == crate::model::max2(a as int, b as int),
{
    if a >= b {
        a
    } else {
        b
    }
}

} // verus!
