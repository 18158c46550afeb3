//! The arena-backed binary tree over any built-in integer key type.
//!
//! The tree mirrors [`crate::tree::Tree`]; the key type is abstracted behind
//! the small capability set [`MyInt`]: totally ordered, closed under
//! addition within its range, with an additive identity and its extreme
//! representable values. Every built-in integer type implements it.

use crate::lemmas;
use crate::model::{
    attach, bst_accepts, bst_sub, key_sum, keys_in_range, link_ok, max2, mps_best, mps_down,
    opt_index, path_ok, slot, subtree_max, subtree_sum, sum_ok, SpecNode,
};
use crate::tree::TreeError;
use vstd::prelude::*;

verus! {

/// The capabilities the tree needs of a key type, each pinned to the key's
/// value as a mathematical integer.
pub trait MyInt: Sized + Copy {
    /// The key's value as a mathematical integer.
    spec fn as_int(self) -> int;

    /// The smallest representable value.
    spec fn min_int() -> int;

    /// The largest representable value.
    spec fn max_int() -> int;

    /// Every value lies between the two extremes.
    proof fn in_bounds(self)
        ensures
            Self::min_int() <= self.as_int() <= Self::max_int(),
    ;

    /// The additive identity.
    fn zero() -> (r: Self)
        ensures
            r.as_int() == 0,
    ;

    /// The smallest representable value.
    fn min_val() -> (r: Self)
        ensures
            r.as_int() == Self::min_int(),
    ;

    /// The largest representable value.
    fn max_val() -> (r: Self)
        ensures
            r.as_int() == Self::max_int(),
    ;

    /// Addition, defined only where the mathematical sum is representable.
    fn plus(self, other: Self) -> (r: Self)
        requires
            Self::min_int() <= self.as_int() + other.as_int() <= Self::max_int(),
        ensures
            r.as_int() == self.as_int() + other.as_int(),
    ;

    /// The ordering, at-most.
    fn le(self, other: Self) -> (r: bool)
        ensures
            r == (self.as_int() <= other.as_int()),
    ;

    /// The ordering, strictly-below.
    fn lt(self, other: Self) -> (r: bool)
        ensures
            r == (self.as_int() < other.as_int()),
    ;

    /// The larger of two values.
    fn max_of(self, other: Self) -> (r: Self)
        ensures
            r.as_int() == max2(self.as_int(), other.as_int()),
    ;
}

impl MyInt for i8 {
    open spec fn as_int(self) -> int {
        self as int
    }

    open spec fn min_int() -> int {
        i8::MIN as int
    }

    open spec fn max_int() -> int {
        i8::MAX as int
    }

    proof fn in_bounds(self) {
    }

    fn zero() -> (r: Self) {
        0
    }

    fn min_val() -> (r: Self) {
        i8::MIN
    }

    fn max_val() -> (r: Self) {
        i8::MAX
    }

    fn plus(self, other: Self) -> (r: Self) {
        self + other
    }

    fn le(self, other: Self) -> (r: bool) {
        self <= other
    }

    fn lt(self, other: Self) -> (r: bool) {
        self < other
    }

    fn max_of(self, other: Self) -> (r: Self) {
        if self >= other {
            self
        } else {
            other
        }
    }
}

impl MyInt for u8 {
    open spec fn as_int(self) -> int {
        self as int
    }

    open spec fn min_int() -> int {
        u8::MIN as int
    }

    open spec fn max_int() -> int {
        u8::MAX as int
    }

    proof fn in_bounds(self) {
    }

    fn zero() -> (r: Self) {
        0
    }

    fn min_val() -> (r: Self) {
        u8::MIN
    }

    fn max_val() -> (r: Self) {
        u8::MAX
    }

    fn plus(self, other: Self) -> (r: Self) {
        self + other
    }

    fn le(self, other: Self) -> (r: bool) {
        self <= other
    }

    fn lt(self, other: Self) -> (r: bool) {
        self < other
    }

    fn max_of(self, other: Self) -> (r: Self) {
        if self >= other {
            self
        } else {
            other
        }
    }
}

impl MyInt for i16 {
    open spec fn as_int(self) -> int {
        self as int
    }

    open spec fn min_int() -> int {
        i16::MIN as int
    }

    open spec fn max_int() -> int {
        i16::MAX as int
    }

    proof fn in_bounds(self) {
    }

    fn zero() -> (r: Self) {
        0
    }

    fn min_val() -> (r: Self) {
        i16::MIN
    }

    fn max_val() -> (r: Self) {
        i16::MAX
    }

    fn plus(self, other: Self) -> (r: Self) {
        self + other
    }

    fn le(self, other: Self) -> (r: bool) {
        self <= other
    }

    fn lt(self, other: Self) -> (r: bool) {
        self < other
    }

    fn max_of(self, other: Self) -> (r: Self) {
        if self >= other {
            self
        } else {
            other
        }
    }
}

impl MyInt for u16 {
    open spec fn as_int(self) -> int {
        self as int
    }

    open spec fn min_int() -> int {
        u16::MIN as int
    }

    open spec fn max_int() -> int {
        u16::MAX as int
    }

    proof fn in_bounds(self) {
    }

    fn zero() -> (r: Self) {
        0
    }

    fn min_val() -> (r: Self) {
        u16::MIN
    }

    fn max_val() -> (r: Self) {
        u16::MAX
    }

    fn plus(self, other: Self) -> (r: Self) {
        self + other
    }

    fn le(self, other: Self) -> (r: bool) {
        self <= other
    }

    fn lt(self, other: Self) -> (r: bool) {
        self < other
    }

    fn max_of(self, other: Self) -> (r: Self) {
        if self >= other {
            self
        } else {
            other
        }
    }
}

impl MyInt for i32 {
    open spec fn as_int(self) -> int {
        self as int
    }

    open spec fn min_int() -> int {
        i32::MIN as int
    }

    open spec fn max_int() -> int {
        i32::MAX as int
    }

    proof fn in_bounds(self) {
    }

    fn zero() -> (r: Self) {
        0
    }

    fn min_val() -> (r: Self) {
        i32::MIN
    }

    fn max_val() -> (r: Self) {
        i32::MAX
    }

    fn plus(self, other: Self) -> (r: Self) {
        self + other
    }

    fn le(self, other: Self) -> (r: bool) {
        self <= other
    }

    fn lt(self, other: Self) -> (r: bool) {
        self < other
    }

    fn max_of(self, other: Self) -> (r: Self) {
        if self >= other {
            self
        } else {
            other
        }
    }
}

impl MyInt for u32 {
    open spec fn as_int(self) -> int {
        self as int
    }

    open spec fn min_int() -> int {
        u32::MIN as int
    }

    open spec fn max_int() -> int {
        u32::MAX as int
    }

    proof fn in_bounds(self) {
    }

    fn zero() -> (r: Self) {
        0
    }

    fn min_val() -> (r: Self) {
        u32::MIN
    }

    fn max_val() -> (r: Self) {
        u32::MAX
    }

    fn plus(self, other: Self) -> (r: Self) {
        self + other
    }

    fn le(self, other: Self) -> (r: bool) {
        self <= other
    }

    fn lt(self, other: Self) -> (r: bool) {
        self < other
    }

    fn max_of(self, other: Self) -> (r: Self) {
        if self >= other {
            self
        } else {
            other
        }
    }
}

impl MyInt for i64 {
    open spec fn as_int(self) -> int {
        self as int
    }

    open spec fn min_int() -> int {
        i64::MIN as int
    }

    open spec fn max_int() -> int {
        i64::MAX as int
    }

    proof fn in_bounds(self) {
    }

    fn zero() -> (r: Self) {
        0
    }

    fn min_val() -> (r: Self) {
        i64::MIN
    }

    fn max_val() -> (r: Self) {
        i64::MAX
    }

    fn plus(self, other: Self) -> (r: Self) {
        self + other
    }

    fn le(self, other: Self) -> (r: bool) {
        self <= other
    }

    fn lt(self, other: Self) -> (r: bool) {
        self < other
    }

    fn max_of(self, other: Self) -> (r: Self) {
        if self >= other {
            self
        } else {
            other
        }
    }
}

impl MyInt for u64 {
    open spec fn as_int(self) -> int {
        self as int
    }

    open spec fn min_int() -> int {
        u64::MIN as int
    }

    open spec fn max_int() -> int {
        u64::MAX as int
    }

    proof fn in_bounds(self) {
    }

    fn zero() -> (r: Self) {
        0
    }

    fn min_val() -> (r: Self) {
        u64::MIN
    }

    fn max_val() -> (r: Self) {
        u64::MAX
    }

    fn plus(self, other: Self) -> (r: Self) {
        self + other
    }

    fn le(self, other: Self) -> (r: bool) {
        self <= other
    }

    fn lt(self, other: Self) -> (r: bool) {
        self < other
    }

    fn max_of(self, other: Self) -> (r: Self) {
        if self >= other {
            self
        } else {
            other
        }
    }
}

impl MyInt for i128 {
    open spec fn as_int(self) -> int {
        self as int
    }

    open spec fn min_int() -> int {
        i128::MIN as int
    }

    open spec fn max_int() -> int {
        i128::MAX as int
    }

    proof fn in_bounds(self) {
    }

    fn zero() -> (r: Self) {
        0
    }

    fn min_val() -> (r: Self) {
        i128::MIN
    }

    fn max_val() -> (r: Self) {
        i128::MAX
    }

    fn plus(self, other: Self) -> (r: Self) {
        self + other
    }

    fn le(self, other: Self) -> (r: bool) {
        self <= other
    }

    fn lt(self, other: Self) -> (r: bool) {
        self < other
    }

    fn max_of(self, other: Self) -> (r: Self) {
        if self >= other {
            self
        } else {
            other
        }
    }
}

impl MyInt for u128 {
    open spec fn as_int(self) -> int {
        self as int
    }

    open spec fn min_int() -> int {
        u128::MIN as int
    }

    open spec fn max_int() -> int {
        u128::MAX as int
    }

    proof fn in_bounds(self) {
    }

    fn zero() -> (r: Self) {
        0
    }

    fn min_val() -> (r: Self) {
        u128::MIN
    }

    fn max_val() -> (r: Self) {
        u128::MAX
    }

    fn plus(self, other: Self) -> (r: Self) {
        self + other
    }

    fn le(self, other: Self) -> (r: bool) {
        self <= other
    }

    fn lt(self, other: Self) -> (r: bool) {
        self < other
    }

    fn max_of(self, other: Self) -> (r: Self) {
        if self >= other {
            self
        } else {
            other
        }
    }
}

impl MyInt for isize {
    open spec fn as_int(self) -> int {
        self as int
    }

    open spec fn min_int() -> int {
        isize::MIN as int
    }

    open spec fn max_int() -> int {
        isize::MAX as int
    }

    proof fn in_bounds(self) {
    }

    fn zero() -> (r: Self) {
        0
    }

    fn min_val() -> (r: Self) {
        isize::MIN
    }

    fn max_val() -> (r: Self) {
        isize::MAX
    }

    fn plus(self, other: Self) -> (r: Self) {
        self + other
    }

    fn le(self, other: Self) -> (r: bool) {
        self <= other
    }

    fn lt(self, other: Self) -> (r: bool) {
        self < other
    }

    fn max_of(self, other: Self) -> (r: Self) {
        if self >= other {
            self
        } else {
            other
        }
    }
}

impl MyInt for usize {
    open spec fn as_int(self) -> int {
        self as int
    }

    open spec fn min_int() -> int {
        usize::MIN as int
    }

    open spec fn max_int() -> int {
        usize::MAX as int
    }

    proof fn in_bounds(self) {
    }

    fn zero() -> (r: Self) {
        0
    }

    fn min_val() -> (r: Self) {
        usize::MIN
    }

    fn max_val() -> (r: Self) {
        usize::MAX
    }

    fn plus(self, other: Self) -> (r: Self) {
        self + other
    }

    fn le(self, other: Self) -> (r: bool) {
        self <= other
    }

    fn lt(self, other: Self) -> (r: bool) {
        self < other
    }

    fn max_of(self, other: Self) -> (r: Self) {
        if self >= other {
            self
        } else {
            other
        }
    }
}

/// One arena node: a key and the optional arena indices of its children.
#[derive(Clone, Copy)]
pub struct Node<T> {
    key: T,
    id_left: Option<usize>,
    id_right: Option<usize>,
}

impl<T> View for Node<T> where T: MyInt {
    type V = SpecNode;

    closed spec fn view(&self) -> SpecNode {
        SpecNode {
            key: self.key.as_int(),
            left: opt_index(self.id_left),
            right: opt_index(self.id_right),
        }
    }
}

impl<T> Node<T> where T: MyInt {
    /// A fresh node with both child slots empty.
    fn new(key: T) -> (n: Node<T>)
        ensures
            n@ == (SpecNode { key: key.as_int(), left: None, right: None }),
    {
        Node { key, id_left: None, id_right: None }
    }
}

/// The arena tree over any integer key type: the node at index 0 is the
/// root, and nodes only ever refer to later nodes.
pub struct Tree<T> {
    nodes: Vec<Node<T>>,
}

impl<T> View for Tree<T> where T: MyInt {
    type V = Seq<SpecNode>;

    closed spec fn view(&self) -> Seq<SpecNode> {
        Seq::new(self.nodes@.len(), |i: int| self.nodes@[i]@)
    }
}

impl<T> Tree<T> where T: MyInt {
    /// The structural invariant: established by `with_root` and preserved by
    /// `add_node`.
    pub open spec fn wf(self) -> bool {
        crate::model::wf(self@)
    }

    /// Every key of the tree is representable, so in the model it lies
    /// between the type's extremes.
    proof fn keys_bounded(&self)
        ensures
            keys_in_range(self@, T::min_int(), T::max_int()),
    {
        assert forall|i: int|
            0 <= i < self@.len() implies T::min_int() <= #[trigger] self@[i].key
            <= T::max_int() by {
            assert(self@[i] == self.nodes@[i]@);
            self.nodes@[i].key.in_bounds();
        }
    }

    /// A tree holding exactly one node, the root, with the given key.
    pub fn with_root(key: T) -> (t: Tree<T>)
        ensures
            t.wf(),
            t@.len() == 1,
            t@[0] == (SpecNode { key: key.as_int(), left: None, right: None }),
    {
        let t = Tree { nodes: vec![Node::new(key)] };
        proof {
            assert forall|i: int| 0 <= i < t@.len() implies #[trigger] link_ok(t@, i) by {}
        }
        t
    }

    /// Appends a node with `key` and attaches it as the left (if `is_left`)
    /// or right child of `parent_id`, returning the new node's index, which
    /// is always the previous node count. Fails without changing the tree
    /// when `parent_id` does not exist or the targeted slot is already set.
    pub fn add_node(&mut self, parent_id: usize, key: T, is_left: bool) -> (r: Result<
        usize,
        TreeError,
    >)
        requires
            old(self).wf(),
        ensures
            final(self).wf(),
            parent_id >= old(self)@.len() ==> r == Err::<usize, TreeError>(TreeError::InvalidIndex)
                && final(self)@ == old(self)@,
            parent_id < old(self)@.len() && slot(old(self)@, parent_id as int, is_left) is Some
                ==> r == Err::<usize, TreeError>(TreeError::SlotOccupied) && final(self)@ == old(
                self,
            )@,
            parent_id < old(self)@.len() && slot(old(self)@, parent_id as int, is_left) is None
                ==> r == Ok::<usize, TreeError>(old(self)@.len() as usize) && final(self)@
                == attach(old(self)@, parent_id as int, is_left, key.as_int()),
    {
        if parent_id >= self.nodes.len() {
            return Err(TreeError::InvalidIndex);
        }
        let occupied = if is_left {
            self.nodes[parent_id].id_left.is_some()
        } else {
            self.nodes[parent_id].id_right.is_some()
        };
        if occupied {
            return Err(TreeError::SlotOccupied);
        }
        let child_id = self.nodes.len();
        self.nodes.push(Node::new(key));
        let mut parent = self.nodes[parent_id];
        if is_left {
            parent.id_left = Some(child_id);
        } else {
            parent.id_right = Some(child_id);
        }
        self.nodes[parent_id] = parent;
        proof {
            let s = old(self)@;
            let p = parent_id as int;
            assert(self@ =~= attach(s, p, is_left, key.as_int()));
            lemmas::lemma_attach_wf(s, p, is_left, key.as_int());
        }
        Ok(child_id)
    }

    /// The sum of every key in the tree, by a post-order traversal from the
    /// root. `sum_ok` asks that every partial sum the traversal forms be
    /// representable.
    pub fn sum(&self) -> (r: T)
        requires
            self.wf(),
            sum_ok(self@, 0, T::min_int(), T::max_int()),
        ensures
            r.as_int() == key_sum(self@),
    {
        proof {
            crate::laws::lemma_sum_counts_every_key(self@);
        }
        self.rec_sum(Some(0))
    }

    /// The sum of the subtree rooted at `node_id`: the left subtree's sum,
    /// plus the right subtree's, plus the node's own key; an absent subtree
    /// contributes the additive identity.
    fn rec_sum(&self, node_id: Option<usize>) -> (r: T)
        requires
            self.wf(),
            match node_id {
                Some(id) => id < self@.len() && sum_ok(
                    self@,
                    id as int,
                    T::min_int(),
                    T::max_int(),
                ),
                None => true,
            },
        ensures
            r.as_int() == match node_id {
                Some(id) => subtree_sum(self@, id as int),
                None => 0,
            },
        decreases crate::model::rank(self@, node_id),
    {
        if let Some(id) = node_id {
            let node = &self.nodes[id];
            proof {
                assert(self@[id as int] == self.nodes@[id as int]@);
                assert(link_ok(self@, id as int));
            }
            let sum_left = self.rec_sum(node.id_left);
            let sum_right = self.rec_sum(node.id_right);
            return sum_left.plus(sum_right).plus(node.key);
        }
        T::zero()
    }

    /// Whether the key set, read as a binary search tree rooted at index 0,
    /// passes the ordering check: at every node the largest key of the left
    /// subtree is at most the node's key, and — the check's sentinel for the
    /// right side bottoming out at the type's maximum — the node's key is
    /// strictly below the type's maximum.
    pub fn is_bst(&self) -> (r: bool)
        requires
            self.wf(),
        ensures
            r == bst_accepts(self@, T::max_int()),
    {
        proof {
            lemmas::lemma_bst_accepts_equiv(self@, T::max_int());
        }
        self.is_bst_rec(Some(0)).0
    }

    /// One post-order pass of the ordering check over the subtree rooted at
    /// `node_id`, reporting (passes, reported minimum, reported maximum).
    /// Both reported bounds are folded with a maximum-style reduction, so the
    /// reported minimum is always the type's maximum sentinel, while the
    /// reported maximum is the subtree's true largest key.
    fn is_bst_rec(&self, node_id: Option<usize>) -> (r: (bool, T, T))
        requires
            self.wf(),
            match node_id {
                Some(id) => id < self@.len(),
                None => true,
            },
        ensures
            r.0 == (match node_id {
                Some(id) => bst_sub(self@, id as int, T::max_int()),
                None => true,
            }),
            r.1.as_int() == T::max_int(),
            r.2.as_int() == (match node_id {
                Some(id) => subtree_max(self@, id as int),
                None => T::min_int(),
            }),
        decreases crate::model::rank(self@, node_id),
    {
        match node_id {
            Some(id) => {
                let node = &self.nodes[id];
                proof {
                    let s = self@;
                    assert(s[id as int] == self.nodes@[id as int]@);
                    assert(link_ok(s, id as int));
                    self.keys_bounded();
                    node.key.in_bounds();
                    match s[id as int].left {
                        Some(l) => {
                            assert(subtree_max(s, l) >= s[l].key >= T::min_int());
                        },
                        None => {},
                    }
                    match s[id as int].right {
                        Some(r2) => {
                            assert(subtree_max(s, r2) >= s[r2].key >= T::min_int());
                        },
                        None => {},
                    }
                }
                let (lprop, lmin, lmax) = self.is_bst_rec(node.id_left);
                let (rprop, rmin, rmax) = self.is_bst_rec(node.id_right);
                let prop = lprop && rprop && lmax.le(node.key) && node.key.lt(rmin);
                let rep_min = lmin.max_of(rmin).max_of(node.key);
                let rep_max = lmax.max_of(rmax).max_of(node.key);
                (prop, rep_min, rep_max)
            },
            None => (true, T::max_val(), T::min_val()),
        }
    }

    /// The maximum key sum along a path joining two special nodes (nodes of
    /// degree one: leaves, or the root when it has a single child), the path
    /// bending at one highest node. Every intermediate total the traversal
    /// forms must be representable, which `path_ok` states.
    pub fn max_path_sum(&self) -> (r: T)
        requires
            self.wf(),
            path_ok(self@, 0, T::min_int(), T::max_int()),
        ensures
            r.as_int() == mps_best(self@, 0),
    {
        self.max_path_sum_rec(Some(0)).1.unwrap()
    }

    /// One post-order pass over the subtree rooted at `node_id`, reporting
    /// the best downward path sum from that root and the best path sum found
    /// anywhere in the subtree (absent for an absent subtree).
    fn max_path_sum_rec(&self, node_id: Option<usize>) -> (r: (T, Option<T>))
        requires
            self.wf(),
            match node_id {
                Some(id) => id < self@.len() && path_ok(
                    self@,
                    id as int,
                    T::min_int(),
                    T::max_int(),
                ),
                None => true,
            },
        ensures
            r.0.as_int() == (match node_id {
                Some(id) => mps_down(self@, id as int),
                None => 0,
            }),
            (match node_id {
                Some(id) => r.1 matches Some(b) && b.as_int() == mps_best(self@, id as int),
                None => r.1 is None,
            }),
        decreases crate::model::rank(self@, node_id),
    {
        match node_id {
            Some(id) => {
                let node = &self.nodes[id];
                proof {
                    assert(self@[id as int] == self.nodes@[id as int]@);
                    assert(link_ok(self@, id as int));
                }
                let (bpl, bsl) = self.max_path_sum_rec(node.id_left);
                let (bpr, bsr) = self.max_path_sum_rec(node.id_right);
                let best_solution_here = bpl.plus(bpr).plus(node.key);
                let best_sol = match (bsl, bsr) {
                    (None, None) => best_solution_here,
                    (Some(x), Some(y)) => best_solution_here.max_of(x).max_of(y),
                    (None, Some(x)) => best_solution_here.max_of(x),
                    (Some(x), None) => best_solution_here.max_of(x),
                };
                (node.key.plus(bpl.max_of(bpr)), Some(best_sol))
            },
            None => (T::zero(), None),
        }
    }
}

} // verus!
