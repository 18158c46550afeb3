//! The mathematical model shared by every arena tree in this crate.
//!
//! A tree is abstracted as a sequence of [`SpecNode`]s, one per arena slot in
//! insertion order; child links are indices into the same sequence. All
//! contracts of the executable trees are stated over this model, and the
//! general laws in [`crate::laws`] are proved of it once.

use vstd::prelude::*;

verus! {

/// One arena slot: a key (as a mathematical integer) and the indices of the
/// two optional children.
pub ghost struct SpecNode {
    pub key: int,
    pub left: Option<int>,
    pub right: Option<int>,
}

/// The larger of two integers.
pub open spec fn max2(a: int, b: int) -> int {
    if a >= b {
        a
    } else {
        b
    }
}

/// Both child links of slot `i` point past `i` and into the arena.
pub open spec fn link_ok(s: Seq<SpecNode>, i: int) -> bool {
    &&& match s[i].left {
        Some(l) => i < l < s.len(),
        None => true,
    }
    &&& match s[i].right {
        Some(r) => i < r < s.len(),
        None => true,
    }
}

/// Every slot's child links are in range and strictly increasing; this is
/// what append-and-return construction guarantees, and it rules out cycles.
pub open spec fn links_ok(s: Seq<SpecNode>) -> bool {
    forall|i: int| 0 <= i < s.len() ==> #[trigger] link_ok(s, i)
}

/// The child link of slot `i` on the chosen side.
pub open spec fn slot(s: Seq<SpecNode>, i: int, is_left: bool) -> Option<int> {
    if is_left {
        s[i].left
    } else {
        s[i].right
    }
}

/// No index is referenced as a child from two different slots.
pub open spec fn uniq_parents(s: Seq<SpecNode>) -> bool {
    forall|i1: int, b1: bool, i2: int, b2: bool|
        0 <= i1 < s.len() && 0 <= i2 < s.len() && #[trigger] slot(s, i1, b1) is Some && slot(
            s,
            i1,
            b1,
        ) == #[trigger] slot(s, i2, b2) ==> i1 == i2 && b1 == b2
}

/// Some slot references `j` as a child.
pub open spec fn has_parent(s: Seq<SpecNode>, j: int) -> bool {
    exists|i: int, b: bool| 0 <= i < s.len() && #[trigger] slot(s, i, b) == Some(j)
}

/// Every slot but the root is referenced as a child somewhere.
pub open spec fn covered(s: Seq<SpecNode>) -> bool {
    forall|j: int| 1 <= j < s.len() ==> #[trigger] has_parent(s, j)
}

/// Well-formedness of an arena tree: non-empty, child links increasing and in
/// range, each node the child of at most one slot, and every non-root node
/// attached somewhere. Together these make the arena a tree rooted at slot 0.
pub open spec fn wf(s: Seq<SpecNode>) -> bool {
    &&& s.len() >= 1
    &&& links_ok(s)
    &&& uniq_parents(s)
    &&& covered(s)
}

/// Every key lies in `[lo, hi]`.
pub open spec fn keys_in_range(s: Seq<SpecNode>, lo: int, hi: int) -> bool {
    forall|i: int| 0 <= i < s.len() ==> lo <= #[trigger] s[i].key <= hi
}

/// The arithmetic sum of every key in the arena, in slot order.
pub open spec fn key_sum(s: Seq<SpecNode>) -> int
    decreases s.len(),
{
    if s.len() == 0 {
        0
    } else {
        key_sum(s.drop_last()) + s.last().key
    }
}

/// The sum of the keys in the subtree rooted at `id`; an absent child
/// contributes zero. Out-of-range links are ignored, which never happens
/// under [`links_ok`].
pub open spec fn subtree_sum(s: Seq<SpecNode>, id: int) -> int
    decreases s.len() - id,
{
    if 0 <= id < s.len() {
        let n = s[id];
        n.key + (match n.left {
            Some(l) => if id < l < s.len() {
                subtree_sum(s, l)
            } else {
                0
            },
            None => 0,
        }) + (match n.right {
            Some(r) => if id < r < s.len() {
                subtree_sum(s, r)
            } else {
                0
            },
            None => 0,
        })
    } else {
        0
    }
}

/// Whether slot `t` lies in the subtree rooted at `r`.
pub open spec fn in_subtree(s: Seq<SpecNode>, r: int, t: int) -> bool
    decreases s.len() - r,
{
    if 0 <= r < s.len() {
        ||| r == t
        ||| match s[r].left {
            Some(l) => if r < l < s.len() {
                in_subtree(s, l, t)
            } else {
                false
            },
            None => false,
        }
        ||| match s[r].right {
            Some(rr) => if r < rr < s.len() {
                in_subtree(s, rr, t)
            } else {
                false
            },
            None => false,
        }
    } else {
        false
    }
}

/// The largest key in the subtree rooted at `id`.
pub open spec fn subtree_max(s: Seq<SpecNode>, id: int) -> int
    decreases s.len() - id,
{
    if 0 <= id < s.len() {
        let m0 = s[id].key;
        let m1 = match s[id].left {
            Some(l) => if id < l < s.len() {
                max2(m0, subtree_max(s, l))
            } else {
                m0
            },
            None => m0,
        };
        match s[id].right {
            Some(r) => if id < r < s.len() {
                max2(m1, subtree_max(s, r))
            } else {
                m1
            },
            None => m1,
        }
    } else {
        0
    }
}

/// The check the ordering pass makes at one node: the largest key of the left
/// subtree is at most the node's key, and the key is below `hi`, the key
/// type's maximum. The right subtree is not constrained beyond that bound:
/// the pass propagates its minimum with a maximum-style reduction whose value
/// bottoms out at the sentinel `hi`, so the `min > key` comparison reduces to
/// `key < hi`.
pub open spec fn node_bst_ok(s: Seq<SpecNode>, i: int, hi: int) -> bool {
    &&& match s[i].left {
        Some(l) => subtree_max(s, l) <= s[i].key,
        None => true,
    }
    &&& s[i].key < hi
}

/// What the binary-search-tree check accepts: every node passes
/// [`node_bst_ok`].
pub open spec fn bst_accepts(s: Seq<SpecNode>, hi: int) -> bool {
    forall|i: int| 0 <= i < s.len() ==> #[trigger] node_bst_ok(s, i, hi)
}

/// The recursive form of the ordering check over the subtree rooted at `id`:
/// every node of the subtree passes [`node_bst_ok`]. Equivalent, at the root
/// of a well-formed tree, to [`bst_accepts`].
pub open spec fn bst_sub(s: Seq<SpecNode>, id: int, hi: int) -> bool
    decreases s.len() - id,
{
    if 0 <= id < s.len() {
        let ok_l = match s[id].left {
            Some(l) => if id < l < s.len() {
                bst_sub(s, l, hi)
            } else {
                true
            },
            None => true,
        };
        let ok_r = match s[id].right {
            Some(r) => if id < r < s.len() {
                bst_sub(s, r, hi)
            } else {
                true
            },
            None => true,
        };
        ok_l && ok_r && node_bst_ok(s, id, hi)
    } else {
        true
    }
}

/// The best downward path sum from `id`: its key plus the larger of its
/// children's best downward paths, an absent child contributing zero.
pub open spec fn mps_down(s: Seq<SpecNode>, id: int) -> int
    decreases s.len() - id,
{
    if 0 <= id < s.len() {
        let dl = match s[id].left {
            Some(l) => if id < l < s.len() {
                mps_down(s, l)
            } else {
                0
            },
            None => 0,
        };
        let dr = match s[id].right {
            Some(r) => if id < r < s.len() {
                mps_down(s, r)
            } else {
                0
            },
            None => 0,
        };
        s[id].key + max2(dl, dr)
    } else {
        0
    }
}

/// The best path sum found anywhere in the subtree rooted at `id`: the path
/// bending at `id` (both children's best downward paths plus the key), or a
/// best path wholly inside a child's subtree.
pub open spec fn mps_best(s: Seq<SpecNode>, id: int) -> int
    decreases s.len() - id,
{
    if 0 <= id < s.len() {
        let dl = match s[id].left {
            Some(l) => if id < l < s.len() {
                mps_down(s, l)
            } else {
                0
            },
            None => 0,
        };
        let dr = match s[id].right {
            Some(r) => if id < r < s.len() {
                mps_down(s, r)
            } else {
                0
            },
            None => 0,
        };
        let here = dl + dr + s[id].key;
        match (s[id].left, s[id].right) {
            (None, None) => here,
            (Some(l), Some(r)) => if id < l < s.len() && id < r < s.len() {
                max2(max2(here, mps_best(s, l)), mps_best(s, r))
            } else {
                here
            },
            (None, Some(r)) => if id < r < s.len() {
                max2(here, mps_best(s, r))
            } else {
                here
            },
            (Some(l), None) => if id < l < s.len() {
                max2(here, mps_best(s, l))
            } else {
                here
            },
        }
    } else {
        0
    }
}

/// Every partial sum the recursive sum query forms below `id` stays within
/// `[lo, hi]`: first the two child sums, then their total plus the key.
pub open spec fn sum_ok(s: Seq<SpecNode>, id: int, lo: int, hi: int) -> bool
    decreases s.len() - id,
{
    if 0 <= id < s.len() {
        let sl = match s[id].left {
            Some(l) => if id < l < s.len() {
                subtree_sum(s, l)
            } else {
                0
            },
            None => 0,
        };
        let sr = match s[id].right {
            Some(r) => if id < r < s.len() {
                subtree_sum(s, r)
            } else {
                0
            },
            None => 0,
        };
        let ok_l = match s[id].left {
            Some(l) => if id < l < s.len() {
                sum_ok(s, l, lo, hi)
            } else {
                true
            },
            None => true,
        };
        let ok_r = match s[id].right {
            Some(r) => if id < r < s.len() {
                sum_ok(s, r, lo, hi)
            } else {
                true
            },
            None => true,
        };
        ok_l && ok_r && lo <= sl + sr <= hi && lo <= sl + sr + s[id].key <= hi
    } else {
        true
    }
}

/// Every intermediate value the path-sum query forms below `id` stays within
/// `[lo, hi]`: the two downward sums added together, that total plus the key,
/// and the key plus the larger downward sum.
pub open spec fn path_ok(s: Seq<SpecNode>, id: int, lo: int, hi: int) -> bool
    decreases s.len() - id,
{
    if 0 <= id < s.len() {
        let dl = match s[id].left {
            Some(l) => if id < l < s.len() {
                mps_down(s, l)
            } else {
                0
            },
            None => 0,
        };
        let dr = match s[id].right {
            Some(r) => if id < r < s.len() {
                mps_down(s, r)
            } else {
                0
            },
            None => 0,
        };
        let ok_l = match s[id].left {
            Some(l) => if id < l < s.len() {
                path_ok(s, l, lo, hi)
            } else {
                true
            },
            None => true,
        };
        let ok_r = match s[id].right {
            Some(r) => if id < r < s.len() {
                path_ok(s, r, lo, hi)
            } else {
                true
            },
            None => true,
        };
        &&& ok_l
        &&& ok_r
        &&& lo <= dl + dr <= hi
        &&& lo <= dl + dr + s[id].key <= hi
        &&& lo <= s[id].key + max2(dl, dr) <= hi
    } else {
        true
    }
}

/// The termination measure of the executable traversals: recursion moves to a
/// strictly larger slot index or to an absent child.
pub open spec fn rank(s: Seq<SpecNode>, o: Option<usize>) -> int {
    match o {
        None => 0,
        Some(i) => s.len() - i,
    }
}

/// An arena index as it appears in the model.
pub open spec fn opt_index(o: Option<usize>) -> Option<int> {
    match o {
        None => None,
        Some(i) => Some(i as int),
    }
}

/// `n` with the chosen child slot set to `c`.
pub open spec fn set_slot(n: SpecNode, is_left: bool, c: int) -> SpecNode {
    if is_left {
        SpecNode { left: Some(c), ..n }
    } else {
        SpecNode { right: Some(c), ..n }
    }
}

/// The model of one attachment: append a childless node holding `k` and point
/// the chosen empty slot of `p` at it.
pub open spec fn attach(s: Seq<SpecNode>, p: int, is_left: bool, k: int) -> Seq<SpecNode> {
    s.update(p, set_slot(s[p], is_left, s.len() as int)).push(
        SpecNode { key: k, left: None, right: None },
    )
}

/// Whether the node that `attach(s, p, is_left, _)` would append lands in
/// the left subtree of slot `a`: either it becomes `a`'s own left child, or
/// its parent-to-be already lies in `a`'s left subtree.
pub open spec fn new_node_in_left_subtree(s: Seq<SpecNode>, p: int, is_left: bool, a: int) -> bool {
    ||| (a == p && is_left)
    ||| match s[a].left {
        Some(l) => in_subtree(s, l, p),
        None => false,
    }
}

/// `n` with the chosen child slot emptied.
pub open spec fn clear_slot(n: SpecNode, is_left: bool) -> SpecNode {
    if is_left {
        SpecNode { left: None, ..n }
    } else {
        SpecNode { right: None, ..n }
    }
}

/// The model of removing the newest node: drop the last slot and empty the
/// one slot of `p` that referenced it.
pub open spec fn detach(s: Seq<SpecNode>, p: int, is_left: bool) -> Seq<SpecNode> {
    s.subrange(0, s.len() - 1).update(p, clear_slot(s[p], is_left))
}

} // verus!
