//! General laws of the arena-tree model, proved once and shared by every key
//! type. Each law is stated over the model sequence that the executable
//! trees expose as their view.

use crate::lemmas;
use crate::model::{
    attach, bst_accepts, detach, has_parent, in_subtree, key_sum, link_ok, mps_best,
    mps_down, new_node_in_left_subtree, node_bst_ok, slot, subtree_max, subtree_sum, wf, SpecNode,
};
use vstd::prelude::*;

verus! {

/// The sum query counts every inserted key exactly once: in a well-formed
/// tree, the recursive sum from the root equals the arithmetic sum of the
/// whole arena, whatever order the keys were inserted in.
pub proof fn lemma_sum_counts_every_key(s: Seq<SpecNode>)
    requires
        wf(s),
    ensures
        subtree_sum(s, 0) == key_sum(s),
    decreases s.len(),
{
    let n = s.len() - 1;
    assert(key_sum(s) == key_sum(s.drop_last()) + s.last().key);
    if s.len() == 1 {
        assert(link_ok(s, 0));
        assert(s.drop_last().len() == 0);
    } else {
        assert(has_parent(s, n));
        let (p, b) = choose|p: int, b: bool| 0 <= p < s.len() && #[trigger] slot(s, p, b) == Some(
            n,
        );
        assert(link_ok(s, p));
        let s2 = detach(s, p, b);
        lemmas::lemma_detach_wf(s, p, b);
        lemmas::lemma_detach_sum(s, p, b, 0);
        lemmas::lemma_all_reachable(s, n);
        lemma_sum_counts_every_key(s2);
        assert forall|i: int| 0 <= i < s2.len() implies s.drop_last()[i].key == s2[i].key by {
            assert(s.drop_last()[i] == s[i]);
        }
        lemmas::lemma_key_sum_pointwise(s.drop_last(), s2);
    }
}

/// A tree holding a single node passes the ordering check, for any key
/// below the sentinel `hi`, the key type's maximum. (A root key equal to the
/// maximum is the one exception: the check compares every key against that
/// sentinel and rejects it.)
pub proof fn lemma_single_node_is_bst(s: Seq<SpecNode>, hi: int)
    requires
        wf(s),
        s.len() == 1,
        s[0].key < hi,
    ensures
        bst_accepts(s, hi),
{
    assert forall|i: int| 0 <= i < s.len() implies #[trigger] node_bst_ok(s, i, hi) by {
        assert(link_ok(s, i));
    }
}

/// Attaching a key within the position's upper bounds keeps the ordering
/// check passing: the new key is at most the key of every node whose left
/// subtree gains it, and below the sentinel `hi`. (The check never reads a
/// lower bound: the minimum it propagates is folded with a maximum-style
/// reduction and bottoms out at the sentinel, so only left-subtree bounds
/// and the sentinel can reject.)
pub proof fn lemma_attach_in_bounds_keeps_bst(
    s: Seq<SpecNode>,
    p: int,
    is_left: bool,
    k: int,
    hi: int,
)
    requires
        wf(s),
        0 <= p < s.len(),
        slot(s, p, is_left) is None,
        bst_accepts(s, hi),
        k < hi,
        forall|a: int|
            0 <= a < s.len() && #[trigger] new_node_in_left_subtree(s, p, is_left, a) ==> k
                <= s[a].key,
    ensures
        bst_accepts(attach(s, p, is_left, k), hi),
{
    let s2 = attach(s, p, is_left, k);
    let n = s.len() as int;
    lemmas::lemma_attach_wf(s, p, is_left, k);
    assert(subtree_max(s2, n) == k);
    assert forall|i: int| 0 <= i < s2.len() implies #[trigger] node_bst_ok(s2, i, hi) by {
        if i == n {
            assert(s2[n].left is None);
        } else {
            assert(node_bst_ok(s, i, hi));
            assert(link_ok(s, i));
            if i == p && is_left {
                assert(new_node_in_left_subtree(s, p, is_left, p));
                assert(s2[p].left == Some(n));
            } else {
                assert(s2[i].left == s[i].left);
                match s[i].left {
                    Some(l) => {
                        if in_subtree(s, l, p) {
                            assert(new_node_in_left_subtree(s, p, is_left, i));
                            lemmas::lemma_attach_max(s, p, is_left, k, l);
                        } else {
                            lemmas::lemma_attach_frame(s, p, is_left, k, l);
                        }
                    },
                    None => {},
                }
            }
        }
    }
}

/// Attaching a key above the bound of some node whose left subtree gains it
/// makes the ordering check fail: that node's left-subtree maximum rises to
/// at least `k`, above the node's own key.
pub proof fn lemma_attach_above_bound_breaks_bst(
    s: Seq<SpecNode>,
    p: int,
    is_left: bool,
    k: int,
    a: int,
    hi: int,
)
    requires
        wf(s),
        0 <= p < s.len(),
        slot(s, p, is_left) is None,
        0 <= a < s.len(),
        new_node_in_left_subtree(s, p, is_left, a),
        k > s[a].key,
    ensures
        !bst_accepts(attach(s, p, is_left, k), hi),
{
    let s2 = attach(s, p, is_left, k);
    let n = s.len() as int;
    assert(subtree_max(s2, n) == k);
    if a == p && is_left {
        assert(s2[p].left == Some(n));
    } else {
        match s[a].left {
            Some(l) => {
                assert(in_subtree(s, l, p));
                lemmas::lemma_attach_max(s, p, is_left, k, l);
                assert(s2[a].left == Some(l));
            },
            None => {
                assert(false);
            },
        }
    }
    assert(!node_bst_ok(s2, a, hi));
}

/// Attaching a key at or above the sentinel `hi` (the key type's maximum)
/// makes the ordering check fail at the new node itself.
pub proof fn lemma_attach_max_key_breaks_bst(
    s: Seq<SpecNode>,
    p: int,
    is_left: bool,
    k: int,
    hi: int,
)
    requires
        wf(s),
        0 <= p < s.len(),
        slot(s, p, is_left) is None,
        k >= hi,
    ensures
        !bst_accepts(attach(s, p, is_left, k), hi),
{
    let s2 = attach(s, p, is_left, k);
    let n = s.len() as int;
    assert(!node_bst_ok(s2, n, hi));
}

/// When the root's two children are both leaves, every node lies on the one
/// leaf-to-leaf path, and the best path sum equals the sum of every key
/// (with non-negative keys, as an unsigned key type guarantees).
pub proof fn lemma_two_leaf_children_path_is_sum(s: Seq<SpecNode>)
    requires
        wf(s),
        s.len() == 3,
        s[0].left is Some,
        s[0].right is Some,
        0 <= s[0].key,
        0 <= s[1].key,
        0 <= s[2].key,
    ensures
        mps_best(s, 0) == key_sum(s),
{
    lemma_sum_counts_every_key(s);
    assert(link_ok(s, 0));
    assert(link_ok(s, 1));
    assert(link_ok(s, 2));
    match (s[0].left, s[0].right) {
        (Some(l), Some(r)) => {
            if l == r {
                assert(slot(s, 0, true) == slot(s, 0, false));
                assert(false);
            }
            // The two children are slots 1 and 2, and neither can have a
            // child of its own: the only candidate index, 2, is already the
            // root's child.
            match s[1].left {
                Some(c) => {
                    assert(slot(s, 1, true) == Some(2int));
                    assert(slot(s, 0, if l == 2 { true } else { false }) == Some(2int));
                    assert(false);
                },
                None => {},
            }
            match s[1].right {
                Some(c) => {
                    assert(slot(s, 1, false) == Some(2int));
                    assert(slot(s, 0, if l == 2 { true } else { false }) == Some(2int));
                    assert(false);
                },
                None => {},
            }
            assert(s[2].left is None && s[2].right is None);
            assert(mps_down(s, 1) == s[1].key);
            assert(mps_down(s, 2) == s[2].key);
            assert(mps_best(s, 1) == s[1].key);
            assert(mps_best(s, 2) == s[2].key);
            assert(subtree_sum(s, 1) == s[1].key);
            assert(subtree_sum(s, 2) == s[2].key);
        },
        _ => {
            assert(false);
        },
    }
}

} // verus!
