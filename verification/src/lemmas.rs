//! Internal proofs about the arena-tree model: how well-formedness survives
//! attachment, and how the recursive queries relate to whole-tree values.

use crate::model::{
    attach, bst_accepts, bst_sub, detach, has_parent, in_subtree, key_sum, keys_in_range, link_ok, subtree_max,
    links_ok, node_bst_ok, slot, subtree_sum, sum_ok, uniq_parents, wf, SpecNode,
};
use vstd::prelude::*;

verus! {

/// Attaching a fresh leaf under an empty slot keeps the tree well-formed.
pub(crate) proof fn lemma_attach_wf(s: Seq<SpecNode>, p: int, is_left: bool, k: int)
    requires
        wf(s),
        0 <= p < s.len(),
        slot(s, p, is_left) is None,
    ensures
        wf(attach(s, p, is_left, k)),
{
    let s2 = attach(s, p, is_left, k);
    let n = s.len() as int;
    assert forall|i: int| 0 <= i < s2.len() implies #[trigger] link_ok(s2, i) by {
        if i < n {
            assert(link_ok(s, i));
        }
    }
    assert forall|i1: int, b1: bool, i2: int, b2: bool|
        0 <= i1 < s2.len() && 0 <= i2 < s2.len() && #[trigger] slot(s2, i1, b1) is Some && slot(
            s2,
            i1,
            b1,
        ) == #[trigger] slot(s2, i2, b2) implies i1 == i2 && b1 == b2 by {
        // A slot of the extended tree either already existed or is the one
        // just set at (p, is_left); old slots target indices below n, the new
        // one targets n, so the two kinds never collide.
        assert(i1 < n && i2 < n);
        if !(i1 == p && b1 == is_left) && !(i2 == p && b2 == is_left) {
            assert(slot(s, i1, b1) == slot(s2, i1, b1));
            assert(slot(s, i2, b2) == slot(s2, i2, b2));
        } else if (i1 == p && b1 == is_left) && !(i2 == p && b2 == is_left) {
            assert(slot(s2, i1, b1) == Some(n));
            assert(slot(s, i2, b2) == slot(s2, i2, b2));
            assert(link_ok(s, i2));
            assert(false);
        } else if !(i1 == p && b1 == is_left) && (i2 == p && b2 == is_left) {
            assert(slot(s2, i2, b2) == Some(n));
            assert(slot(s, i1, b1) == slot(s2, i1, b1));
            assert(link_ok(s, i1));
            assert(false);
        }
    }
    assert forall|j: int| 1 <= j < s2.len() implies #[trigger] has_parent(s2, j) by {
        if j < n {
            assert(has_parent(s, j));
            let (i, b) = choose|i: int, b: bool| 0 <= i < s.len() && #[trigger] slot(s, i, b)
                == Some(j);
            assert(slot(s2, i, b) == Some(j));
        } else {
            assert(slot(s2, p, is_left) == Some(j));
        }
    }
}

/// A subtree only reaches slots at or past its root.
pub(crate) proof fn lemma_in_subtree_bounds(s: Seq<SpecNode>, r: int, t: int)
    requires
        links_ok(s),
        0 <= r < s.len(),
        in_subtree(s, r, t),
    ensures
        r <= t < s.len(),
    decreases s.len() - r,
{
    assert(link_ok(s, r));
    if r != t {
        match s[r].left {
            Some(l) => {
                if in_subtree(s, l, t) {
                    lemma_in_subtree_bounds(s, l, t);
                }
            },
            None => {},
        }
        match s[r].right {
            Some(rr) => {
                if in_subtree(s, rr, t) {
                    lemma_in_subtree_bounds(s, rr, t);
                }
            },
            None => {},
        }
    }
}

/// A subtree that reaches a slot also reaches that slot's children.
pub(crate) proof fn lemma_in_subtree_child(s: Seq<SpecNode>, r: int, a: int, c: int, b: bool)
    requires
        links_ok(s),
        0 <= r < s.len(),
        in_subtree(s, r, a),
        slot(s, a, b) == Some(c),
    ensures
        in_subtree(s, r, c),
    decreases s.len() - r,
{
    lemma_in_subtree_bounds(s, r, a);
    assert(link_ok(s, r));
    assert(link_ok(s, a));
    if r == a {
        assert(in_subtree(s, c, c));
    } else {
        match s[r].left {
            Some(l) => {
                if in_subtree(s, l, a) {
                    lemma_in_subtree_child(s, l, a, c, b);
                }
            },
            None => {},
        }
        match s[r].right {
            Some(rr) => {
                if in_subtree(s, rr, a) {
                    lemma_in_subtree_child(s, rr, a, c, b);
                }
            },
            None => {},
        }
    }
}

/// In a well-formed tree every slot lies in the root's subtree.
pub(crate) proof fn lemma_all_reachable(s: Seq<SpecNode>, t: int)
    requires
        wf(s),
        0 <= t < s.len(),
    ensures
        in_subtree(s, 0, t),
    decreases t,
{
    if t == 0 {
        assert(in_subtree(s, 0, 0));
    } else {
        assert(has_parent(s, t));
        let (i, b) = choose|i: int, b: bool| 0 <= i < s.len() && #[trigger] slot(s, i, b) == Some(
            t,
        );
        assert(link_ok(s, i));
        lemma_all_reachable(s, i);
        lemma_in_subtree_child(s, 0, i, t, b);
    }
}

/// A subtree that reaches a slot other than its own root also reaches that
/// slot's parent.
pub(crate) proof fn lemma_in_subtree_parent(s: Seq<SpecNode>, r: int, t: int, p: int, b: bool)
    requires
        links_ok(s),
        uniq_parents(s),
        0 <= r < s.len(),
        0 <= p < s.len(),
        in_subtree(s, r, t),
        t != r,
        slot(s, p, b) == Some(t),
    ensures
        in_subtree(s, r, p),
    decreases s.len() - r,
{
    assert(link_ok(s, r));
    match s[r].left {
        Some(l) => {
            if in_subtree(s, l, t) {
                if l == t {
                    assert(slot(s, r, true) == Some(t));
                    assert(in_subtree(s, r, r));
                } else {
                    lemma_in_subtree_parent(s, l, t, p, b);
                }
            }
        },
        None => {},
    }
    match s[r].right {
        Some(rr) => {
            if in_subtree(s, rr, t) {
                if rr == t {
                    assert(slot(s, r, false) == Some(t));
                    assert(in_subtree(s, r, r));
                } else {
                    lemma_in_subtree_parent(s, rr, t, p, b);
                }
            }
        },
        None => {},
    }
}

/// The left and right subtrees of one node share no slot.
pub(crate) proof fn lemma_subtrees_disjoint(s: Seq<SpecNode>, r: int, l: int, rr: int, t: int)
    requires
        wf(s),
        0 <= r < s.len(),
        s[r].left == Some(l),
        s[r].right == Some(rr),
    ensures
        !(in_subtree(s, l, t) && in_subtree(s, rr, t)),
    decreases t,
{
    if in_subtree(s, l, t) && in_subtree(s, rr, t) {
        assert(link_ok(s, r));
        lemma_in_subtree_bounds(s, l, t);
        lemma_in_subtree_bounds(s, rr, t);
        if l == rr {
            assert(slot(s, r, true) == slot(s, r, false));
        } else if t == l {
            assert(slot(s, r, true) == Some(l));
            lemma_in_subtree_parent(s, rr, l, r, true);
            lemma_in_subtree_bounds(s, rr, r);
        } else if t == rr {
            assert(slot(s, r, false) == Some(rr));
            lemma_in_subtree_parent(s, l, rr, r, false);
            lemma_in_subtree_bounds(s, l, r);
        } else {
            assert(has_parent(s, t));
            let (q, c) = choose|q: int, c: bool|
                0 <= q < s.len() && #[trigger] slot(s, q, c) == Some(t);
            assert(link_ok(s, q));
            lemma_in_subtree_parent(s, l, t, q, c);
            lemma_in_subtree_parent(s, rr, t, q, c);
            lemma_subtrees_disjoint(s, r, l, rr, q);
        }
    }
}

/// Detaching the newest node (a leaf, by the increasing-links invariant)
/// keeps the tree well-formed.
pub(crate) proof fn lemma_detach_wf(s: Seq<SpecNode>, p: int, b: bool)
    requires
        wf(s),
        s.len() >= 2,
        0 <= p < s.len() - 1,
        slot(s, p, b) == Some(s.len() - 1),
    ensures
        wf(detach(s, p, b)),
        detach(s, p, b).len() == s.len() - 1,
        forall|i: int, c: bool|
            0 <= i < s.len() - 1 ==> #[trigger] slot(detach(s, p, b), i, c) == (if i == p && c == b {
                None
            } else {
                slot(s, i, c)
            }),
{
    let n = s.len() - 1;
    let s2 = detach(s, p, b);
    assert forall|i: int, c: bool| 0 <= i < n implies #[trigger] slot(s2, i, c) == (if i == p && c
        == b {
        None
    } else {
        slot(s, i, c)
    }) by {}
    assert forall|i: int| 0 <= i < s2.len() implies #[trigger] link_ok(s2, i) by {
        assert(link_ok(s, i));
        assert(slot(s2, i, true) == s2[i].left);
        assert(slot(s2, i, false) == s2[i].right);
        match s2[i].left {
            Some(j) => {
                assert(slot(s, i, true) == Some(j));
                if j == n {
                    assert(slot(s, i, true) == slot(s, p, b));
                    assert(false);
                }
            },
            None => {},
        }
        match s2[i].right {
            Some(j) => {
                assert(slot(s, i, false) == Some(j));
                if j == n {
                    assert(slot(s, i, false) == slot(s, p, b));
                    assert(false);
                }
            },
            None => {},
        }
    }
    assert forall|i1: int, b1: bool, i2: int, b2: bool|
        0 <= i1 < s2.len() && 0 <= i2 < s2.len() && #[trigger] slot(s2, i1, b1) is Some && slot(
            s2,
            i1,
            b1,
        ) == #[trigger] slot(s2, i2, b2) implies i1 == i2 && b1 == b2 by {
        assert(slot(s2, i1, b1) == slot(s, i1, b1));
        assert(slot(s2, i2, b2) == slot(s, i2, b2));
    }
    assert forall|j: int| 1 <= j < s2.len() implies #[trigger] has_parent(s2, j) by {
        assert(has_parent(s, j));
        let (i, c) = choose|i: int, c: bool| 0 <= i < s.len() && #[trigger] slot(s, i, c) == Some(
            j,
        );
        assert(link_ok(s, i));
        if i == n {
            assert(false);
        }
        assert(slot(s2, i, c) == Some(j));
    }
}

/// How the sum of a subtree changes when the newest node is detached: it
/// drops by that node's key exactly where the subtree reached it.
pub(crate) proof fn lemma_detach_sum(s: Seq<SpecNode>, p: int, b: bool, r: int)
    requires
        wf(s),
        s.len() >= 2,
        0 <= p < s.len() - 1,
        slot(s, p, b) == Some(s.len() - 1),
        0 <= r < s.len() - 1,
    ensures
        subtree_sum(s, r) == subtree_sum(detach(s, p, b), r) + (if in_subtree(s, r, s.len() - 1) {
            s[s.len() - 1].key
        } else {
            0
        }),
    decreases s.len() - r,
{
    let n = s.len() - 1;
    let s2 = detach(s, p, b);
    lemma_detach_wf(s, p, b);
    assert(link_ok(s, r));
    assert(link_ok(s, n));
    assert(subtree_sum(s, n) == s[n].key);
    if r == p {
        assert(in_subtree(s, n, n));
        assert(in_subtree(s, p, n));
        let other = slot(s, p, !b);
        match other {
            Some(c) => {
                if c == n {
                    assert(slot(s, p, !b) == slot(s, p, b));
                    assert(false);
                }
                if in_subtree(s, c, n) {
                    lemma_in_subtree_parent(s, c, n, p, b);
                    lemma_in_subtree_bounds(s, c, p);
                }
                assert(!in_subtree(s, c, n));
                lemma_detach_sum(s, p, b, c);
            },
            None => {},
        }
        assert(slot(s2, p, b) == None::<int>);
        assert(slot(s2, p, !b) == other);
        assert(s2[p].key == s[p].key);
    } else {
        assert(s2[r] == s[r]);
        match s[r].left {
            Some(c) => {
                if c == n {
                    assert(slot(s, r, true) == slot(s, p, b));
                    assert(false);
                }
                lemma_detach_sum(s, p, b, c);
            },
            None => {},
        }
        match s[r].right {
            Some(c) => {
                if c == n {
                    assert(slot(s, r, false) == slot(s, p, b));
                    assert(false);
                }
                lemma_detach_sum(s, p, b, c);
            },
            None => {},
        }
        match (s[r].left, s[r].right) {
            (Some(cl), Some(cr)) => {
                lemma_subtrees_disjoint(s, r, cl, cr, n);
            },
            _ => {},
        }
    }
}

/// The whole-arena key sum only reads keys, so it is unchanged by edits that
/// keep every key.
pub(crate) proof fn lemma_key_sum_pointwise(a: Seq<SpecNode>, b: Seq<SpecNode>)
    requires
        a.len() == b.len(),
        forall|i: int| 0 <= i < a.len() ==> a[i].key == b[i].key,
    ensures
        key_sum(a) == key_sum(b),
    decreases a.len(),
{
    if a.len() > 0 {
        assert(a.last().key == b.last().key);
        assert forall|i: int| 0 <= i < a.drop_last().len() implies a.drop_last()[i].key
            == b.drop_last()[i].key by {
            assert(a.drop_last()[i] == a[i]);
            assert(b.drop_last()[i] == b[i]);
        }
        lemma_key_sum_pointwise(a.drop_last(), b.drop_last());
    }
}

/// The recursive ordering check of a subtree passes exactly when every slot
/// the subtree reaches passes the one-node check.
pub(crate) proof fn lemma_bst_sub_forall(s: Seq<SpecNode>, r: int, hi: int)
    requires
        links_ok(s),
        0 <= r < s.len(),
    ensures
        bst_sub(s, r, hi) == (forall|t: int| #[trigger] in_subtree(s, r, t) ==> node_bst_ok(
            s,
            t,
            hi,
        )),
    decreases s.len() - r,
{
    assert(link_ok(s, r));
    match s[r].left {
        Some(l) => {
            lemma_bst_sub_forall(s, l, hi);
        },
        None => {},
    }
    match s[r].right {
        Some(rr) => {
            lemma_bst_sub_forall(s, rr, hi);
        },
        None => {},
    }
    if bst_sub(s, r, hi) {
        assert forall|t: int| #[trigger] in_subtree(s, r, t) implies node_bst_ok(s, t, hi) by {
            if t != r {
                match s[r].left {
                    Some(l) => {
                        if in_subtree(s, l, t) {
                            assert(bst_sub(s, l, hi));
                        }
                    },
                    None => {},
                }
                match s[r].right {
                    Some(rr) => {
                        if in_subtree(s, rr, t) {
                            assert(bst_sub(s, rr, hi));
                        }
                    },
                    None => {},
                }
            }
        }
    }
    if forall|t: int| #[trigger] in_subtree(s, r, t) ==> node_bst_ok(s, t, hi) {
        assert(in_subtree(s, r, r));
        match s[r].left {
            Some(l) => {
                assert forall|t: int| #[trigger] in_subtree(s, l, t) implies node_bst_ok(
                    s,
                    t,
                    hi,
                ) by {
                    assert(in_subtree(s, r, t));
                }
            },
            None => {},
        }
        match s[r].right {
            Some(rr) => {
                assert forall|t: int| #[trigger] in_subtree(s, rr, t) implies node_bst_ok(
                    s,
                    t,
                    hi,
                ) by {
                    assert(in_subtree(s, r, t));
                }
            },
            None => {},
        }
        assert(bst_sub(s, r, hi));
    }
}

/// At the root of a well-formed tree the recursive ordering check and the
/// every-node statement agree.
pub(crate) proof fn lemma_bst_accepts_equiv(s: Seq<SpecNode>, hi: int)
    requires
        wf(s),
    ensures
        bst_sub(s, 0, hi) == bst_accepts(s, hi),
{
    lemma_bst_sub_forall(s, 0, hi);
    if bst_sub(s, 0, hi) {
        assert forall|i: int| 0 <= i < s.len() implies #[trigger] node_bst_ok(s, i, hi) by {
            lemma_all_reachable(s, i);
        }
    }
    if bst_accepts(s, hi) {
        assert forall|t: int| #[trigger] in_subtree(s, 0, t) implies node_bst_ok(s, t, hi) by {
            lemma_in_subtree_bounds(s, 0, t);
        }
    }
}

/// A subtree that does not reach the attachment point is untouched by the
/// attachment: it reaches the same slots and keeps its largest key.
pub(crate) proof fn lemma_attach_frame(s: Seq<SpecNode>, p: int, is_left: bool, k: int, r: int)
    requires
        wf(s),
        0 <= p < s.len(),
        slot(s, p, is_left) is None,
        0 <= r < s.len(),
        !in_subtree(s, r, p),
    ensures
        subtree_max(attach(s, p, is_left, k), r) == subtree_max(s, r),
        forall|t: int| #[trigger] in_subtree(attach(s, p, is_left, k), r, t) == in_subtree(
            s,
            r,
            t,
        ),
    decreases s.len() - r,
{
    let s2 = attach(s, p, is_left, k);
    assert(in_subtree(s, r, r));
    assert(r != p);
    assert(s2[r] == s[r]);
    assert(link_ok(s, r));
    match s[r].left {
        Some(l) => {
            if in_subtree(s, l, p) {
                assert(in_subtree(s, r, p));
            }
            lemma_attach_frame(s, p, is_left, k, l);
        },
        None => {},
    }
    match s[r].right {
        Some(rr) => {
            if in_subtree(s, rr, p) {
                assert(in_subtree(s, r, p));
            }
            lemma_attach_frame(s, p, is_left, k, rr);
        },
        None => {},
    }
    assert forall|t: int| #[trigger] in_subtree(s2, r, t) == in_subtree(s, r, t) by {
        match s[r].left {
            Some(l) => {
                assert(in_subtree(s2, l, t) == in_subtree(s, l, t));
            },
            None => {},
        }
        match s[r].right {
            Some(rr) => {
                assert(in_subtree(s2, rr, t) == in_subtree(s, rr, t));
            },
            None => {},
        }
    }
}

/// A subtree that reaches the attachment point gains exactly the new key:
/// its largest key becomes the larger of its old largest key and `k`.
pub(crate) proof fn lemma_attach_max(s: Seq<SpecNode>, p: int, is_left: bool, k: int, r: int)
    requires
        wf(s),
        0 <= p < s.len(),
        slot(s, p, is_left) is None,
        0 <= r < s.len(),
        in_subtree(s, r, p),
    ensures
        subtree_max(attach(s, p, is_left, k), r) == crate::model::max2(subtree_max(s, r), k),
    decreases s.len() - r,
{
    let s2 = attach(s, p, is_left, k);
    let n = s.len() as int;
    assert(link_ok(s, r));
    assert(subtree_max(s2, n) == k);
    if r == p {
        assert(s2[p] == crate::model::set_slot(s[p], is_left, n));
        let other = slot(s, p, !is_left);
        match other {
            Some(c) => {
                if in_subtree(s, c, p) {
                    lemma_in_subtree_bounds(s, c, p);
                }
                lemma_attach_frame(s, p, is_left, k, c);
            },
            None => {},
        }
    } else {
        assert(s2[r] == s[r]);
        match s[r].left {
            Some(l) => {
                if in_subtree(s, l, p) {
                    lemma_attach_max(s, p, is_left, k, l);
                } else {
                    lemma_attach_frame(s, p, is_left, k, l);
                }
            },
            None => {},
        }
        match s[r].right {
            Some(rr) => {
                if in_subtree(s, rr, p) {
                    lemma_attach_max(s, p, is_left, k, rr);
                } else {
                    lemma_attach_frame(s, p, is_left, k, rr);
                }
            },
            None => {},
        }
    }
}

/// With non-negative keys every subtree sum is non-negative.
pub(crate) proof fn lemma_subtree_sum_nonneg(s: Seq<SpecNode>, id: int, hi: int)
    requires
        links_ok(s),
        keys_in_range(s, 0, hi),
    ensures
        0 <= subtree_sum(s, id),
    decreases s.len() - id,
{
    if 0 <= id < s.len() {
        assert(link_ok(s, id));
        assert(0 <= s[id].key);
        match s[id].left {
            Some(l) => {
                lemma_subtree_sum_nonneg(s, l, hi);
            },
            None => {},
        }
        match s[id].right {
            Some(r) => {
                lemma_subtree_sum_nonneg(s, r, hi);
            },
            None => {},
        }
    }
}

/// With non-negative keys, a bound on a subtree's sum bounds every partial
/// sum the recursive sum query forms below it.
pub(crate) proof fn lemma_sum_ok_from_total(s: Seq<SpecNode>, id: int, hi: int)
    requires
        links_ok(s),
        keys_in_range(s, 0, hi),
        0 <= id < s.len(),
        subtree_sum(s, id) <= hi,
    ensures
        sum_ok(s, id, 0, hi),
    decreases s.len() - id,
{
    assert(link_ok(s, id));
    assert(0 <= s[id].key);
    match s[id].left {
        Some(l) => {
            lemma_subtree_sum_nonneg(s, l, hi);
        },
        None => {},
    }
    match s[id].right {
        Some(r) => {
            lemma_subtree_sum_nonneg(s, r, hi);
        },
        None => {},
    }
    match s[id].left {
        Some(l) => {
            lemma_sum_ok_from_total(s, l, hi);
        },
        None => {},
    }
    match s[id].right {
        Some(r) => {
            lemma_sum_ok_from_total(s, r, hi);
        },
        None => {},
    }
}

} // verus!
