//! A standalone leaf-path routine over a pointer-linked binary tree with
//! `i32` keys.
//!
//! The routine returns a pair whose two components trade roles between
//! levels: the value it reports first is computed from the values the
//! recursive calls reported first, yet it is combined as though it were a
//! downward total, and the running maximum is reported second. The
//! contract states the two mirrored recursions exactly.

use crate::model::max2;
use vstd::prelude::*;

verus! {

/// One node of the pointer-linked tree.
pub struct Node {
    pub key: i32,
    pub left: Box<Option<Node>>,
    pub right: Box<Option<Node>>,
}

/// The first component the routine reports for `u`.
pub open spec fn mlp_first(u: Option<Node>) -> int
    decreases u,
{
    match u {
        None => 0,
        Some(n) => {
            let here = mlp_first(*n.right) + n.key + mlp_first(*n.left);
            if here > mlp_second(*n.left) && here > mlp_second(*n.right) {
                here
            } else {
                max2(mlp_second(*n.left), mlp_second(*n.right))
            }
        },
    }
}

/// The second component the routine reports for `u`.
pub open spec fn mlp_second(u: Option<Node>) -> int
    decreases u,
{
    match u {
        None => 0,
        Some(n) => max2(mlp_second(*n.left), mlp_second(*n.right)) + n.key,
    }
}

/// Every intermediate value the routine forms below `u` fits in an `i32`.
pub open spec fn mlp_in_range(u: Option<Node>) -> bool
    decreases u,
{
    match u {
        None => true,
        Some(n) => {
            &&& mlp_in_range(*n.left)
            &&& mlp_in_range(*n.right)
            &&& i32::MIN <= mlp_first(*n.right) + n.key <= i32::MAX
            &&& i32::MIN <= mlp_first(*n.right) + n.key + mlp_first(*n.left) <= i32::MAX
            &&& i32::MIN <= max2(mlp_second(*n.left), mlp_second(*n.right)) + n.key <= i32::MAX
        },
    }
}

/// The larger of two `i32` values.
fn max_i32(a: i32, b: i32) -> (r: i32)
    ensures
        r as int == max2(a as int, b as int),
{
    if a >= b {
        a
    } else {
        b
    }
}

/// One post-order pass over the pointer-linked tree, reporting the pair of
/// mirrored totals described at the module's head.
pub fn max_leaf_path(u: Option<Node>) -> (r: (i32, i32))
    requires
        mlp_in_range(u),
    ensures
        r.0 as int == mlp_first(u),
        r.1 as int == mlp_second(u),
    decreases u,
{
    if u.is_none() {
        return (0, 0);
    }
    let u = u.unwrap();
    let (bpl, bsl) = max_leaf_path(*u.left);
    let (bpr, bsr) = max_leaf_path(*u.right);

    let best_solution_here = bpr + u.key + bpl;

    let best_sol = if best_solution_here > bsl && best_solution_here > bsr {
        best_solution_here
    } else {
        max_i32(bsl, bsr)
    };

    (best_sol, max_i32(bsl, bsr) + u.key)
}

} // verus!
