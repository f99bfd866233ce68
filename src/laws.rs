use vstd::prelude::*;

use crate::error::OptimizerError;
use crate::expr::Term;
use crate::optimizer::{merged, node_step, simplified, simplify, MAX_PASSES};

verus! {

/// The passes after the first stop only at a tree that a node pass leaves
/// unchanged.
pub proof fn lemma_simplify_result_is_fixed(t: Term, target: Seq<char>, fuel: nat, r: Term)
    requires
        simplify(t, target, fuel) == Ok::<Term, OptimizerError>(r),
    ensures
        node_step(r, target) == r,
    decreases fuel,
{
    if node_step(t, target) != t {
        match merged(node_step(t, target)) {
            None => {},
            Some(m) => {
                if fuel > 0 {
                    lemma_simplify_result_is_fixed(m, target, (fuel - 1) as nat, r);
                }
            },
        }
    }
}

/// A node pass (`optimize_node`) applied to a fully simplified tree returns a
/// structurally equal tree.
pub proof fn lemma_node_pass_idempotent(t: Term, target: Seq<char>, r: Term)
    requires
        simplified(t, target) == Ok::<Term, OptimizerError>(r),
    ensures
        node_step(r, target) == r,
{
    match merged(node_step(t, target)) {
        None => {},
        Some(m) => lemma_simplify_result_is_fixed(m, target, MAX_PASSES as nat, r),
    }
}

} // verus!
