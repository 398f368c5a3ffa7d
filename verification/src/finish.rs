//! What is left to do before a kernel is rendered.

use vstd::prelude::*;

use crate::builders::{const_node, put, Built};
use crate::graph::{dag_wf, ConstValue, DType, Graph, NodeView, Op};
use crate::indexing::{gated, is_gated};
use crate::late::made;
use crate::meaning::{lemma_arity, lemma_meaning, meaning};
use crate::passes::{extends, rewrite, rewritten, zero, zero_of, Pass};

verus! {

/// Whether a type is that of an index.
pub open spec fn is_index_type(dtype: DType) -> bool {
    dtype == DType::WeakInt || dtype == DType::Index
}

/// A value that is nowhere invalid: of a choice between a value and the invalid
/// marker the value, and for the marker itself a zero. The indices of addresses
/// keep theirs.
pub open spec fn validated(dag: Seq<NodeView>, id: usize) -> Option<Built> {
    let node = dag[id as int];
    if is_index_type(node.dtype) {
        None
    } else if is_gated(dag, id) {
        Some(Built { dag, id: node.srcs[1] })
    } else if node.op == Op::Const(ConstValue::Invalid) {
        Some(put(dag, const_node(zero_of(node.dtype), node.dtype)))
    } else {
        None
    }
}

/// Makes a value nowhere invalid; see `validated`.
pub fn validate(graph: &mut Graph, id: usize) -> (new: Option<usize>)
    requires
        old(graph).wf(),
        id < old(graph)@.len(),
    ensures
        made(old(graph)@, *final(graph), validated(old(graph)@, id), new),
{
    proof {
        lemma_arity(graph@, id);
    }
    let dtype = graph.dtype(id);
    if dtype == DType::WeakInt || dtype == DType::Index {
        return None;
    }
    if gated(graph, id) {
        return Some(graph.source(id, 1));
    }
    match graph.op(id) {
        Op::Const(ConstValue::Invalid) => {
            let value = zero(dtype);
            Some(graph.constant(value, dtype))
        },
        _ => None,
    }
}

/// Makes all values nowhere invalid.
pub fn apply_final_rewrite(graph: &mut Graph, root: usize) -> (new: usize)
    requires
        old(graph).wf(),
        root < old(graph)@.len(),
    ensures
        final(graph).wf(),
        extends(old(graph)@, final(graph)@),
        new < final(graph)@.len(),
        final(graph)@ == rewritten(Pass::Final, old(graph)@, root).dag,
        new == rewritten(Pass::Final, old(graph)@, root).id,
{
    rewrite(graph, Pass::Final, root)
}

/// Where a value is valid, it stays what it means.
pub proof fn lemma_validated_means(dag: Seq<NodeView>, id: usize, at: spec_fn(Op) -> int)
    requires
        dag_wf(dag),
        id < dag.len(),
        validated(dag, id) is Some,
        meaning(dag, id, at) is Some,
    ensures
        ({
            let new = validated(dag, id)->0;
            meaning(new.dag, new.id, at) == meaning(dag, id, at)
        }),
{
    lemma_arity(dag, id);
    lemma_meaning(dag, id, at);
    if is_gated(dag, id) {
        assert(dag[id as int].srcs[2] < id);
        lemma_meaning(dag, dag[id as int].srcs[2], at);
    }
}

} // verus!
