//! Comparisons with one summand moved to the other side.

use vstd::prelude::*;

use crate::builders::{lemma_interned_keeps, put, Built};
use crate::collapse::is_loop_free;
use crate::graph::{dag_wf, BinaryOp, DType, Graph, NodeView, Op};
use crate::helpers::no_range_oracle;
use crate::late::{made, pair_node, put_pair};
use crate::meaning::{lemma_arity, lemma_meaning, lemma_meaning_extends, lemma_put_meaning, meaning};

verus! {

/// Whether a summand can be moved out of a comparison: an index is compared by
/// its order, anything by whether it differs.
pub open spec fn is_lifting(dag: Seq<NodeView>, id: usize) -> bool {
    let node = dag[id as int];
    &&& node.op == Op::Binary(BinaryOp::Ne) || (node.op == Op::Binary(BinaryOp::Lt)
        && dag[node.srcs[0] as int].dtype == DType::WeakInt)
    &&& dag[node.srcs[0] as int].op == Op::Binary(BinaryOp::Add)
    &&& is_loop_free(dag, node.srcs[1])
}

/// A comparison of what is left of a sum with a bound less the other summand.
pub open spec fn compared_rest(dag: Seq<NodeView>, id: usize, rest: usize, moved: usize) -> Built {
    let node = dag[id as int];
    let bound = put(
        dag,
        pair_node(BinaryOp::Sub, dag[node.srcs[1] as int].dtype, node.srcs[1], moved),
    );
    put(bound.dag, NodeView { op: node.op, dtype: node.dtype, srcs: seq![rest, bound.id] })
}

/// A sum compared with a bound that depends on no loop: a summand that depends
/// on no loop goes to the bound, the second one if it can. What depends on a
/// loop stays on the left.
pub open spec fn lifted(dag: Seq<NodeView>, id: usize) -> Option<Built> {
    let sum = dag[dag[id as int].srcs[0] as int];
    if !is_lifting(dag, id) {
        None
    } else if is_loop_free(dag, sum.srcs[1]) {
        Some(compared_rest(dag, id, sum.srcs[0], sum.srcs[1]))
    } else if is_loop_free(dag, sum.srcs[0]) {
        Some(compared_rest(dag, id, sum.srcs[1], sum.srcs[0]))
    } else {
        None
    }
}

/// Moves a summand of a comparison to its bound, if that can be.
pub fn lift_summand(graph: &mut Graph, id: usize) -> (new: Option<usize>)
    requires
        old(graph).wf(),
        id < old(graph)@.len(),
    ensures
        made(old(graph)@, *final(graph), lifted(old(graph)@, id), new),
{
    let ghost dag = graph@;
    proof {
        lemma_arity(dag, id);
    }
    let op = graph.op(id);
    let dtype = graph.dtype(id);
    match op {
        Op::Binary(BinaryOp::Ne) | Op::Binary(BinaryOp::Lt) => {},
        _ => {
            return None;
        },
    }
    let sum: usize = graph.source(id, 0);
    let bound: usize = graph.source(id, 1);
    proof {
        lemma_arity(dag, sum);
    }
    match op {
        Op::Binary(BinaryOp::Lt) => if graph.dtype(sum) != DType::WeakInt {
            return None;
        },
        _ => {},
    }
    match graph.op(sum) {
        Op::Binary(BinaryOp::Add) => {},
        _ => {
            return None;
        },
    }
    if !no_range_oracle(graph, bound) {
        return None;
    }
    let left: usize = graph.source(sum, 0);
    let right: usize = graph.source(sum, 1);
    let (rest, moved) = if no_range_oracle(graph, right) {
        (left, right)
    } else if no_range_oracle(graph, left) {
        (right, left)
    } else {
        return None;
    };
    let kind = graph.dtype(bound);
    let less: usize = put_pair(graph, BinaryOp::Sub, kind, bound, moved);
    Some(graph.binary(op, dtype, rest, less))
}

/// Moving a summand to the bound keeps what a comparison means.
pub proof fn lemma_lifted_means(dag: Seq<NodeView>, id: usize, at: spec_fn(Op) -> int)
    requires
        dag_wf(dag),
        id < dag.len(),
        lifted(dag, id) is Some,
        lifted(dag, id)->0.dag.len() <= usize::MAX,
    ensures
        meaning(lifted(dag, id)->0.dag, lifted(dag, id)->0.id, at) == meaning(dag, id, at),
{
    let node = dag[id as int];
    lemma_arity(dag, id);
    assert(dag[id as int].srcs[0] < id && dag[id as int].srcs[1] < id);
    let sum = dag[node.srcs[0] as int];
    lemma_arity(dag, node.srcs[0]);
    assert(dag[node.srcs[0] as int].srcs[0] < node.srcs[0]);
    assert(dag[node.srcs[0] as int].srcs[1] < node.srcs[0]);
    let (rest, moved) = if is_loop_free(dag, sum.srcs[1]) {
        (sum.srcs[0], sum.srcs[1])
    } else {
        (sum.srcs[1], sum.srcs[0])
    };
    let less = pair_node(BinaryOp::Sub, dag[node.srcs[1] as int].dtype, node.srcs[1], moved);
    let bound = put(dag, less);
    let last = NodeView { op: node.op, dtype: node.dtype, srcs: seq![rest, bound.id] };
    lemma_interned_keeps(dag, less);
    lemma_interned_keeps(bound.dag, last);
    lemma_meaning(dag, id, at);
    lemma_meaning(dag, node.srcs[0], at);
    lemma_put_meaning(dag, less, at);
    lemma_meaning_extends(dag, bound.dag, rest, at);
    lemma_put_meaning(bound.dag, last, at);
}

} // verus!
