//! What an integer expression means: its value over the integers once every
//! variable and every loop counter has one.

use vstd::prelude::*;

use crate::builders::{lemma_interned_keeps, put};
use crate::fold::{binary_number, number_of};
use crate::graph::{arity_ok, dag_wf, lemma_interned_wf, DType, NodeView, Op, TernaryOp, UnaryOp};
use crate::passes::{extends, lemma_put};

verus! {

/// Whether an operation stands for a value that an assignment gives.
pub open spec fn is_leaf(op: Op) -> bool {
    op is Variable || op is Range || op is Param
}

/// The types of whole numbers.
pub open spec fn is_whole(dtype: DType) -> bool {
    match dtype {
        DType::Int8
        | DType::Int16
        | DType::Int32
        | DType::Int64
        | DType::UInt8
        | DType::UInt16
        | DType::UInt32
        | DType::UInt64
        | DType::Index
        | DType::WeakInt => true,
        _ => false,
    }
}

/// What a conversion to a type makes of a number.
pub open spec fn converted(n: int, dtype: DType) -> Option<int> {
    if dtype == DType::Bool {
        Some(
            if n == 0 {
                0
            } else {
                1
            },
        )
    } else if is_whole(dtype) {
        Some(n)
    } else {
        None
    }
}

/// What an operation on one number makes of it.
pub open spec fn unary_number(op: UnaryOp, n: int) -> Option<int> {
    match op {
        UnaryOp::Neg => Some(-n),
        UnaryOp::Not => Some(
            if n == 0 {
                1
            } else {
                0
            },
        ),
        _ => None,
    }
}

/// What a node means, given the meanings of its sources.
pub open spec fn combined(
    node: NodeView,
    at: spec_fn(Op) -> int,
    of: spec_fn(usize) -> Option<int>,
) -> Option<int> {
    match node.op {
        Op::Const(value) => number_of(value),
        Op::Variable { .. } | Op::Range { .. } | Op::Param { .. } => Some(at(node.op)),
        Op::Cast => match of(node.srcs[0]) {
            Some(n) => converted(n, node.dtype),
            None => None,
        },
        Op::Unary(op) => match of(node.srcs[0]) {
            Some(n) => unary_number(op, n),
            None => None,
        },
        Op::Binary(op) => match (of(node.srcs[0]), of(node.srcs[1])) {
            (Some(a), Some(b)) => binary_number(op, a, b),
            _ => None,
        },
        Op::Ternary(TernaryOp::Where) => match of(node.srcs[0]) {
            Some(c) => if c != 0 {
                of(node.srcs[1])
            } else {
                of(node.srcs[2])
            },
            None => None,
        },
        _ => None,
    }
}

/// What a node means at an assignment of the variables, the loop counters and
/// the parameters. Memory, floats and invalid values mean nothing here.
pub open spec fn meaning(dag: Seq<NodeView>, id: usize, at: spec_fn(Op) -> int) -> Option<int>
    decreases id,
{
    combined(
        dag[id as int],
        at,
        |src: usize|
            if src < id {
                meaning(dag, src, at)
            } else {
                None
            },
    )
}

/// The meaning of a node, from the meanings of its sources.
pub proof fn lemma_meaning(dag: Seq<NodeView>, id: usize, at: spec_fn(Op) -> int)
    requires
        dag_wf(dag),
        id < dag.len(),
    ensures
        meaning(dag, id, at) == combined(dag[id as int], at, |src: usize| meaning(dag, src, at)),
{
    let node = dag[id as int];
    lemma_arity(dag, id);
    if node.srcs.len() > 0 {
        assert(dag[id as int].srcs[0] < id);
    }
    if node.srcs.len() > 1 {
        assert(dag[id as int].srcs[1] < id);
    }
    if node.srcs.len() > 2 {
        assert(dag[id as int].srcs[2] < id);
    }
}

/// A node has the operands that its operation takes.
pub proof fn lemma_arity(dag: Seq<NodeView>, id: usize)
    requires
        dag_wf(dag),
        id < dag.len(),
    ensures
        arity_ok(dag[id as int].op, dag[id as int].srcs.len()),
{
}

/// A graph that grows keeps the meanings of its nodes.
pub proof fn lemma_meaning_extends(
    dag: Seq<NodeView>,
    more: Seq<NodeView>,
    id: usize,
    at: spec_fn(Op) -> int,
)
    requires
        dag_wf(dag),
        dag_wf(more),
        extends(dag, more),
        id < dag.len(),
    ensures
        meaning(more, id, at) == meaning(dag, id, at),
    decreases id,
{
    let node = dag[id as int];
    assert(more[id as int] == node);
    lemma_arity(dag, id);
    lemma_meaning(dag, id, at);
    lemma_meaning(more, id, at);
    if node.srcs.len() > 0 {
        assert(dag[id as int].srcs[0] < id);
        lemma_meaning_extends(dag, more, node.srcs[0], at);
    }
    if node.srcs.len() > 1 {
        assert(dag[id as int].srcs[1] < id);
        lemma_meaning_extends(dag, more, node.srcs[1], at);
    }
    if node.srcs.len() > 2 {
        assert(dag[id as int].srcs[2] < id);
        lemma_meaning_extends(dag, more, node.srcs[2], at);
    }
}

/// A node that is put in a graph has a meaning there that comes from the
/// meanings of its sources.
pub proof fn lemma_put_meaning(dag: Seq<NodeView>, node: NodeView, at: spec_fn(Op) -> int)
    requires
        dag_wf(dag),
        arity_ok(node.op, node.srcs.len()),
        forall|k: int| 0 <= k < node.srcs.len() ==> (#[trigger] node.srcs[k]) < dag.len(),
        put(dag, node).dag.len() <= usize::MAX,
    ensures
        dag_wf(put(dag, node).dag),
        extends(dag, put(dag, node).dag),
        put(dag, node).id < put(dag, node).dag.len(),
        put(dag, node).dag[put(dag, node).id as int] == node,
        meaning(put(dag, node).dag, put(dag, node).id, at) == combined(
            node,
            at,
            |src: usize| meaning(dag, src, at),
        ),
{
    let new = put(dag, node);
    lemma_interned_wf(dag, node);
    lemma_interned_keeps(dag, node);
    lemma_put(dag, node);
    lemma_meaning(new.dag, new.id, at);
    if node.srcs.len() > 0 {
        assert(node.srcs[0] < dag.len());
        lemma_meaning_extends(dag, new.dag, node.srcs[0], at);
    }
    if node.srcs.len() > 1 {
        assert(node.srcs[1] < dag.len());
        lemma_meaning_extends(dag, new.dag, node.srcs[1], at);
    }
    if node.srcs.len() > 2 {
        assert(node.srcs[2] < dag.len());
        lemma_meaning_extends(dag, new.dag, node.srcs[2], at);
    }
}

/// Whether one node may stand for another: where that means something, it
/// means the same.
pub open spec fn stands_for(
    dag: Seq<NodeView>,
    id: usize,
    more: Seq<NodeView>,
    new: usize,
    at: spec_fn(Op) -> int,
) -> bool {
    meaning(dag, id, at) is Some ==> meaning(more, new, at) == meaning(dag, id, at)
}

/// A node over sources that stand for those of another stands for it.
pub proof fn lemma_congruent(
    dag: Seq<NodeView>,
    id: usize,
    more: Seq<NodeView>,
    new: usize,
    at: spec_fn(Op) -> int,
)
    requires
        dag_wf(dag),
        dag_wf(more),
        id < dag.len(),
        new < more.len(),
        more[new as int].op == dag[id as int].op,
        more[new as int].dtype == dag[id as int].dtype,
        more[new as int].srcs.len() == dag[id as int].srcs.len(),
        forall|k: int|
            0 <= k < dag[id as int].srcs.len() ==> stands_for(
                dag,
                #[trigger] dag[id as int].srcs[k],
                more,
                more[new as int].srcs[k],
                at,
            ),
    ensures
        stands_for(dag, id, more, new, at),
{
    let node = dag[id as int];
    lemma_arity(dag, id);
    lemma_meaning(dag, id, at);
    lemma_meaning(more, new, at);
    if node.srcs.len() > 0 {
        assert(stands_for(dag, dag[id as int].srcs[0], more, more[new as int].srcs[0], at));
    }
    if node.srcs.len() > 1 {
        assert(stands_for(dag, dag[id as int].srcs[1], more, more[new as int].srcs[1], at));
    }
    if node.srcs.len() > 2 {
        assert(stands_for(dag, dag[id as int].srcs[2], more, more[new as int].srcs[2], at));
    }
}

} // verus!
