//! Loops that run at most once, and choices that are already made.

use vstd::prelude::*;

use crate::bounds::{admits, bounds, find_bounds, lemma_bounds_hold};
use crate::builders::{const_node, lemma_interned_keeps, put, Built};
use crate::fold::{binary_number, word, word_count};
use crate::graph::{dag_wf, BinaryOp, ConstValue, DType, Graph, NodeView, Op, TernaryOp, UnaryOp};
use crate::late::{pair_node, put_int, put_pair};
use crate::meaning::{
    lemma_arity, lemma_meaning, lemma_meaning_extends, lemma_put_meaning, meaning, stands_for,
};
use crate::passes::{grown, invalid, is_invalid};

verus! {

/// The types without negative numbers.
pub open spec fn is_unsigned(dtype: DType) -> bool {
    dtype == DType::UInt8 || dtype == DType::UInt16 || dtype == DType::UInt32 || dtype
        == DType::UInt64
}

/// Whether a loop never runs: the greatest value of its counter is negative,
/// which the bound of an unsigned counter can never be.
pub open spec fn never_runs(dag: Seq<NodeView>, id: usize) -> bool {
    &&& dag[id as int].op is Range
    &&& !is_unsigned(dag[id as int].dtype)
    &&& bounds(dag, id) matches Some(pair) && pair.1 < 0
}

/// Whether a node is a loop that never runs, or the weak zero that such a loop
/// becomes.
pub open spec fn empty_range(dag: Seq<NodeView>, id: usize) -> bool {
    ||| never_runs(dag, id)
    ||| dag[id as int] == const_node(ConstValue::Int(0), DType::WeakInt)
}

/// A loop that never runs becomes a weak zero, and a loop that runs once the
/// only value of its counter, of the counter's own type.
pub open spec fn dead_loop(dag: Seq<NodeView>, id: usize) -> Built {
    let node = dag[id as int];
    if never_runs(dag, id) {
        put(dag, const_node(ConstValue::Int(0), DType::WeakInt))
    } else if node.op is Range && bounds(dag, id) == Some((0int, 0int)) {
        put(dag, const_node(ConstValue::Int(0), node.dtype))
    } else {
        Built { dag, id }
    }
}

/// Whether a condition is known to hold.
pub open spec fn always(dag: Seq<NodeView>, id: usize) -> bool {
    bounds(dag, id) matches Some(pair) && pair.0 > 0
}

/// Whether a condition is known not to hold.
pub open spec fn never(dag: Seq<NodeView>, id: usize) -> bool {
    bounds(dag, id) == Some((0int, 0int))
}

/// A choice as a node.
pub open spec fn where_node(dtype: DType, c: usize, a: usize, b: usize) -> NodeView {
    NodeView { op: Op::Ternary(TernaryOp::Where), dtype, srcs: seq![c, a, b] }
}

/// Whether a node is a choice.
pub open spec fn chooses(dag: Seq<NodeView>, id: usize) -> bool {
    dag[id as int].op == Op::Ternary(TernaryOp::Where)
}

/// A choice by a condition that is known becomes the branch it selects. One by
/// an invalid condition, or between two invalid branches, is invalid. An
/// invalid branch goes behind the other one. A choice inside the first branch
/// with the same second branch is one choice by both conditions; and a choice
/// inside the second branch with an invalid second branch of its own is one by
/// either condition.
pub open spec fn dead_branch(dag: Seq<NodeView>, id: usize) -> Built {
    let node = dag[id as int];
    let c = node.srcs[0];
    let a = node.srcs[1];
    let b = node.srcs[2];
    if !chooses(dag, id) {
        Built { dag, id }
    } else if is_invalid(dag, c) {
        Built { dag, id: c }
    } else if always(dag, c) {
        Built { dag, id: a }
    } else if never(dag, c) {
        Built { dag, id: b }
    } else if is_invalid(dag, a) && is_invalid(dag, b) {
        Built { dag, id: a }
    } else if is_invalid(dag, a) {
        let flipped = put(
            dag,
            NodeView { op: Op::Unary(UnaryOp::Not), dtype: DType::Bool, srcs: seq![c] },
        );
        put(flipped.dag, where_node(node.dtype, flipped.id, b, a))
    } else if chooses(dag, a) && dag[a as int].srcs[2] == b {
        let both = put(dag, pair_node(BinaryOp::And, DType::Bool, c, dag[a as int].srcs[0]));
        put(both.dag, where_node(node.dtype, both.id, dag[a as int].srcs[1], b))
    } else if chooses(dag, b) && is_invalid(dag, dag[b as int].srcs[2]) {
        let either = put(dag, pair_node(BinaryOp::Or, DType::Bool, c, dag[b as int].srcs[0]));
        let inner = put(either.dag, where_node(node.dtype, c, a, dag[b as int].srcs[1]));
        put(inner.dag, where_node(node.dtype, either.id, inner.id, dag[b as int].srcs[2]))
    } else {
        Built { dag, id }
    }
}

fn unsigned(dtype: DType) -> (r: bool)
    ensures
        r == is_unsigned(dtype),
{
    dtype == DType::UInt8 || dtype == DType::UInt16 || dtype == DType::UInt32 || dtype
        == DType::UInt64
}

/// Whether a node is a loop that never runs, or the weak zero that such a loop
/// becomes.
pub fn is_empty_range(graph: &Graph, id: usize) -> (r: bool)
    requires
        graph.wf(),
        id < graph@.len(),
    ensures
        r == empty_range(graph@, id),
{
    proof {
        lemma_arity(graph@, id);
    }
    match graph.op(id) {
        Op::Range { .. } => {
            if unsigned(graph.dtype(id)) {
                return false;
            }
            match find_bounds(graph, id) {
                Some(pair) => pair.1 < 0,
                None => false,
            }
        },
        Op::Const(ConstValue::Int(n)) => {
            let r: bool = n == 0 && graph.dtype(id) == DType::WeakInt && graph.source_count(id)
                == 0;
            proof {
                if r {
                    assert(graph@[id as int].srcs =~= Seq::<usize>::empty());
                }
            }
            r
        },
        _ => false,
    }
}

/// Folds a loop that runs at most once; see `dead_loop`.
pub fn apply_loop_rule(graph: &mut Graph, id: usize) -> (new: usize)
    requires
        old(graph).wf(),
        id < old(graph)@.len(),
    ensures
        grown(old(graph)@, *final(graph), dead_loop(old(graph)@, id), new),
{
    match graph.op(id) {
        Op::Range { .. } => {},
        _ => {
            return id;
        },
    }
    let dtype = graph.dtype(id);
    match find_bounds(graph, id) {
        Some(pair) => {
            if pair.1 < 0 && !unsigned(dtype) {
                put_int(graph, 0, DType::WeakInt)
            } else if pair.0 == 0 && pair.1 == 0 {
                put_int(graph, 0, dtype)
            } else {
                id
            }
        },
        None => id,
    }
}

pub(crate) fn put_where(graph: &mut Graph, dtype: DType, c: usize, a: usize, b: usize) -> (id: usize)
    requires
        old(graph).wf(),
        c < old(graph)@.len(),
        a < old(graph)@.len(),
        b < old(graph)@.len(),
    ensures
        grown(old(graph)@, *final(graph), put(old(graph)@, where_node(dtype, c, a, b)), id),
{
    let ghost dag = graph@;
    let id: usize = graph.ternary(Op::Ternary(TernaryOp::Where), dtype, c, a, b);
    proof {
        lemma_interned_keeps(dag, where_node(dtype, c, a, b));
    }
    id
}

fn is_choice(graph: &Graph, id: usize) -> (r: bool)
    requires
        id < graph@.len(),
    ensures
        r == chooses(graph@, id),
{
    match graph.op(id) {
        Op::Ternary(TernaryOp::Where) => true,
        _ => false,
    }
}

/// Folds a choice; see `dead_branch`.
pub fn apply_branch_rule(graph: &mut Graph, id: usize) -> (new: usize)
    requires
        old(graph).wf(),
        id < old(graph)@.len(),
    ensures
        grown(old(graph)@, *final(graph), dead_branch(old(graph)@, id), new),
{
    let ghost dag = graph@;
    proof {
        lemma_arity(dag, id);
    }
    if !is_choice(graph, id) {
        return id;
    }
    let dtype = graph.dtype(id);
    let c: usize = graph.source(id, 0);
    let a: usize = graph.source(id, 1);
    let b: usize = graph.source(id, 2);
    if invalid(graph, c) {
        return c;
    }
    match find_bounds(graph, c) {
        Some(pair) => {
            if pair.0 > 0 {
                return a;
            }
            if pair.0 == 0 && pair.1 == 0 {
                return b;
            }
        },
        None => {},
    }
    if invalid(graph, a) {
        if invalid(graph, b) {
            return a;
        }
        let flipped: usize = graph.unary(Op::Unary(UnaryOp::Not), DType::Bool, c);
        proof {
            lemma_interned_keeps(
                dag,
                NodeView { op: Op::Unary(UnaryOp::Not), dtype: DType::Bool, srcs: seq![c] },
            );
        }
        return put_where(graph, dtype, flipped, b, a);
    }
    if is_choice(graph, a) {
        proof {
            lemma_arity(dag, a);
        }
        let inner: usize = graph.source(a, 0);
        let value: usize = graph.source(a, 1);
        let other: usize = graph.source(a, 2);
        if other == b {
            let both: usize = put_pair(graph, BinaryOp::And, DType::Bool, c, inner);
            return put_where(graph, dtype, both, value, b);
        }
    }
    if is_choice(graph, b) {
        proof {
            lemma_arity(dag, b);
        }
        let inner: usize = graph.source(b, 0);
        let value: usize = graph.source(b, 1);
        let other: usize = graph.source(b, 2);
        if invalid(graph, other) {
            let either: usize = put_pair(graph, BinaryOp::Or, DType::Bool, c, inner);
            let chosen: usize = put_where(graph, dtype, c, a, value);
            return put_where(graph, dtype, either, chosen, other);
        }
    }
    id
}

/// Folding a loop keeps the meaning of its counter, at every step of the loop.
pub proof fn lemma_dead_loop_keeps_meaning(dag: Seq<NodeView>, id: usize, at: spec_fn(Op) -> int)
    requires
        dag_wf(dag),
        id < dag.len(),
        admits(dag, id, at),
        dead_loop(dag, id).dag.len() <= usize::MAX,
    ensures
        stands_for(dag, id, dead_loop(dag, id).dag, dead_loop(dag, id).id, at),
{
    let node = dag[id as int];
    lemma_arity(dag, id);
    lemma_meaning(dag, id, at);
    if node.op is Range && bounds(dag, id) is Some {
        lemma_bounds_hold(dag, id, at);
        if bounds(dag, id) == Some((0int, 0int)) {
            lemma_put_meaning(dag, const_node(ConstValue::Int(0), node.dtype), at);
        }
    }
}

/// Whether a node, where it means something, means true or false.
pub open spec fn is_truth(dag: Seq<NodeView>, id: usize, at: spec_fn(Op) -> int) -> bool {
    meaning(dag, id, at) matches Some(n) ==> n == 0 || n == 1
}

proof fn lemma_truths(a: int, b: int)
    requires
        a == 0 || a == 1,
        b == 0 || b == 1,
    ensures
        binary_number(BinaryOp::And, a, b) == Some(
            if a == 1 && b == 1 {
                1int
            } else {
                0int
            },
        ),
        binary_number(BinaryOp::Or, a, b) == Some(
            if a == 1 || b == 1 {
                1int
            } else {
                0int
            },
        ),
{
    vstd::arithmetic::div_mod::lemma_small_mod(0, word_count() as nat);
    vstd::arithmetic::div_mod::lemma_small_mod(1, word_count() as nat);
    assert(word(0) == 0u64 && word(1) == 1u64);
    assert(0u64 & 0u64 == 0 && 0u64 & 1u64 == 0 && 1u64 & 0u64 == 0 && 1u64 & 1u64 == 1 && 0u64
        | 0u64 == 0 && 0u64 | 1u64 == 1 && 1u64 | 0u64 == 1 && 1u64 | 1u64 == 1) by (bit_vector);
}

/// Folding a choice keeps its meaning, at every assignment where its condition
/// means nothing or a truth value, and that of a choice in one of its branches
/// a truth value.
#[verifier::rlimit(60)]
#[verifier::spinoff_prover]
pub proof fn lemma_dead_branch_keeps_meaning(dag: Seq<NodeView>, id: usize, at: spec_fn(Op) -> int)
    requires
        dag_wf(dag),
        id < dag.len(),
        admits(dag, id, at),
        chooses(dag, id),
        is_truth(dag, dag[id as int].srcs[0], at),
        forall|k: int|
            1 <= k <= 2 && chooses(dag, #[trigger] dag[id as int].srcs[k]) ==> is_truth(
                dag,
                dag[dag[id as int].srcs[k] as int].srcs[0],
                at,
            ) && meaning(dag, dag[dag[id as int].srcs[k] as int].srcs[0], at) is Some,
        dead_branch(dag, id).dag.len() <= usize::MAX,
    ensures
        stands_for(dag, id, dead_branch(dag, id).dag, dead_branch(dag, id).id, at),
{
    let node = dag[id as int];
    lemma_arity(dag, id);
    lemma_meaning(dag, id, at);
    let c = node.srcs[0];
    let a = node.srcs[1];
    let b = node.srcs[2];
    assert(dag[id as int].srcs[0] < id && dag[id as int].srcs[1] < id && dag[id as int].srcs[2]
        < id);
    assert(admits(dag, c, at));
    lemma_arity(dag, a);
    lemma_arity(dag, b);
    lemma_meaning(dag, c, at);
    lemma_meaning(dag, a, at);
    lemma_meaning(dag, b, at);
    if is_invalid(dag, c) {
    } else if bounds(dag, c) is Some && meaning(dag, c, at) is Some && (always(dag, c) || never(
        dag,
        c,
    )) {
        lemma_bounds_hold(dag, c, at);
    } else if always(dag, c) || never(dag, c) {
    } else if is_invalid(dag, a) && is_invalid(dag, b) {
    } else if is_invalid(dag, a) {
        let not = NodeView { op: Op::Unary(UnaryOp::Not), dtype: DType::Bool, srcs: seq![c] };
        let flipped = put(dag, not);
        let last = where_node(node.dtype, flipped.id, b, a);
        lemma_interned_keeps(flipped.dag, last);
        lemma_put_meaning(dag, not, at);
        lemma_put_meaning(flipped.dag, last, at);
        lemma_meaning_extends(dag, flipped.dag, a, at);
        lemma_meaning_extends(dag, flipped.dag, b, at);
    } else if chooses(dag, a) && dag[a as int].srcs[2] == b {
        assert(chooses(dag, dag[id as int].srcs[1]));
        let inner = dag[a as int].srcs[0];
        let value = dag[a as int].srcs[1];
        assert(dag[a as int].srcs[0] < a && dag[a as int].srcs[1] < a);
        let pair = pair_node(BinaryOp::And, DType::Bool, c, inner);
        let both = put(dag, pair);
        let last = where_node(node.dtype, both.id, value, b);
        lemma_interned_keeps(both.dag, last);
        lemma_put_meaning(dag, pair, at);
        lemma_put_meaning(both.dag, last, at);
        lemma_meaning_extends(dag, both.dag, value, at);
        lemma_meaning_extends(dag, both.dag, b, at);
        match (meaning(dag, c, at), meaning(dag, inner, at)) {
            (Some(p), Some(q)) => {
                lemma_truths(p, q);
            },
            _ => {},
        }
    } else if chooses(dag, b) && is_invalid(dag, dag[b as int].srcs[2]) {
        assert(chooses(dag, dag[id as int].srcs[2]));
        let inner = dag[b as int].srcs[0];
        let value = dag[b as int].srcs[1];
        let other = dag[b as int].srcs[2];
        assert(dag[b as int].srcs[0] < b && dag[b as int].srcs[1] < b && dag[b as int].srcs[2]
            < b);
        let pair = pair_node(BinaryOp::Or, DType::Bool, c, inner);
        let either = put(dag, pair);
        let middle = where_node(node.dtype, c, a, value);
        let chosen = put(either.dag, middle);
        let last = where_node(node.dtype, either.id, chosen.id, other);
        lemma_interned_keeps(either.dag, middle);
        lemma_interned_keeps(chosen.dag, last);
        lemma_put_meaning(dag, pair, at);
        lemma_put_meaning(either.dag, middle, at);
        lemma_put_meaning(chosen.dag, last, at);
        lemma_meaning_extends(dag, either.dag, c, at);
        lemma_meaning_extends(dag, either.dag, a, at);
        lemma_meaning_extends(dag, either.dag, value, at);
        lemma_meaning_extends(either.dag, chosen.dag, either.id, at);
        lemma_meaning_extends(dag, chosen.dag, other, at);
        lemma_meaning(dag, other, at);
        match (meaning(dag, c, at), meaning(dag, inner, at)) {
            (Some(p), Some(q)) => {
                lemma_truths(p, q);
            },
            _ => {},
        }
    }
}

} // verus!
