//! Rewrites before ranges are chosen: markers go, views of views become one,
//! and products are formed as wide as they are wanted.

use vstd::prelude::*;

use crate::bounds::{bounds, find_bounds};
use crate::builders::{cast_node, put, Built};
use crate::graph::{dag_wf, BinaryOp, DType, Graph, NodeView, Op};
use crate::late::made;
use crate::meaning::{lemma_arity, lemma_meaning, lemma_meaning_extends, lemma_put_meaning, meaning};
use crate::passes::lemma_put;
use crate::narrow::{constant_extent, find_constant_extent};
use crate::topo::{lemma_push_contains, reach_row_ok, reaches};

verus! {

/// The bits of an integer type, and whether it is signed.
pub open spec fn integer_width(dtype: DType) -> Option<(nat, bool)> {
    match dtype {
        DType::Int8 => Some((8, true)),
        DType::Int16 => Some((16, true)),
        DType::Int32 => Some((32, true)),
        DType::Int64 => Some((64, true)),
        DType::UInt8 => Some((8, false)),
        DType::UInt16 => Some((16, false)),
        DType::UInt32 => Some((32, false)),
        DType::UInt64 => Some((64, false)),
        _ => None,
    }
}

/// Whether a conversion makes an integer wider and keeps its sign.
pub open spec fn is_widening(from: DType, to: DType) -> bool {
    match (integer_width(from), integer_width(to)) {
        (Some((a, x)), Some((b, y))) => a < b && x == y,
        _ => false,
    }
}

/// Whether a node is a product of values, of which none is constant, made
/// wider.
pub open spec fn is_widened_product(dag: Seq<NodeView>, id: usize) -> bool {
    let node = dag[id as int];
    &&& node.op is Cast
    &&& dag[node.srcs[0] as int].op == Op::Binary(BinaryOp::Mul)
    &&& is_widening(dag[node.srcs[0] as int].dtype, node.dtype)
    &&& !(dag[dag[node.srcs[0] as int].srcs[0] as int].op is Const)
    &&& !(dag[dag[node.srcs[0] as int].srcs[1] as int].op is Const)
}

/// The product of the operands, each made wider.
pub open spec fn product_of_widened(dag: Seq<NodeView>, id: usize) -> Built {
    let node = dag[id as int];
    let product = dag[node.srcs[0] as int];
    let left = put(dag, cast_node(product.srcs[0], node.dtype));
    let right = put(left.dag, cast_node(product.srcs[1], node.dtype));
    put(
        right.dag,
        NodeView {
            op: Op::Binary(BinaryOp::Mul),
            dtype: node.dtype,
            srcs: seq![left.id, right.id],
        },
    )
}

/// What a node becomes before ranges are chosen, if anything: a marker its
/// source, a view of a view one view, and a widened product the product of what
/// is widened.
pub open spec fn early_rewritten(dag: Seq<NodeView>, id: usize) -> Option<Built> {
    let node = dag[id as int];
    match node.op {
        Op::Detach | Op::ContiguousBackward => Some(Built { dag, id: node.srcs[0] }),
        Op::Reshape => if dag[node.srcs[0] as int].op is Reshape {
            Some(
                put(
                    dag,
                    NodeView {
                        srcs: seq![dag[node.srcs[0] as int].srcs[0], node.srcs[1]],
                        ..node
                    },
                ),
            )
        } else {
            None
        },
        Op::Cast => if is_widened_product(dag, id) {
            Some(product_of_widened(dag, id))
        } else {
            None
        },
        _ => None,
    }
}

fn width_of(dtype: DType) -> (width: Option<(u8, bool)>)
    ensures
        match integer_width(dtype) {
            Some((bits, signed)) => width is Some && (width->0).0 == bits && (width->0).1 == signed,
            None => width is None,
        },
{
    match dtype {
        DType::Int8 => Some((8, true)),
        DType::Int16 => Some((16, true)),
        DType::Int32 => Some((32, true)),
        DType::Int64 => Some((64, true)),
        DType::UInt8 => Some((8, false)),
        DType::UInt16 => Some((16, false)),
        DType::UInt32 => Some((32, false)),
        DType::UInt64 => Some((64, false)),
        _ => None,
    }
}

fn widens(from: DType, to: DType) -> (r: bool)
    ensures
        r == is_widening(from, to),
{
    match (width_of(from), width_of(to)) {
        (Some((a, x)), Some((b, y))) => a < b && x == y,
        _ => false,
    }
}

/// Rewrites a node before ranges are chosen, if it can be.
pub fn early_rewrite(graph: &mut Graph, id: usize) -> (new: Option<usize>)
    requires
        old(graph).wf(),
        id < old(graph)@.len(),
    ensures
        made(old(graph)@, *final(graph), early_rewritten(old(graph)@, id), new),
{
    proof {
        lemma_arity(graph@, id);
    }
    let dtype = graph.dtype(id);
    match graph.op(id) {
        Op::Detach | Op::ContiguousBackward => Some(graph.source(id, 0)),
        Op::Reshape => {
            let inner: usize = graph.source(id, 0);
            let shape: usize = graph.source(id, 1);
            match graph.op(inner) {
                Op::Reshape => {
                    proof {
                        lemma_arity(graph@, inner);
                    }
                    let value: usize = graph.source(inner, 0);
                    Some(graph.binary(Op::Reshape, dtype, value, shape))
                },
                _ => None,
            }
        },
        Op::Cast => {
            let inner: usize = graph.source(id, 0);
            proof {
                lemma_arity(graph@, inner);
            }
            match graph.op(inner) {
                Op::Binary(BinaryOp::Mul) => {
                    let left: usize = graph.source(inner, 0);
                    let right: usize = graph.source(inner, 1);
                    if !widens(graph.dtype(inner), dtype) || matches!(graph.op(left), Op::Const(_))
                        || matches!(graph.op(right), Op::Const(_)) {
                        return None;
                    }
                    let a: usize = graph.cast(left, dtype);
                    let b: usize = graph.cast(right, dtype);
                    Some(graph.binary(Op::Binary(BinaryOp::Mul), dtype, a, b))
                },
                _ => None,
            }
        },
        _ => None,
    }
}

/// Forming a product as wide as it is wanted keeps what it means.
pub proof fn lemma_widened_product_means(dag: Seq<NodeView>, id: usize, at: spec_fn(Op) -> int)
    requires
        dag_wf(dag),
        id < dag.len(),
        is_widened_product(dag, id),
        meaning(dag, id, at) is Some,
        dag.len() + 3 <= usize::MAX,
    ensures
        meaning(product_of_widened(dag, id).dag, product_of_widened(dag, id).id, at) == meaning(
            dag,
            id,
            at,
        ),
{
    let node = dag[id as int];
    lemma_arity(dag, id);
    assert(dag[id as int].srcs[0] < id);
    let inner = node.srcs[0];
    lemma_arity(dag, inner);
    let product = dag[inner as int];
    assert(dag[inner as int].srcs[0] < inner);
    assert(dag[inner as int].srcs[1] < inner);
    lemma_meaning(dag, id, at);
    lemma_meaning(dag, inner, at);
    let left_node = cast_node(product.srcs[0], node.dtype);
    lemma_put_meaning(dag, left_node, at);
    let left = put(dag, left_node);
    let right_node = cast_node(product.srcs[1], node.dtype);
    lemma_put_meaning(left.dag, right_node, at);
    let right = put(left.dag, right_node);
    lemma_meaning_extends(dag, left.dag, product.srcs[1], at);
    lemma_meaning_extends(left.dag, right.dag, left.id, at);
    let last = NodeView {
        op: Op::Binary(BinaryOp::Mul),
        dtype: node.dtype,
        srcs: seq![left.id, right.id],
    };
    lemma_put_meaning(right.dag, last, at);
}

/// Whether a loop takes at most one step.
pub open spec fn takes_one_step(dag: Seq<NodeView>, id: usize) -> bool {
    dag[id as int].op is Range && (bounds(dag, dag[id as int].srcs[0]) matches Some((_, high))
        && high <= 1)
}

/// Whether a node is a loop that takes at most one step.
pub fn is_dead_axis(graph: &Graph, id: usize) -> (dead: bool)
    requires
        graph.wf(),
        id < graph@.len(),
    ensures
        dead == takes_one_step(graph@, id),
{
    proof {
        lemma_arity(graph@, id);
    }
    match graph.op(id) {
        Op::Range { .. } => match find_bounds(graph, graph.source(id, 0)) {
            Some((_low, high)) => high <= 1,
            None => false,
        },
        _ => false,
    }
}

/// Whether what a stage computes is run whatever reads it, so that its axes are
/// not the stage's to drop.
pub open spec fn always_runs(op: Op) -> bool {
    op is Copy || op is Contiguous || op is Noop || op is After
}

/// The loops of a stage among its first `n` sources that its value depends on.
pub open spec fn live_loops(dag: Seq<NodeView>, value: usize, loops: Seq<usize>, n: nat) -> Seq<usize>
    decreases n,
{
    if n == 0 {
        Seq::empty()
    } else {
        let rest = live_loops(dag, value, loops, (n - 1) as nat);
        if reaches(dag, value, loops[n - 1]) {
            rest.push(loops[n - 1])
        } else {
            rest
        }
    }
}

/// The loops that are left to a stage once those that its value does not depend
/// on are dropped. Nothing is dropped where the value always runs, where an
/// extent is not constant, or where the value depends on all loops.
pub open spec fn kept_loops(dag: Seq<NodeView>, id: usize) -> Option<Seq<usize>> {
    let node = dag[id as int];
    let loops = node.srcs.skip(1);
    if !(node.op is Stage) || always_runs(dag[node.srcs[0] as int].op) || exists|i: int|
        0 <= i < loops.len() && constant_extent(dag, #[trigger] loops[i]) is None {
        None
    } else {
        let kept = live_loops(dag, node.srcs[0], loops, loops.len());
        if kept.len() == loops.len() {
            None
        } else {
            Some(kept)
        }
    }
}

/// The loops that are left to a stage, if some can be dropped.
pub fn drop_dead_axes(graph: &Graph, id: usize) -> (kept: Option<Vec<usize>>)
    requires
        graph.wf(),
        id < graph@.len(),
    ensures
        match kept_loops(graph@, id) {
            Some(loops) => kept is Some && kept->0@ == loops,
            None => kept is None,
        },
{
    proof {
        lemma_arity(graph@, id);
    }
    match graph.op(id) {
        Op::Stage { .. } => {},
        _ => {
            return None;
        },
    }
    let value: usize = graph.source(id, 0);
    if matches!(graph.op(value), Op::Copy | Op::Contiguous | Op::Noop | Op::After) {
        return None;
    }
    let rows = graph.reach();
    assert(reach_row_ok(graph@, value, rows@[value as int]@));
    let ghost loops = graph@[id as int].srcs.skip(1);
    let count: usize = graph.source_count(id);
    let mut kept: Vec<usize> = Vec::new();
    let mut k: usize = 1;
    while k < count
        invariant
            graph.wf(),
            id < graph@.len(),
            value < graph@.len(),
            count == graph@[id as int].srcs.len(),
            1 <= k <= count,
            loops == graph@[id as int].srcs.skip(1),
            rows@.len() == graph@.len(),
            reach_row_ok(graph@, value, rows@[value as int]@),
            kept@ == live_loops(graph@, value, loops, (k - 1) as nat),
            kept@.len() <= k - 1,
            forall|i: int|
                0 <= i < k - 1 ==> constant_extent(graph@, #[trigger] loops[i]) is Some,
            graph@[id as int].op is Stage,
        decreases count - k,
    {
        let r: usize = graph.source(id, k);
        assert(loops[k - 1] == r);
        if find_constant_extent(graph, r).is_none() {
            assert(constant_extent(graph@, loops[k - 1]) is None);
            return None;
        }
        if rows[value][r] {
            kept.push(r);
        }
        k += 1;
    }
    if kept.len() == count - 1 {
        None
    } else {
        Some(kept)
    }
}

/// A loop that is dropped does not occur in what the stage computes.
pub proof fn lemma_dropped_loop_is_dead(dag: Seq<NodeView>, id: usize, k: int)
    requires
        kept_loops(dag, id) is Some,
        0 <= k < dag[id as int].srcs.skip(1).len(),
        !kept_loops(dag, id)->0.contains(dag[id as int].srcs.skip(1)[k]),
    ensures
        !reaches(dag, dag[id as int].srcs[0], dag[id as int].srcs.skip(1)[k]),
{
    let loops = dag[id as int].srcs.skip(1);
    if reaches(dag, dag[id as int].srcs[0], loops[k]) {
        lemma_live_loops(dag, dag[id as int].srcs[0], loops, loops.len(), k);
    }
}

proof fn lemma_live_loops(dag: Seq<NodeView>, value: usize, loops: Seq<usize>, n: nat, k: int)
    requires
        0 <= k < n <= loops.len(),
        reaches(dag, value, loops[k]),
    ensures
        live_loops(dag, value, loops, n).contains(loops[k]),
    decreases n,
{
    let all = live_loops(dag, value, loops, n);
    if k == n - 1 {
        assert(all.last() == loops[k]);
    } else {
        lemma_live_loops(dag, value, loops, (n - 1) as nat, k);
        let rest = live_loops(dag, value, loops, (n - 1) as nat);
        let i = choose|i: int| 0 <= i < rest.len() && rest[i] == loops[k];
        assert(all[i] == loops[k]);
    }
}

/// A view in a shape of a view in another shape is a view in the last shape of
/// what the first is a view of, and a marker is what it marks.
pub proof fn lemma_early_rewrite_keeps_what_is_shown(dag: Seq<NodeView>, id: usize)
    requires
        dag_wf(dag),
        id < dag.len(),
        early_rewritten(dag, id) matches Some(new) ==> new.dag.len() <= usize::MAX,
    ensures
        dag[id as int].op is Detach || dag[id as int].op is ContiguousBackward
            ==> early_rewritten(dag, id) == Some(Built { dag, id: dag[id as int].srcs[0] }),
        dag[id as int].op is Reshape ==> {
            let inner = dag[dag[id as int].srcs[0] as int];
            &&& early_rewritten(dag, id) is Some <==> inner.op is Reshape
            &&& early_rewritten(dag, id) matches Some(new) ==> {
                let own = new.dag[new.id as int];
                &&& own.op is Reshape
                &&& own.dtype == dag[id as int].dtype
                &&& own.srcs.len() == 2
                &&& own.srcs[0] == inner.srcs[0]
                &&& own.srcs[1] == dag[id as int].srcs[1]
            }
        },
{
    let node = dag[id as int];
    lemma_arity(dag, id);
    if node.op is Reshape && dag[node.srcs[0] as int].op is Reshape {
        let want = NodeView {
            srcs: seq![dag[node.srcs[0] as int].srcs[0], node.srcs[1]],
            ..node
        };
        lemma_put(dag, want);
    }
}

proof fn lemma_live(dag: Seq<NodeView>, value: usize, loops: Seq<usize>, n: nat, x: usize)
    requires
        n <= loops.len(),
    ensures
        live_loops(dag, value, loops, n).contains(x) <==> loops.take(n as int).contains(x)
            && reaches(dag, value, x),
    decreases n,
{
    if n > 0 {
        lemma_live(dag, value, loops, (n - 1) as nat, x);
        let rest = live_loops(dag, value, loops, (n - 1) as nat);
        assert(loops.take(n as int) =~= loops.take(n - 1).push(loops[n - 1]));
        lemma_push_contains(loops.take(n - 1), loops[n - 1], x);
        lemma_push_contains(rest, loops[n - 1], x);
    } else {
        assert(loops.take(0) =~= Seq::empty());
    }
}

/// The loops that a stage keeps are those of its loops that its value depends on.
pub proof fn lemma_kept_loops_are_live(dag: Seq<NodeView>, id: usize, x: usize)
    requires
        kept_loops(dag, id) is Some,
    ensures
        kept_loops(dag, id)->0.contains(x) <==> dag[id as int].srcs.skip(1).contains(x) && reaches(
            dag,
            dag[id as int].srcs[0],
            x,
        ),
{
    let loops = dag[id as int].srcs.skip(1);
    lemma_live(dag, dag[id as int].srcs[0], loops, loops.len(), x);
    assert(loops.take(loops.len() as int) =~= loops);
}

} // verus!
