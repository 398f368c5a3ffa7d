//! Weak types committed: a weak integer takes the narrowest type that holds
//! what it can be, and a weak float is rounded to single precision before
//! anything is computed from it.

use vstd::prelude::*;

use crate::bounds::{admits, bounds, find_bounds, lemma_bounds_hold, whole};
use crate::builders::{cast_node, const_node, lemma_interned_keeps, put, Built};
use crate::collapse::{find_extremes, spans};
use crate::graph::{dag_wf, BinaryOp, ConstValue, DType, Graph, NodeView, Op, TernaryOp};
use crate::indexing::{get_idx, idx_of, is_gated};
use crate::late::made;
use crate::meaning::{
    is_whole, lemma_arity, lemma_meaning, lemma_meaning_extends, lemma_put_meaning, meaning,
};
use crate::pad::Listed;
use crate::passes::{extends, grown, lemma_put, sources, with_srcs};
use crate::rounding::{in_single, round_to_single};

verus! {

/// Whether a type is open until it is committed.
pub open spec fn is_weak(dtype: DType) -> bool {
    dtype == DType::WeakInt || dtype == DType::WeakFloat
}

/// The narrowest type of a weak integer that holds what it can be where it is
/// valid.
pub open spec fn narrow_type(dag: Seq<NodeView>, id: usize) -> DType {
    match bounds(dag, idx_of(dag, id)) {
        Some(ends) if spans(DType::Int32, ends.0, ends.1) => DType::Int32,
        _ => DType::Int64,
    }
}

/// A value as one of a type. A constant becomes a constant of the type, where
/// the type has it.
pub open spec fn as_type(dag: Seq<NodeView>, src: usize, dtype: DType) -> Built {
    if dag[src as int].dtype == dtype {
        Built { dag, id: src }
    } else {
        match dag[src as int].op {
            Op::Const(ConstValue::Invalid) => put(dag, const_node(ConstValue::Invalid, dtype)),
            Op::Const(ConstValue::Int(n)) if (dtype == DType::Int32 || dtype == DType::Int64)
                && spans(dtype, n as int, n as int) => put(
                dag,
                const_node(ConstValue::Int(n), dtype),
            ),
            _ => put(dag, cast_node(src, dtype)),
        }
    }
}

/// Whether a value is a constant that a type has.
pub open spec fn follows(dag: Seq<NodeView>, id: usize, dtype: DType) -> bool {
    match dag[id as int].op {
        Op::Const(ConstValue::Int(n)) => spans(dtype, n as int, n as int) || !is_whole(dtype),
        Op::Const(_) => true,
        _ => false,
    }
}

/// The type that two values are computed with: a constant takes that of the
/// other value, and of two integer types the wide one is taken.
pub open spec fn common_type(dag: Seq<NodeView>, a: usize, b: usize) -> DType {
    let left = dag[a as int].dtype;
    let right = dag[b as int].dtype;
    if left == right {
        left
    } else if follows(dag, a, right) {
        right
    } else if follows(dag, b, left) {
        left
    } else if is_whole(left) && is_whole(right) {
        DType::Int64
    } else {
        left
    }
}

/// A type that is as wide as another one.
pub open spec fn wider(dtype: DType, other: DType) -> DType {
    if dtype == DType::Int64 {
        dtype
    } else {
        other
    }
}

/// The type that a weak node is committed to, where its operands have a type.
pub open spec fn committed_type(dag: Seq<NodeView>, id: usize, operands: DType) -> DType {
    let dtype = dag[id as int].dtype;
    if dtype == DType::WeakFloat {
        DType::Float32
    } else if dtype == DType::WeakInt {
        wider(narrow_type(dag, id), operands)
    } else {
        dtype
    }
}

/// A comparison of two values.
pub open spec fn compares(op: BinaryOp) -> bool {
    op == BinaryOp::Lt || op == BinaryOp::Eq || op == BinaryOp::Ne
}

/// The first `n` sources as values of a type.
pub open spec fn all_as(dag: Seq<NodeView>, srcs: Seq<usize>, dtype: DType, n: nat) -> Listed
    decreases n,
{
    if n == 0 {
        Listed { dag, srcs: Seq::empty() }
    } else {
        let rest = all_as(dag, srcs, dtype, (n - 1) as nat);
        let last = as_type(rest.dag, srcs[n - 1], dtype);
        Listed { dag: last.dag, srcs: rest.srcs.push(last.id) }
    }
}

/// A node of a type, with its sources from `first` on as values of a type.
pub open spec fn over(
    dag: Seq<NodeView>,
    node: NodeView,
    dtype: DType,
    first: int,
    operands: DType,
) -> Built {
    let list = all_as(dag, node.srcs.skip(first), operands, (node.srcs.len() - first) as nat);
    put(
        list.dag,
        NodeView { op: node.op, dtype, srcs: node.srcs.take(first) + list.srcs },
    )
}

/// Whether some of the first `n` nodes are wide integers.
pub open spec fn some_wide(dag: Seq<NodeView>, srcs: Seq<usize>, n: nat) -> bool {
    exists|k: int| 0 <= k < n && dag[#[trigger] srcs[k] as int].dtype == DType::Int64
}

/// An index without a conversion between integer types.
pub open spec fn unconverted(dag: Seq<NodeView>, x: usize) -> usize {
    let node = dag[x as int];
    if node.op is Cast && is_whole(node.dtype) && is_whole(dag[node.srcs[0] as int].dtype) {
        node.srcs[0]
    } else {
        x
    }
}

/// What is made of one node once its sources are committed.
pub open spec fn committed(dag: Seq<NodeView>, id: usize) -> Option<Built> {
    let node = dag[id as int];
    match node.op {
        Op::Const(value) => if is_weak(node.dtype) {
            let dtype = if value is Invalid && node.dtype == DType::WeakInt {
                DType::Int32
            } else {
                committed_type(dag, id, DType::Int32)
            };
            Some(
                put(
                    dag,
                    const_node(
                        match value {
                            ConstValue::Float(bits) => ConstValue::Float(in_single(bits)),
                            _ => value,
                        },
                        dtype,
                    ),
                ),
            )
        } else {
            None
        },
        Op::Variable { .. } => if is_weak(node.dtype) {
            Some(over(dag, node, committed_type(dag, id, DType::Int32), node.srcs.len() as int, node.dtype))
        } else {
            None
        },
        Op::Range { .. } => if node.dtype == DType::WeakInt {
            let dtype = committed_type(dag, id, dag[node.srcs[0] as int].dtype);
            let extent = as_type(dag, node.srcs[0], dtype);
            Some(
                put(
                    extent.dag,
                    NodeView { op: node.op, dtype, srcs: node.srcs.update(0, extent.id) },
                ),
            )
        } else {
            None
        },
        Op::Unary(_) => if is_weak(node.dtype) {
            let dtype = committed_type(dag, id, dag[node.srcs[0] as int].dtype);
            Some(over(dag, node, dtype, 0, dtype))
        } else {
            None
        },
        Op::Binary(op) => {
            let operands = common_type(dag, node.srcs[0], node.srcs[1]);
            if compares(op) {
                if dag[node.srcs[0] as int].dtype != dag[node.srcs[1] as int].dtype {
                    Some(over(dag, node, node.dtype, 0, operands))
                } else {
                    None
                }
            } else if is_weak(node.dtype) {
                let dtype = committed_type(dag, id, operands);
                Some(over(dag, node, dtype, 0, dtype))
            } else {
                None
            }
        },
        Op::Ternary(TernaryOp::Where) => if is_weak(node.dtype) {
            let dtype = committed_type(dag, id, common_type(dag, node.srcs[1], node.srcs[2]));
            Some(over(dag, node, dtype, 1, dtype))
        } else {
            None
        },
        Op::Stack => if is_weak(node.dtype) {
            let dtype = if node.dtype == DType::WeakFloat {
                DType::Float32
            } else if some_wide(dag, node.srcs, node.srcs.len()) {
                DType::Int64
            } else {
                DType::Int32
            };
            Some(over(dag, node, dtype, 0, dtype))
        } else {
            None
        },
        Op::Cast => if node.dtype == DType::WeakInt && is_whole(dag[node.srcs[0] as int].dtype) {
            Some(Built { dag, id: node.srcs[0] })
        } else if is_weak(node.dtype) {
            Some(put(dag, cast_node(node.srcs[0], committed_type(dag, id, DType::Int64))))
        } else {
            None
        },
        Op::Store => if dag[node.srcs[1] as int].dtype != dag[node.srcs[0] as int].dtype
            && !is_weak(dag[node.srcs[0] as int].dtype) {
            let value = as_type(dag, node.srcs[1], dag[node.srcs[0] as int].dtype);
            Some(put(value.dag, with_srcs(node, node.srcs.update(1, value.id))))
        } else {
            None
        },
        Op::Index => if node.srcs.len() == 2 && unconverted(dag, node.srcs[1]) != node.srcs[1] {
            Some(
                put(dag, with_srcs(node, node.srcs.update(1, unconverted(dag, node.srcs[1])))),
            )
        } else {
            None
        },
        _ => None,
    }
}

fn weak(dtype: DType) -> (r: bool)
    ensures
        r == is_weak(dtype),
{
    dtype == DType::WeakInt || dtype == DType::WeakFloat
}

fn holds(dtype: DType, low: i64, high: i64) -> (r: bool)
    ensures
        r == spans(dtype, low as int, high as int),
{
    match find_extremes(dtype) {
        Some(ends) => ends.0 <= low as i128 && high as i128 <= ends.1,
        None => false,
    }
}

fn find_narrow_type(graph: &Graph, id: usize) -> (dtype: DType)
    requires
        graph.wf(),
        id < graph@.len(),
    ensures
        dtype == narrow_type(graph@, id),
{
    proof {
        lemma_arity(graph@, id);
    }
    let plain: usize = get_idx(graph, id);
    match find_bounds(graph, plain) {
        Some(ends) => {
            if holds(DType::Int32, ends.0, ends.1) {
                DType::Int32
            } else {
                DType::Int64
            }
        },
        None => DType::Int64,
    }
}

fn put_as_type(graph: &mut Graph, src: usize, dtype: DType) -> (id: usize)
    requires
        old(graph).wf(),
        src < old(graph)@.len(),
    ensures
        grown(old(graph)@, *final(graph), as_type(old(graph)@, src, dtype), id),
{
    if graph.dtype(src) == dtype {
        return src;
    }
    match graph.op(src) {
        Op::Const(ConstValue::Invalid) => graph.constant(ConstValue::Invalid, dtype),
        Op::Const(ConstValue::Int(n)) => {
            if (dtype == DType::Int32 || dtype == DType::Int64) && holds(dtype, n, n) {
                graph.constant(ConstValue::Int(n), dtype)
            } else {
                graph.cast(src, dtype)
            }
        },
        _ => graph.cast(src, dtype),
    }
}

fn can_follow(graph: &Graph, id: usize, dtype: DType) -> (r: bool)
    requires
        id < graph@.len(),
    ensures
        r == follows(graph@, id, dtype),
{
    match graph.op(id) {
        Op::Const(ConstValue::Int(n)) => holds(dtype, n, n) || !whole(dtype),
        Op::Const(_) => true,
        _ => false,
    }
}

fn find_common_type(graph: &Graph, a: usize, b: usize) -> (dtype: DType)
    requires
        a < graph@.len(),
        b < graph@.len(),
    ensures
        dtype == common_type(graph@, a, b),
{
    let left = graph.dtype(a);
    let right = graph.dtype(b);
    if left == right {
        left
    } else if can_follow(graph, a, right) {
        right
    } else if can_follow(graph, b, left) {
        left
    } else if whole(left) && whole(right) {
        DType::Int64
    } else {
        left
    }
}

fn find_committed_type(graph: &Graph, id: usize, operands: DType) -> (dtype: DType)
    requires
        graph.wf(),
        id < graph@.len(),
    ensures
        dtype == committed_type(graph@, id, operands),
{
    let dtype = graph.dtype(id);
    if dtype == DType::WeakFloat {
        DType::Float32
    } else if dtype == DType::WeakInt {
        let narrow = find_narrow_type(graph, id);
        if narrow == DType::Int64 {
            narrow
        } else {
            operands
        }
    } else {
        dtype
    }
}

fn put_over(graph: &mut Graph, id: usize, dtype: DType, first: usize, operands: DType) -> (new: usize)
    requires
        old(graph).wf(),
        id < old(graph)@.len(),
        first <= old(graph)@[id as int].srcs.len(),
    ensures
        grown(
            old(graph)@,
            *final(graph),
            over(old(graph)@, old(graph)@[id as int], dtype, first as int, operands),
            new,
        ),
{
    let ghost dag = graph@;
    let ghost node = dag[id as int];
    proof {
        lemma_arity(dag, id);
    }
    let op = graph.op(id);
    let srcs = sources(graph, id);
    let ghost rest = srcs@.skip(first as int);
    let mut list: Vec<usize> = Vec::new();
    let mut k: usize = 0;
    while k < first
        invariant
            k <= first <= srcs@.len(),
            list@ == srcs@.take(k as int),
        decreases first - k,
    {
        list.push(srcs[k]);
        k += 1;
        assert(list@ =~= srcs@.take(k as int));
    }
    let mut n: usize = 0;
    while first + n < srcs.len()
        invariant
            graph.wf(),
            extends(dag, graph@),
            first + n <= srcs.len(),
            rest == srcs@.skip(first as int),
            forall|j: int| 0 <= j < srcs@.len() ==> (#[trigger] srcs@[j]) < dag.len(),
            graph@ == all_as(dag, rest, operands, n as nat).dag,
            list@ == srcs@.take(first as int) + all_as(dag, rest, operands, n as nat).srcs,
            list@.len() == first + n,
            forall|j: int| 0 <= j < list@.len() ==> (#[trigger] list@[j]) < graph@.len(),
        decreases srcs@.len() - first - n,
    {
        let src: usize = srcs[first + n];
        assert(rest[n as int] == src);
        let new: usize = put_as_type(graph, src, operands);
        list.push(new);
        n += 1;
        assert(list@ =~= srcs@.take(first as int) + all_as(dag, rest, operands, n as nat).srcs);
    }
    let ghost held = graph@;
    proof {
        lemma_interned_keeps(held, NodeView { op, dtype, srcs: list@ });
    }
    graph.node(op, dtype, list.as_slice())
}

fn any_wide(graph: &Graph, srcs: &Vec<usize>) -> (r: bool)
    requires
        forall|k: int| 0 <= k < srcs@.len() ==> (#[trigger] srcs@[k]) < graph@.len(),
    ensures
        r == some_wide(graph@, srcs@, srcs@.len()),
{
    let mut k: usize = 0;
    while k < srcs.len()
        invariant
            k <= srcs@.len(),
            forall|j: int| 0 <= j < srcs@.len() ==> (#[trigger] srcs@[j]) < graph@.len(),
            forall|j: int|
                0 <= j < k ==> graph@[#[trigger] srcs@[j] as int].dtype != DType::Int64,
        decreases srcs@.len() - k,
    {
        if graph.dtype(srcs[k]) == DType::Int64 {
            assert(graph@[srcs@[k as int] as int].dtype == DType::Int64);
            return true;
        }
        k += 1;
    }
    false
}

fn put_updated(graph: &mut Graph, id: usize, dtype: DType, at: usize, src: usize, dag: Ghost<Seq<NodeView>>) -> (new: usize)
    requires
        old(graph).wf(),
        dag_wf(dag@),
        extends(dag@, old(graph)@),
        id < dag@.len(),
        at < dag@[id as int].srcs.len(),
        src < old(graph)@.len(),
    ensures
        grown(
            old(graph)@,
            *final(graph),
            put(
                old(graph)@,
                NodeView {
                    op: dag@[id as int].op,
                    dtype,
                    srcs: dag@[id as int].srcs.update(at as int, src),
                },
            ),
            new,
        ),
{
    let ghost held = graph@;
    assert(held[id as int] == dag@[id as int]);
    proof {
        lemma_arity(held, id);
    }
    let op = graph.op(id);
    let mut srcs = sources(graph, id);
    srcs.set(at, src);
    proof {
        lemma_interned_keeps(held, NodeView { op, dtype, srcs: srcs@ });
    }
    graph.node(op, dtype, srcs.as_slice())
}

fn commit_leaf(graph: &mut Graph, id: usize) -> (new: Option<usize>)
    requires
        old(graph).wf(),
        id < old(graph)@.len(),
        ({
            let op = old(graph)@[id as int].op;
            op is Const || op is Variable || op is Range
        }),
    ensures
        made(old(graph)@, *final(graph), committed(old(graph)@, id), new),
{
    let ghost dag = graph@;
    proof {
        lemma_arity(dag, id);
    }
    let dtype = graph.dtype(id);
    match graph.op(id) {
        Op::Const(value) => {
            if !weak(dtype) {
                return None;
            }
            let kind = match value {
                ConstValue::Invalid => if dtype == DType::WeakInt {
                    DType::Int32
                } else {
                    find_committed_type(graph, id, DType::Int32)
                },
                _ => find_committed_type(graph, id, DType::Int32),
            };
            let held = match value {
                ConstValue::Float(bits) => ConstValue::Float(round_to_single(bits)),
                _ => value,
            };
            Some(graph.constant(held, kind))
        },
        Op::Variable { .. } => {
            if !weak(dtype) {
                return None;
            }
            let kind = find_committed_type(graph, id, DType::Int32);
            let count: usize = graph.source_count(id);
            Some(put_over(graph, id, kind, count, dtype))
        },
        Op::Range { .. } => {
            if dtype != DType::WeakInt {
                return None;
            }
            let source: usize = graph.source(id, 0);
            let kind = find_committed_type(graph, id, graph.dtype(source));
            let extent: usize = put_as_type(graph, source, kind);
            Some(put_updated(graph, id, kind, 0, extent, Ghost(dag)))
        },
        _ => None,
    }
}

fn commit_value(graph: &mut Graph, id: usize) -> (new: Option<usize>)
    requires
        old(graph).wf(),
        id < old(graph)@.len(),
        ({
            let op = old(graph)@[id as int].op;
            op is Unary || op is Binary || op == Op::Ternary(TernaryOp::Where) || op is Stack || op is Cast
        }),
    ensures
        made(old(graph)@, *final(graph), committed(old(graph)@, id), new),
{
    let ghost dag = graph@;
    proof {
        lemma_arity(dag, id);
    }
    let dtype = graph.dtype(id);
    match graph.op(id) {
        Op::Unary(_) => {
            if !weak(dtype) {
                return None;
            }
            let kind = find_committed_type(graph, id, graph.dtype(graph.source(id, 0)));
            Some(put_over(graph, id, kind, 0, kind))
        },
        Op::Binary(op) => {
            let left: usize = graph.source(id, 0);
            let right: usize = graph.source(id, 1);
            let operands = find_common_type(graph, left, right);
            if matches!(op, BinaryOp::Lt | BinaryOp::Eq | BinaryOp::Ne) {
                if graph.dtype(left) != graph.dtype(right) {
                    Some(put_over(graph, id, dtype, 0, operands))
                } else {
                    None
                }
            } else if weak(dtype) {
                let kind = find_committed_type(graph, id, operands);
                Some(put_over(graph, id, kind, 0, kind))
            } else {
                None
            }
        },
        Op::Ternary(TernaryOp::Where) => {
            if !weak(dtype) {
                return None;
            }
            let operands = find_common_type(graph, graph.source(id, 1), graph.source(id, 2));
            let kind = find_committed_type(graph, id, operands);
            Some(put_over(graph, id, kind, 1, kind))
        },
        Op::Stack => {
            if !weak(dtype) {
                return None;
            }
            let srcs = sources(graph, id);
            let kind = if dtype == DType::WeakFloat {
                DType::Float32
            } else if any_wide(graph, &srcs) {
                DType::Int64
            } else {
                DType::Int32
            };
            Some(put_over(graph, id, kind, 0, kind))
        },
        Op::Cast => {
            let source: usize = graph.source(id, 0);
            if dtype == DType::WeakInt && whole(graph.dtype(source)) {
                Some(source)
            } else if weak(dtype) {
                let kind = find_committed_type(graph, id, DType::Int64);
                Some(graph.cast(source, kind))
            } else {
                None
            }
        },
        _ => None,
    }
}

fn commit_access(graph: &mut Graph, id: usize) -> (new: Option<usize>)
    requires
        old(graph).wf(),
        id < old(graph)@.len(),
        ({
            let op = old(graph)@[id as int].op;
            op is Store || op is Index
        }),
    ensures
        made(old(graph)@, *final(graph), committed(old(graph)@, id), new),
{
    let ghost dag = graph@;
    proof {
        lemma_arity(dag, id);
    }
    let dtype = graph.dtype(id);
    match graph.op(id) {
        Op::Store => {
            let kind = graph.dtype(graph.source(id, 0));
            let value: usize = graph.source(id, 1);
            if graph.dtype(value) != kind && !weak(kind) {
                let stored: usize = put_as_type(graph, value, kind);
                Some(put_updated(graph, id, dtype, 1, stored, Ghost(dag)))
            } else {
                None
            }
        },
        Op::Index => {
            if graph.source_count(id) != 2 {
                return None;
            }
            let index: usize = graph.source(id, 1);
            proof {
                lemma_arity(dag, index);
            }
            if !matches!(graph.op(index), Op::Cast) {
                return None;
            }
            let plain: usize = graph.source(index, 0);
            if whole(graph.dtype(index)) && whole(graph.dtype(plain)) {
                Some(put_updated(graph, id, dtype, 1, plain, Ghost(dag)))
            } else {
                None
            }
        },
        _ => None,
    }
}

/// Commits a node whose sources are committed; see `committed`.
pub fn commit(graph: &mut Graph, id: usize) -> (new: Option<usize>)
    requires
        old(graph).wf(),
        id < old(graph)@.len(),
    ensures
        made(old(graph)@, *final(graph), committed(old(graph)@, id), new),
{
    match graph.op(id) {
        Op::Const(_) | Op::Variable { .. } | Op::Range { .. } => commit_leaf(graph, id),
        Op::Unary(_)
        | Op::Binary(_)
        | Op::Ternary(TernaryOp::Where)
        | Op::Stack
        | Op::Cast => commit_value(graph, id),
        Op::Store | Op::Index => commit_access(graph, id),
        _ => None,
    }
}

proof fn lemma_as_type(dag: Seq<NodeView>, src: usize, dtype: DType, at: spec_fn(Op) -> int)
    requires
        dag_wf(dag),
        src < dag.len(),
        is_whole(dtype),
        as_type(dag, src, dtype).dag.len() <= usize::MAX,
    ensures
        ({
            let new = as_type(dag, src, dtype);
            &&& dag_wf(new.dag)
            &&& extends(dag, new.dag)
            &&& new.id < new.dag.len()
            &&& meaning(new.dag, new.id, at) == meaning(dag, src, at)
        }),
{
    lemma_meaning(dag, src, at);
    if dag[src as int].dtype != dtype {
        match dag[src as int].op {
            Op::Const(ConstValue::Invalid) => {
                lemma_put_meaning(dag, const_node(ConstValue::Invalid, dtype), at);
            },
            Op::Const(ConstValue::Int(n)) if (dtype == DType::Int32 || dtype == DType::Int64)
                && spans(dtype, n as int, n as int) => {
                lemma_put_meaning(dag, const_node(ConstValue::Int(n), dtype), at);
            },
            _ => {
                lemma_put_meaning(dag, cast_node(src, dtype), at);
            },
        }
    }
}

proof fn lemma_as_type_grows(dag: Seq<NodeView>, src: usize, dtype: DType)
    ensures
        dag.len() <= as_type(dag, src, dtype).dag.len(),
{
    lemma_interned_keeps(dag, const_node(ConstValue::Invalid, dtype));
    lemma_interned_keeps(dag, cast_node(src, dtype));
    match dag[src as int].op {
        Op::Const(value) => {
            lemma_interned_keeps(dag, const_node(value, dtype));
        },
        _ => {},
    }
}

proof fn lemma_all_as(
    dag: Seq<NodeView>,
    srcs: Seq<usize>,
    dtype: DType,
    n: nat,
    at: spec_fn(Op) -> int,
)
    requires
        dag_wf(dag),
        is_whole(dtype),
        n <= srcs.len(),
        forall|k: int| 0 <= k < srcs.len() ==> (#[trigger] srcs[k]) < dag.len(),
        all_as(dag, srcs, dtype, n).dag.len() <= usize::MAX,
    ensures
        ({
            let new = all_as(dag, srcs, dtype, n);
            &&& dag_wf(new.dag)
            &&& extends(dag, new.dag)
            &&& new.srcs.len() == n
            &&& forall|k: int|
                0 <= k < n ==> (#[trigger] new.srcs[k]) < new.dag.len() && meaning(
                    new.dag,
                    new.srcs[k],
                    at,
                ) == meaning(dag, srcs[k], at)
        }),
    decreases n,
{
    if n > 0 {
        let rest = all_as(dag, srcs, dtype, (n - 1) as nat);
        let last = as_type(rest.dag, srcs[n - 1], dtype);
        let new = all_as(dag, srcs, dtype, n);
        lemma_as_type_grows(rest.dag, srcs[n - 1], dtype);
        lemma_all_as(dag, srcs, dtype, (n - 1) as nat, at);
        assert(srcs[n - 1] < dag.len());
        lemma_as_type(rest.dag, srcs[n - 1], dtype, at);
        lemma_meaning_extends(dag, rest.dag, srcs[n - 1], at);
        assert forall|k: int| 0 <= k < n implies (#[trigger] new.srcs[k]) < new.dag.len()
            && meaning(new.dag, new.srcs[k], at) == meaning(dag, srcs[k], at) by {
            if k < n - 1 {
                assert(new.srcs[k] == rest.srcs[k]);
                lemma_meaning_extends(rest.dag, last.dag, rest.srcs[k], at);
            }
        }
    }
}

proof fn lemma_over(
    dag: Seq<NodeView>,
    id: usize,
    dtype: DType,
    first: int,
    operands: DType,
    at: spec_fn(Op) -> int,
)
    requires
        dag_wf(dag),
        id < dag.len(),
        is_whole(operands),
        0 <= first <= dag[id as int].srcs.len(),
        dag[id as int].op is Variable || dag[id as int].op is Unary || dag[id as int].op is Binary
            || dag[id as int].op is Ternary,
        over(dag, dag[id as int], dtype, first, operands).dag.len() <= usize::MAX,
    ensures
        ({
            let new = over(dag, dag[id as int], dtype, first, operands);
            &&& new.id < new.dag.len()
            &&& new.dag[new.id as int].dtype == dtype
            &&& meaning(new.dag, new.id, at) == meaning(dag, id, at)
        }),
{
    let node = dag[id as int];
    let n = (node.srcs.len() - first) as nat;
    let rest = node.srcs.skip(first);
    let list = all_as(dag, rest, operands, n);
    let new = NodeView { op: node.op, dtype, srcs: node.srcs.take(first) + list.srcs };
    lemma_arity(dag, id);
    lemma_interned_keeps(list.dag, new);
    assert forall|k: int| 0 <= k < rest.len() implies (#[trigger] rest[k]) < dag.len() by {
        assert(rest[k] == node.srcs[first + k]);
        assert(dag[id as int].srcs[first + k] < id);
    }
    lemma_all_as(dag, rest, operands, n, at);
    assert forall|k: int| 0 <= k < new.srcs.len() implies (#[trigger] new.srcs[k])
        < list.dag.len() && meaning(list.dag, new.srcs[k], at) == meaning(
        dag,
        node.srcs[k],
        at,
    ) by {
        assert(dag[id as int].srcs[k] < id);
        if k < first {
            assert(new.srcs[k] == node.srcs[k]);
            lemma_meaning_extends(dag, list.dag, node.srcs[k], at);
        } else {
            assert(new.srcs[k] == list.srcs[k - first]);
            assert(rest[k - first] == node.srcs[k]);
        }
    }
    lemma_put_meaning(list.dag, new, at);
    lemma_meaning(dag, id, at);
    if node.srcs.len() > 0 {
        assert(new.srcs[0] < list.dag.len());
    }
    if node.srcs.len() > 1 {
        assert(new.srcs[1] < list.dag.len());
    }
    if node.srcs.len() > 2 {
        assert(new.srcs[2] < list.dag.len());
    }
}

/// Committing an integer expression keeps what it means, and what it means fits
/// in the type that it is committed to.
pub proof fn lemma_committed_means(dag: Seq<NodeView>, id: usize, at: spec_fn(Op) -> int)
    requires
        dag_wf(dag),
        id < dag.len(),
        is_whole(dag[id as int].dtype) || dag[id as int].dtype == DType::Bool,
        forall|k: int|
            0 <= k < dag[id as int].srcs.len() && !(dag[id as int].op is Ternary && k == 0)
                ==> is_whole(dag[#[trigger] dag[id as int].srcs[k] as int].dtype),
        meaning(dag, id, at) is Some,
        committed(dag, id) is Some,
        committed(dag, id)->0.dag.len() <= usize::MAX,
    ensures
        ({
            let new = committed(dag, id)->0;
            &&& meaning(new.dag, new.id, at) == meaning(dag, id, at)
            &&& dag[id as int].dtype == DType::WeakInt && !(dag[id as int].op is Cast)
                && new.dag[new.id as int].dtype == DType::Int32 && admits(dag, id, at)
                ==> i32::MIN <= meaning(dag, id, at)->0 <= i32::MAX
        }),
{
    let node = dag[id as int];
    lemma_arity(dag, id);
    lemma_meaning(dag, id, at);
    let plain = idx_of(dag, id);
    if is_gated(dag, id) {
        assert(dag[id as int].srcs[0] < id && dag[id as int].srcs[1] < id && dag[id as int].srcs[2]
            < id);
        lemma_meaning(dag, node.srcs[2], at);
        assert(meaning(dag, plain, at) == meaning(dag, id, at));
    }
    if admits(dag, id, at) && bounds(dag, plain) is Some {
        assert(admits(dag, plain, at));
        lemma_bounds_hold(dag, plain, at);
    }
    if node.srcs.len() > 0 {
        assert(dag[id as int].srcs[0] < id);
    }
    if node.srcs.len() > 1 {
        assert(dag[id as int].srcs[1] < id);
    }
    if node.srcs.len() > 2 {
        assert(dag[id as int].srcs[2] < id);
    }
    match node.op {
        Op::Const(value) => {
            lemma_put_meaning(dag, const_node(value, committed_type(dag, id, DType::Int32)), at);
        },
        Op::Variable { .. } => {
            lemma_over(
                dag,
                id,
                committed_type(dag, id, DType::Int32),
                node.srcs.len() as int,
                node.dtype,
                at,
            );
        },
        Op::Range { .. } => {
            let dtype = committed_type(dag, id, dag[node.srcs[0] as int].dtype);
            let extent = as_type(dag, node.srcs[0], dtype);
            let new = NodeView { op: node.op, dtype, srcs: node.srcs.update(0, extent.id) };
            lemma_interned_keeps(extent.dag, new);
            lemma_as_type(dag, node.srcs[0], dtype, at);
            assert forall|k: int| 0 <= k < new.srcs.len() implies (#[trigger] new.srcs[k])
                < extent.dag.len() by {
                if k > 0 {
                    assert(dag[id as int].srcs[k] < id);
                }
            }
            lemma_put_meaning(extent.dag, new, at);
        },
        Op::Unary(_) => {
            let dtype = committed_type(dag, id, dag[node.srcs[0] as int].dtype);
            lemma_over(dag, id, dtype, 0, dtype, at);
        },
        Op::Binary(op) => {
            let operands = common_type(dag, node.srcs[0], node.srcs[1]);
            if compares(op) {
                lemma_over(dag, id, node.dtype, 0, operands, at);
            } else {
                let dtype = committed_type(dag, id, operands);
                lemma_over(dag, id, dtype, 0, dtype, at);
            }
        },
        Op::Ternary(TernaryOp::Where) => {
            let dtype = committed_type(dag, id, common_type(dag, node.srcs[1], node.srcs[2]));
            lemma_over(dag, id, dtype, 1, dtype, at);
        },
        Op::Cast => {},
        _ => {},
    }
}

/// The operations that can have a weak type.
pub open spec fn takes_weak(op: Op) -> bool {
    match op {
        Op::Const(_)
        | Op::Variable { .. }
        | Op::Unary(_)
        | Op::Ternary(TernaryOp::Where)
        | Op::Stack
        | Op::Cast => true,
        Op::Binary(op) => !compares(op),
        _ => false,
    }
}

/// No weak type is left on a node over sources that have none.
pub proof fn lemma_committed_is_not_weak(dag: Seq<NodeView>, id: usize)
    requires
        dag_wf(dag),
        id < dag.len(),
        is_weak(dag[id as int].dtype),
        takes_weak(dag[id as int].op),
        forall|k: int|
            0 <= k < dag[id as int].srcs.len() ==> !is_weak(
                dag[#[trigger] dag[id as int].srcs[k] as int].dtype,
            ),
        committed(dag, id) matches Some(new) ==> new.dag.len() <= usize::MAX,
    ensures
        committed(dag, id) matches Some(new) && !is_weak(new.dag[new.id as int].dtype),
{
    let node = dag[id as int];
    lemma_arity(dag, id);
    if node.srcs.len() > 0 {
        assert(!is_weak(dag[node.srcs[0] as int].dtype));
    }
    if node.srcs.len() > 1 {
        assert(!is_weak(dag[node.srcs[1] as int].dtype));
    }
    if node.srcs.len() > 2 {
        assert(!is_weak(dag[node.srcs[2] as int].dtype));
    }
    match committed(dag, id) {
        Some(new) => {
            assert(forall|more: Seq<NodeView>, made: NodeView|
                #![trigger put(more, made)]
                put(more, made).dag.len() <= usize::MAX ==> put(more, made).dag[put(
                    more,
                    made,
                ).id as int] == made) by {
                assert forall|more: Seq<NodeView>, made: NodeView|
                    #![trigger put(more, made)]
                    put(more, made).dag.len() <= usize::MAX implies put(more, made).dag[put(
                    more,
                    made,
                ).id as int] == made by {
                    lemma_put(more, made);
                }
            }
        },
        None => {},
    }
}

} // verus!
