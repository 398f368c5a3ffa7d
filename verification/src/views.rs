//! Views that cannot be read in place, and values without elements.

use vstd::prelude::*;

use crate::algebra::{element_count, elements};
use crate::bufferize::{lemma_storage_extends, storage};
use crate::builders::{const_node, extent_node, lemma_interned_keeps, put, Built, ONE};
use crate::graph::{dag_wf, lemma_interned_wf, ConstValue, DType, Graph, NodeView, Op, ReduceOp};
use crate::late::made;
use crate::meaning::lemma_arity;
use crate::passes::{extends, grown, lemma_put, sources, with_srcs, zero, zero_of};
use crate::shape::{dims, find_dims, shape_of, sizes_of};

verus! {

/// Whether an operation gives the elements of its first source in another
/// arrangement.
pub open spec fn is_movement(op: Op) -> bool {
    op is Reshape || op is Expand || op is Permute || op is Flip || op is Pad
        || op is Shrink
}

/// What a view is a view of.
pub open spec fn view_base(dag: Seq<NodeView>, id: usize) -> usize
    decreases id,
{
    let node = dag[id as int];
    if is_movement(node.op) && node.srcs.len() > 0 && node.srcs[0] < id {
        view_base(dag, node.srcs[0])
    } else {
        id
    }
}

/// Whether a view has the elements in another order than what it is a view of.
pub open spec fn is_reordered(dag: Seq<NodeView>, id: usize) -> bool
    decreases id,
{
    let node = dag[id as int];
    is_movement(node.op) && node.srcs.len() > 0 && node.srcs[0] < id && (node.op is Permute
        || node.op is Flip || is_reordered(dag, node.srcs[0]))
}

/// Whether a view has another number of elements than what it is a view of. Of
/// numbers beyond those of storage nothing is said.
pub open spec fn is_resized(dag: Seq<NodeView>, id: usize) -> bool {
    match (dims(dag, id), dims(dag, view_base(dag, id))) {
        (Some(a), Some(b)) => elements(a) != elements(b) && (elements(a) <= usize::MAX || elements(
            b,
        ) <= usize::MAX),
        _ => false,
    }
}

/// A copy of a view that is reordered or resized copies the elements once they
/// are stored in the order of the view.
pub open spec fn copied_in_order(dag: Seq<NodeView>, id: usize) -> Option<Built> {
    let node = dag[id as int];
    if node.op is Copy && is_movement(dag[node.srcs[0] as int].op) && (is_reordered(
        dag,
        node.srcs[0],
    ) || is_resized(dag, node.srcs[0])) {
        let stored = put(
            dag,
            NodeView {
                op: Op::Contiguous,
                dtype: dag[node.srcs[0] as int].dtype,
                srcs: seq![node.srcs[0]],
            },
        );
        Some(put(stored.dag, NodeView { srcs: seq![stored.id], ..node }))
    } else {
        None
    }
}

/// Whether a type is one of floats.
pub open spec fn is_float_type(dtype: DType) -> bool {
    match dtype {
        DType::FP8E4M3
        | DType::FP8E5M2
        | DType::FP8E4M3FNUZ
        | DType::FP8E5M2FNUZ
        | DType::Float16
        | DType::BFloat16
        | DType::Float32
        | DType::Float64
        | DType::WeakFloat => true,
        _ => false,
    }
}

/// The bits of the float below all others.
pub const BELOW_ALL: u64 = 0xFFF0_0000_0000_0000;

/// The bits of the float above all others.
pub const ABOVE_ALL: u64 = 0x7FF0_0000_0000_0000;

/// What a reduction of nothing gives.
pub open spec fn start_of(with: ReduceOp, dtype: DType) -> ConstValue {
    match with {
        ReduceOp::Add => zero_of(dtype),
        ReduceOp::Mul => if is_float_type(dtype) {
            ConstValue::Float(ONE)
        } else if dtype == DType::Bool {
            ConstValue::Bool(true)
        } else {
            ConstValue::Int(1)
        },
        ReduceOp::Max => match dtype {
            DType::Bool => ConstValue::Bool(false),
            DType::Int8 => ConstValue::Int(-0x80i64),
            DType::Int16 => ConstValue::Int(-0x8000i64),
            DType::Int32 => ConstValue::Int(-0x8000_0000i64),
            DType::Int64 | DType::Index | DType::WeakInt => ConstValue::Int(i64::MIN),
            _ => if is_float_type(dtype) {
                ConstValue::Float(BELOW_ALL)
            } else {
                ConstValue::Int(0)
            },
        },
        ReduceOp::Min => match dtype {
            DType::Bool => ConstValue::Bool(true),
            DType::Int8 => ConstValue::Int(0x7F),
            DType::Int16 => ConstValue::Int(0x7FFF),
            DType::Int32 => ConstValue::Int(0x7FFF_FFFF),
            DType::UInt8 => ConstValue::Int(0xFF),
            DType::UInt16 => ConstValue::Int(0xFFFF),
            DType::UInt32 => ConstValue::Int(0xFFFF_FFFF),
            DType::UInt64 => ConstValue::UInt(u64::MAX),
            _ => if is_float_type(dtype) {
                ConstValue::Float(ABOVE_ALL)
            } else {
                ConstValue::Int(i64::MAX)
            },
        },
    }
}

/// Whether every size can be the value of a constant.
pub open spec fn are_constants(sizes: Seq<usize>) -> bool {
    forall|k: int| 0 <= k < sizes.len() ==> (#[trigger] sizes[k]) <= i64::MAX
}

/// The first `n` sizes as constants.
pub open spec fn size_nodes(dag: Seq<NodeView>, sizes: Seq<usize>, n: nat) -> (
    Seq<NodeView>,
    Seq<usize>,
)
    decreases n,
{
    if n == 0 {
        (dag, Seq::empty())
    } else {
        let (before, list) = size_nodes(dag, sizes, (n - 1) as nat);
        let size = put(before, extent_node(sizes[n - 1] as i64));
        (size.dag, list.push(size.id))
    }
}

/// A constant in a shape.
pub open spec fn filled(
    dag: Seq<NodeView>,
    value: ConstValue,
    dtype: DType,
    shape: Seq<usize>,
) -> Built {
    let one = put(dag, const_node(value, dtype));
    if shape.len() == 0 {
        one
    } else {
        let (sized, list) = size_nodes(one.dag, shape, shape.len());
        let stack = put(sized, NodeView { op: Op::Stack, dtype: DType::WeakInt, srcs: list });
        put(stack.dag, NodeView { op: Op::Expand, dtype, srcs: seq![one.id, stack.id] })
    }
}

/// Whether a value has no elements.
pub open spec fn has_no_elements(dag: Seq<NodeView>, id: usize) -> bool {
    dims(dag, id) matches Some(shape) && elements(shape) == 0
}

/// Whether a node is a constant in a shape.
pub open spec fn is_filled(dag: Seq<NodeView>, id: usize) -> bool {
    dag[id as int].op is Expand && dag[dag[id as int].srcs[0] as int].op is Const
}

/// A reduction of a value without elements is what a reduction of nothing
/// gives, in the shape of the reduction; and a value without elements is zero.
pub open spec fn without_elements(dag: Seq<NodeView>, id: usize) -> Option<Built> {
    let node = dag[id as int];
    match dims(dag, id) {
        Some(shape) if are_constants(shape) => match node.op {
            Op::AxisReduce { with, .. } => if has_no_elements(dag, node.srcs[0]) {
                Some(filled(dag, start_of(with, node.dtype), node.dtype, shape))
            } else {
                None
            },
            _ => if has_no_elements(dag, id) && !is_filled(dag, id) {
                Some(filled(dag, zero_of(node.dtype), node.dtype, shape))
            } else {
                None
            },
        },
        _ => None,
    }
}

pub(crate) fn moves(op: Op) -> (r: bool)
    ensures
        r == is_movement(op),
{
    matches!(op, Op::Reshape | Op::Expand | Op::Permute | Op::Flip | Op::Pad | Op::Shrink)
}

/// What a view is a view of, and whether its elements are in another order.
pub(crate) fn find_base(graph: &Graph, id: usize) -> (found: (usize, bool))
    requires
        graph.wf(),
        id < graph@.len(),
    ensures
        found.0 == view_base(graph@, id),
        found.0 <= id,
        found.1 == is_reordered(graph@, id),
{
    let mut at: usize = id;
    let mut turned: bool = false;
    while moves(graph.op(at))
        invariant
            graph.wf(),
            at <= id < graph@.len(),
            view_base(graph@, id) == view_base(graph@, at),
            is_reordered(graph@, id) == (turned || is_reordered(graph@, at)),
        decreases at,
    {
        proof {
            lemma_arity(graph@, at);
        }
        if matches!(graph.op(at), Op::Permute | Op::Flip) {
            turned = true;
        }
        at = graph.source(at, 0);
    }
    (at, turned)
}

fn resized(graph: &Graph, id: usize, base: usize) -> (r: bool)
    requires
        graph.wf(),
        id < graph@.len(),
        base < graph@.len(),
        base == view_base(graph@, id),
    ensures
        r == is_resized(graph@, id),
{
    match (find_dims(graph, id), find_dims(graph, base)) {
        (Some(a), Some(b)) => match (element_count(&a), element_count(&b)) {
            (Some(m), Some(n)) => m != n,
            (None, None) => false,
            _ => true,
        },
        _ => false,
    }
}

/// Stores a view that is copied in its own order first, where it cannot be
/// copied in place.
pub fn order_copy(graph: &mut Graph, id: usize) -> (new: Option<usize>)
    requires
        old(graph).wf(),
        id < old(graph)@.len(),
    ensures
        made(old(graph)@, *final(graph), copied_in_order(old(graph)@, id), new),
{
    match graph.op(id) {
        Op::Copy => {},
        _ => {
            return None;
        },
    }
    proof {
        lemma_arity(graph@, id);
    }
    let view: usize = graph.source(id, 0);
    if !moves(graph.op(view)) {
        return None;
    }
    let found: (usize, bool) = find_base(graph, view);
    if !found.1 && !resized(graph, view, found.0) {
        return None;
    }
    let dtype = graph.dtype(id);
    let viewed = graph.dtype(view);
    let stored: usize = graph.unary(Op::Contiguous, viewed, view);
    Some(graph.unary(Op::Copy, dtype, stored))
}

fn float_type(dtype: DType) -> (r: bool)
    ensures
        r == is_float_type(dtype),
{
    matches!(
        dtype,
        DType::FP8E4M3
        | DType::FP8E5M2
        | DType::FP8E4M3FNUZ
        | DType::FP8E5M2FNUZ
        | DType::Float16
        | DType::BFloat16
        | DType::Float32
        | DType::Float64
        | DType::WeakFloat
    )
}

/// What a reduction of nothing gives.
pub fn reduce_identity(with: ReduceOp, dtype: DType) -> (value: ConstValue)
    ensures
        value == start_of(with, dtype),
{
    match with {
        ReduceOp::Add => zero(dtype),
        ReduceOp::Mul => if float_type(dtype) {
            ConstValue::Float(ONE)
        } else if dtype == DType::Bool {
            ConstValue::Bool(true)
        } else {
            ConstValue::Int(1)
        },
        ReduceOp::Max => match dtype {
            DType::Bool => ConstValue::Bool(false),
            DType::Int8 => ConstValue::Int(-0x80),
            DType::Int16 => ConstValue::Int(-0x8000),
            DType::Int32 => ConstValue::Int(-0x8000_0000),
            DType::Int64 | DType::Index | DType::WeakInt => ConstValue::Int(i64::MIN),
            _ => if float_type(dtype) {
                ConstValue::Float(BELOW_ALL)
            } else {
                ConstValue::Int(0)
            },
        },
        ReduceOp::Min => match dtype {
            DType::Bool => ConstValue::Bool(true),
            DType::Int8 => ConstValue::Int(0x7F),
            DType::Int16 => ConstValue::Int(0x7FFF),
            DType::Int32 => ConstValue::Int(0x7FFF_FFFF),
            DType::UInt8 => ConstValue::Int(0xFF),
            DType::UInt16 => ConstValue::Int(0xFFFF),
            DType::UInt32 => ConstValue::Int(0xFFFF_FFFF),
            DType::UInt64 => ConstValue::UInt(u64::MAX),
            _ => if float_type(dtype) {
                ConstValue::Float(ABOVE_ALL)
            } else {
                ConstValue::Int(i64::MAX)
            },
        },
    }
}

fn put_filled(graph: &mut Graph, value: ConstValue, dtype: DType, shape: &Vec<usize>) -> (id: usize)
    requires
        old(graph).wf(),
        are_constants(shape@),
    ensures
        grown(old(graph)@, *final(graph), filled(old(graph)@, value, dtype, shape@), id),
{
    let ghost dag = graph@;
    let one: usize = graph.constant(value, dtype);
    if shape.len() == 0 {
        return one;
    }
    let ghost mid = graph@;
    let mut list: Vec<usize> = Vec::new();
    let mut k: usize = 0;
    while k < shape.len()
        invariant
            graph.wf(),
            dag_wf(mid),
            extends(dag, mid),
            extends(mid, graph@),
            are_constants(shape@),
            k <= shape@.len(),
            one < mid.len(),
            size_nodes(mid, shape@, k as nat) == (graph@, list@),
            forall|i: int| 0 <= i < list@.len() ==> (#[trigger] list@[i]) < graph@.len(),
        decreases shape@.len() - k,
    {
        assert(shape@[k as int] <= i64::MAX);
        let size: usize = graph.index_const(shape[k] as i64);
        list.push(size);
        k += 1;
    }
    let stack: usize = graph.node(Op::Stack, DType::WeakInt, list.as_slice());
    graph.binary(Op::Expand, dtype, one, stack)
}

fn are_sizes(sizes: &Vec<usize>) -> (r: bool)
    ensures
        r == are_constants(sizes@),
{
    let mut k: usize = 0;
    while k < sizes.len()
        invariant
            k <= sizes@.len(),
            forall|i: int| 0 <= i < k ==> (#[trigger] sizes@[i]) <= i64::MAX,
        decreases sizes@.len() - k,
    {
        if sizes[k] as u64 > i64::MAX as u64 {
            return false;
        }
        k += 1;
    }
    true
}

fn is_empty_value(graph: &Graph, id: usize) -> (r: bool)
    requires
        graph.wf(),
        id < graph@.len(),
    ensures
        r == has_no_elements(graph@, id),
{
    match find_dims(graph, id) {
        Some(shape) => match element_count(&shape) {
            Some(n) => n == 0,
            None => false,
        },
        None => false,
    }
}

/// Replaces a value without elements, or a reduction of one, by a constant.
pub fn fold_empty(graph: &mut Graph, id: usize) -> (new: Option<usize>)
    requires
        old(graph).wf(),
        id < old(graph)@.len(),
    ensures
        made(old(graph)@, *final(graph), without_elements(old(graph)@, id), new),
{
    proof {
        lemma_arity(graph@, id);
    }
    let shape = match find_dims(graph, id) {
        Some(shape) => shape,
        None => {
            return None;
        },
    };
    if !are_sizes(&shape) {
        return None;
    }
    let dtype = graph.dtype(id);
    match graph.op(id) {
        Op::AxisReduce { with, .. } => {
            let value: usize = graph.source(id, 0);
            if !is_empty_value(graph, value) {
                return None;
            }
            Some(put_filled(graph, reduce_identity(with, dtype), dtype, &shape))
        },
        op => {
            if !is_empty_value(graph, id) {
                return None;
            }
            if matches!(op, Op::Expand) && matches!(graph.op(graph.source(id, 0)), Op::Const(_)) {
                return None;
            }
            Some(put_filled(graph, zero(dtype), dtype, &shape))
        },
    }
}

/// What a node is in a kernel: a marker that a value is to be stored is the
/// value, and a hole of a type is the zero of that type.
pub open spec fn lowered_marker(dag: Seq<NodeView>, id: usize) -> Option<Built> {
    let node = dag[id as int];
    match node.op {
        Op::Contiguous => Some(Built { dag, id: node.srcs[0] }),
        Op::Noop => if node.dtype == DType::Void {
            None
        } else {
            Some(put(dag, const_node(zero_of(node.dtype), node.dtype)))
        },
        _ => None,
    }
}

/// Replaces a marker or a hole by what it is in a kernel.
pub fn lower_marker(graph: &mut Graph, id: usize) -> (new: Option<usize>)
    requires
        old(graph).wf(),
        id < old(graph)@.len(),
    ensures
        made(old(graph)@, *final(graph), lowered_marker(old(graph)@, id), new),
{
    proof {
        lemma_arity(graph@, id);
    }
    let dtype = graph.dtype(id);
    match graph.op(id) {
        Op::Contiguous => Some(graph.source(id, 0)),
        Op::Noop => if dtype == DType::Void {
            None
        } else {
            Some(graph.constant(zero(dtype), dtype))
        },
        _ => None,
    }
}

/// A wait moved to what a view or an address is made of: the wait goes inside,
/// the view or the address comes out.
pub open spec fn pushed_through(dag: Seq<NodeView>, id: usize) -> Option<Built> {
    let node = dag[id as int];
    let outer = dag[node.srcs[0] as int];
    if node.op is After && (is_movement(outer.op) || outer.op is Index) {
        let inner = put(
            dag,
            NodeView {
                op: Op::After,
                dtype: dag[outer.srcs[0] as int].dtype,
                srcs: node.srcs.update(0, outer.srcs[0]),
            },
        );
        Some(put(inner.dag, with_srcs(outer, outer.srcs.update(0, inner.id))))
    } else {
        None
    }
}

/// Moves a wait inside a view or an address, if it waits for one.
pub fn push_through_after(graph: &mut Graph, id: usize) -> (new: Option<usize>)
    requires
        old(graph).wf(),
        id < old(graph)@.len(),
    ensures
        made(old(graph)@, *final(graph), pushed_through(old(graph)@, id), new),
{
    let ghost dag = graph@;
    match graph.op(id) {
        Op::After => {},
        _ => {
            return None;
        },
    }
    proof {
        lemma_arity(dag, id);
    }
    let view: usize = graph.source(id, 0);
    let op = graph.op(view);
    if !moves(op) && !matches!(op, Op::Index) {
        return None;
    }
    proof {
        lemma_arity(dag, view);
    }
    let value: usize = graph.source(view, 0);
    let mut waits = sources(graph, id);
    let mut rest = sources(graph, view);
    let kind = graph.dtype(value);
    let dtype = graph.dtype(view);
    let ghost all = waits@;
    let ghost parts = rest@;
    waits.set(0, value);
    proof {
        assert(waits@ =~= all.update(0, value));
        assert forall|k: int| 0 <= k < waits@.len() implies (#[trigger] waits@[k]) < dag.len() by {
            if k > 0 {
                assert(all[k] < id);
            }
        }
    }
    let inner: usize = graph.node(Op::After, kind, waits.as_slice());
    let ghost mid = graph@;
    rest.set(0, inner);
    proof {
        assert(rest@ =~= parts.update(0, inner));
        assert forall|k: int| 0 <= k < rest@.len() implies (#[trigger] rest@[k]) < mid.len() by {
            if k > 0 {
                assert(parts[k] < view);
            }
        }
    }
    let new: usize = graph.node(op, dtype, rest.as_slice());
    assert forall|i: int| 0 <= i < dag.len() implies #[trigger] graph@[i] == dag[i] by {
        assert(mid[i] == dag[i]);
    }
    Some(new)
}

/// Moving a wait inside a view keeps the storage that is reached.
pub proof fn lemma_pushed_keeps_storage(dag: Seq<NodeView>, id: usize)
    requires
        dag_wf(dag),
        id < dag.len(),
        pushed_through(dag, id) is Some,
        !(dag[dag[id as int].srcs[0] as int].op is Index),
        pushed_through(dag, id)->0.dag.len() <= usize::MAX,
    ensures
        storage(pushed_through(dag, id)->0.dag, pushed_through(dag, id)->0.id) == storage(dag, id),
{
    let node = dag[id as int];
    lemma_arity(dag, id);
    assert(dag[id as int].srcs[0] < id);
    let view = node.srcs[0];
    let outer = dag[view as int];
    lemma_arity(dag, view);
    assert(dag[view as int].srcs[0] < view);
    let wait = NodeView {
        op: Op::After,
        dtype: dag[outer.srcs[0] as int].dtype,
        srcs: node.srcs.update(0, outer.srcs[0]),
    };
    let inner = put(dag, wait);
    let last = with_srcs(outer, outer.srcs.update(0, inner.id));
    let built = put(inner.dag, last);
    lemma_interned_keeps(dag, wait);
    lemma_interned_keeps(inner.dag, last);
    assert forall|k: int| 0 <= k < wait.srcs.len() implies (#[trigger] wait.srcs[k]) < dag.len() by {
        if k > 0 {
            assert(dag[id as int].srcs[k] < id);
        }
    }
    lemma_interned_wf(dag, wait);
    lemma_put(dag, wait);
    assert forall|k: int| 0 <= k < last.srcs.len() implies (#[trigger] last.srcs[k])
        < inner.dag.len() by {
        if k > 0 {
            assert(dag[view as int].srcs[k] < view);
        }
    }
    lemma_interned_wf(inner.dag, last);
    lemma_put(inner.dag, last);
    assert(built.dag[inner.id as int] == wait);
    assert(built.dag[built.id as int].srcs[0] < built.id);
    assert(built.dag[inner.id as int].srcs[0] < inner.id);
    lemma_storage_extends(dag, built.dag, outer.srcs[0]);
    assert(storage(built.dag, inner.id) == storage(built.dag, outer.srcs[0]));
    assert(storage(dag, view) == storage(dag, outer.srcs[0]));
}

/// The ranges that walk an operand, where others walk what it is broadcast to:
/// an axis of one element that is broadcast is walked by zero, and a scalar
/// leaves the ranges as they are.
pub open spec fn broadcast_to(
    consumer: Seq<usize>,
    source: Seq<usize>,
    ranges: Seq<usize>,
    zero: usize,
) -> Seq<usize> {
    if source.len() == 0 {
        ranges
    } else {
        Seq::new(
            ranges.len(),
            |k: int|
                if source[k] == 1 && consumer[k] != 1 {
                    zero
                } else {
                    ranges[k]
                },
        )
    }
}

/// The ranges that walk an operand of one shape, where others walk the shape
/// that it is broadcast to.
pub fn broadcast_ranges(
    graph: &mut Graph,
    consumer: &Vec<usize>,
    source: &Vec<usize>,
    ranges: &Vec<usize>,
) -> (mapped: Vec<usize>)
    requires
        old(graph).wf(),
        consumer@.len() == ranges@.len(),
        source@.len() == 0 || source@.len() == ranges@.len(),
    ensures
        final(graph).wf(),
        final(graph)@ == put(old(graph)@, extent_node(0)).dag,
        mapped@ == broadcast_to(
            consumer@,
            source@,
            ranges@,
            put(old(graph)@, extent_node(0)).id,
        ),
{
    let zero: usize = graph.index_const(0);
    let mut mapped: Vec<usize> = Vec::new();
    let mut k: usize = 0;
    while k < ranges.len()
        invariant
            consumer@.len() == ranges@.len(),
            source@.len() == 0 || source@.len() == ranges@.len(),
            k <= ranges@.len(),
            mapped@ == broadcast_to(consumer@, source@, ranges@, zero).take(k as int),
        decreases ranges@.len() - k,
    {
        if source.len() > 0 && source[k] == 1 && consumer[k] != 1 {
            mapped.push(zero);
        } else {
            mapped.push(ranges[k]);
        }
        k += 1;
        assert(mapped@ =~= broadcast_to(consumer@, source@, ranges@, zero).take(k as int));
    }
    assert(mapped@ =~= broadcast_to(consumer@, source@, ranges@, zero));
    mapped
}

proof fn lemma_size_nodes_grow(dag: Seq<NodeView>, sizes: Seq<usize>, n: nat)
    ensures
        extends(dag, size_nodes(dag, sizes, n).0),
        size_nodes(dag, sizes, n).1.len() == n,
    decreases n,
{
    if n > 0 {
        lemma_size_nodes_grow(dag, sizes, (n - 1) as nat);
        let (before, _list) = size_nodes(dag, sizes, (n - 1) as nat);
        lemma_interned_keeps(before, extent_node(sizes[n - 1] as i64));
    }
}

proof fn lemma_size_nodes(dag: Seq<NodeView>, sizes: Seq<usize>, n: nat)
    requires
        dag_wf(dag),
        n <= sizes.len(),
        size_nodes(dag, sizes, n).0.len() <= usize::MAX,
    ensures
        ({
            let (done, list) = size_nodes(dag, sizes, n);
            &&& dag_wf(done)
            &&& forall|k: int|
                0 <= k < n ==> (#[trigger] list[k]) < done.len() && done[list[k] as int]
                    == extent_node(sizes[k] as i64)
        }),
    decreases n,
{
    if n > 0 {
        let (before, list) = size_nodes(dag, sizes, (n - 1) as nat);
        let node = extent_node(sizes[n - 1] as i64);
        lemma_interned_keeps(before, node);
        lemma_size_nodes(dag, sizes, (n - 1) as nat);
        lemma_size_nodes_grow(dag, sizes, (n - 1) as nat);
        lemma_interned_wf(before, node);
        lemma_put(before, node);
        let (done, all) = size_nodes(dag, sizes, n);
        assert forall|k: int| 0 <= k < n implies (#[trigger] all[k]) < done.len()
            && done[all[k] as int] == extent_node(sizes[k] as i64) by {
            if k < n - 1 {
                assert(all[k] == list[k]);
                assert(before[list[k] as int] == extent_node(sizes[k] as i64));
            }
        }
    }
}

proof fn lemma_sizes_read(dag: Seq<NodeView>, list: Seq<usize>, sizes: Seq<usize>, n: nat)
    requires
        n <= sizes.len(),
        list.len() == sizes.len(),
        are_constants(sizes),
        forall|k: int|
            0 <= k < sizes.len() ==> dag[#[trigger] list[k] as int] == extent_node(sizes[k] as i64),
    ensures
        sizes_of(dag, list, n) == Some(sizes.take(n as int)),
    decreases n,
{
    if n == 0 {
        assert(sizes.take(0) =~= Seq::<usize>::empty());
    } else {
        lemma_sizes_read(dag, list, sizes, (n - 1) as nat);
        assert(sizes[n - 1] <= i64::MAX);
        assert(dag[list[n - 1] as int] == extent_node(sizes[n - 1] as i64));
        assert(sizes.take(n as int) =~= sizes.take(n - 1).push(sizes[n - 1]));
    }
}

/// A constant in a shape has that shape.
pub proof fn lemma_filled_shape(
    dag: Seq<NodeView>,
    value: ConstValue,
    dtype: DType,
    shape: Seq<usize>,
)
    requires
        dag_wf(dag),
        are_constants(shape),
        filled(dag, value, dtype, shape).dag.len() <= usize::MAX,
    ensures
        dims(filled(dag, value, dtype, shape).dag, filled(dag, value, dtype, shape).id) == Some(
            shape,
        ),
{
    let node = const_node(value, dtype);
    let one = put(dag, node);
    lemma_interned_keeps(dag, node);
    lemma_interned_wf(dag, node);
    let built = filled(dag, value, dtype, shape);
    if shape.len() == 0 {
        lemma_put(dag, node);
        assert(shape =~= Seq::<usize>::empty());
    } else {
        let (sized, list) = size_nodes(one.dag, shape, shape.len());
        let stack_node = NodeView { op: Op::Stack, dtype: DType::WeakInt, srcs: list };
        let stack = put(sized, stack_node);
        let last = NodeView { op: Op::Expand, dtype, srcs: seq![one.id, stack.id] };
        lemma_size_nodes_grow(one.dag, shape, shape.len());
        lemma_interned_keeps(sized, stack_node);
        lemma_interned_keeps(stack.dag, last);
        lemma_put(dag, node);
        lemma_size_nodes(one.dag, shape, shape.len());
        lemma_put(sized, stack_node);
        assert forall|k: int| 0 <= k < stack_node.srcs.len() implies (#[trigger] stack_node.srcs[k])
            < sized.len() by {
            assert(list[k] < sized.len());
        }
        lemma_interned_wf(sized, stack_node);
        assert forall|k: int| 0 <= k < last.srcs.len() implies (#[trigger] last.srcs[k])
            < stack.dag.len() by {
        }
        lemma_interned_wf(stack.dag, last);
        lemma_put(stack.dag, last);
        assert(built.dag[stack.id as int] == stack_node);
        assert forall|k: int| 0 <= k < shape.len() implies built.dag[#[trigger] list[k] as int]
            == extent_node(shape[k] as i64) by {
            assert(sized[list[k] as int] == extent_node(shape[k] as i64));
        }
        lemma_sizes_read(built.dag, list, shape, shape.len());
        assert(shape.take(shape.len() as int) =~= shape);
        assert(built.dag[built.id as int] == last);
        assert(shape_of(built.dag, stack.id) == Some(shape));
    }
}

} // verus!
