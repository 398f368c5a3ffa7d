//! Values that are split over several devices.

use vstd::prelude::*;

use crate::builders::{cast_node, lemma_interned_keeps, put, Built};
use crate::graph::{arity_ok, dag_wf, ConstValue, DType, Graph, NodeView, Op, ReduceOp};
use crate::late::{int_at, int_of};
use crate::meaning::lemma_arity;
use crate::passes::{
    extends, grown, lemma_settled_graph_is_kept, rewritten, rule, sources, with_srcs, Pass,
};
use crate::shape::{dims, find_dims, same_list, sizes_from, sizes_of};
use crate::topo::{lemma_reaches_below, lemma_reaches_transitive, lemma_topo, reaches, topo};

verus! {

/// The axis that a value is split along, if it is split.
pub open spec fn shard_axis(dag: Seq<NodeView>, id: usize) -> Option<usize> {
    match dag[id as int].op {
        Op::Multi(axis) => Some(axis),
        _ => None,
    }
}

/// What each device has of a value: its part of a split value, and the value
/// itself otherwise.
pub open spec fn local_of(dag: Seq<NodeView>, id: usize) -> usize {
    if dag[id as int].op is Multi {
        dag[id as int].srcs[0]
    } else {
        id
    }
}

/// The operations that compute element by element.
pub open spec fn is_elementwise(op: Op) -> bool {
    op is Unary || op is Binary || op is Ternary
}

/// The operations that move elements about.
pub open spec fn is_movement(op: Op) -> bool {
    op is Reshape || op is Permute || op is Flip || op is Pad
}

/// The axis of the first of some sources that is split.
pub open spec fn first_axis(dag: Seq<NodeView>, srcs: Seq<usize>, n: nat) -> Option<usize>
    decreases n,
{
    if n == 0 {
        None
    } else {
        match first_axis(dag, srcs, (n - 1) as nat) {
            Some(axis) => Some(axis),
            None => shard_axis(dag, srcs[n - 1]),
        }
    }
}

/// Whether an operand is a scalar, which needs no layout of its own.
pub open spec fn is_scalar(dag: Seq<NodeView>, id: usize) -> bool {
    dims(dag, id) == Some(Seq::<usize>::empty())
}

/// Whether an operand goes with values that are split along an axis.
pub open spec fn fits_axis(dag: Seq<NodeView>, id: usize, axis: usize) -> bool {
    if dag[id as int].op is Multi {
        dag[id as int].op == Op::Multi(axis)
    } else {
        is_scalar(dag, id)
    }
}

/// Whether all operands go with values that are split along an axis.
pub open spec fn all_fit(dag: Seq<NodeView>, srcs: Seq<usize>, axis: usize) -> bool {
    forall|k: int| 0 <= k < srcs.len() ==> fits_axis(dag, #[trigger] srcs[k], axis)
}

/// A node over what each device has of its sources.
pub open spec fn local_node(dag: Seq<NodeView>, node: NodeView) -> NodeView {
    with_srcs(node, Seq::new(node.srcs.len(), |k: int| local_of(dag, node.srcs[k])))
}

/// A node over the part of its first source.
pub open spec fn over_part(dag: Seq<NodeView>, node: NodeView) -> NodeView {
    with_srcs(node, node.srcs.update(0, dag[node.srcs[0] as int].srcs[0]))
}

/// A value that each device computes, split along an axis.
pub open spec fn split(dag: Seq<NodeView>, local: NodeView, axis: usize) -> Built {
    let part = put(dag, local);
    put(
        part.dag,
        NodeView { op: Op::Multi(axis), dtype: local.dtype, srcs: seq![part.id] },
    )
}

/// Where an axis goes in another order of axes.
pub open spec fn position(axes: Seq<usize>, axis: usize, n: nat) -> Option<usize>
    decreases n,
{
    if n == 0 {
        None
    } else {
        match position(axes, axis, (n - 1) as nat) {
            Some(k) => Some(k),
            None => if axes[n - 1] == axis {
                Some((n - 1) as usize)
            } else {
                None
            },
        }
    }
}

/// The axis that a value stays split along when its elements are moved about:
/// the new place of the axis in another order, and the same axis where a flip
/// or a pad leaves it alone. Nothing is known of a reshape.
pub open spec fn moved_axis(dag: Seq<NodeView>, node: NodeView, axis: usize) -> Option<usize> {
    match node.op {
        Op::Permute => match sizes_of(dag, node.srcs.skip(1), (node.srcs.len() - 1) as nat) {
            Some(axes) => position(axes, axis, axes.len()),
            None => None,
        },
        Op::Flip => if axis + 1 < node.srcs.len() && dag[node.srcs[axis + 1] as int].op == Op::Const(
            ConstValue::Bool(false),
        ) {
            Some(axis)
        } else {
            None
        },
        Op::Pad => if pads_nothing(dag, node.srcs[1], axis) && pads_nothing(
            dag,
            node.srcs[2],
            axis,
        ) {
            Some(axis)
        } else {
            None
        },
        _ => None,
    }
}

/// Whether a stack of pads puts nothing along an axis.
pub open spec fn pads_nothing(dag: Seq<NodeView>, id: usize, axis: usize) -> bool {
    let node = dag[id as int];
    node.op is Stack && axis < node.srcs.len() && int_of(dag, node.srcs[axis as int]) == Some(0i64)
}

/// The stack of parts below operations that move elements about.
pub open spec fn stack_below(dag: Seq<NodeView>, id: usize) -> Option<usize>
    decreases id,
{
    let node = dag[id as int];
    if node.op is MStack {
        Some(id)
    } else if is_movement(node.op) && node.srcs[0] < id {
        stack_below(dag, node.srcs[0])
    } else {
        None
    }
}

/// One of the parts of a stack, through operations that move elements about.
/// The graph may have grown, from `dag` to `more`, since the nodes were there.
pub open spec fn selected(
    dag: Seq<NodeView>,
    more: Seq<NodeView>,
    id: usize,
    at: usize,
) -> Built
    decreases id,
{
    let node = dag[id as int];
    if node.op is MStack {
        Built { dag: more, id: node.srcs[at as int] }
    } else if node.srcs[0] < id {
        let below = selected(dag, more, node.srcs[0], at);
        put(below.dag, with_srcs(node, node.srcs.update(0, below.id)))
    } else {
        Built { dag: more, id }
    }
}

/// The number of parts of a stack below operations that move elements about.
pub open spec fn part_count(dag: Seq<NodeView>, id: usize) -> nat {
    match stack_below(dag, id) {
        Some(stack) => dag[stack as int].srcs.len(),
        None => 0,
    }
}

/// Whether all parts of a stack have the same type and the same known shape.
pub open spec fn is_uniform(dag: Seq<NodeView>, stack: usize) -> bool {
    let srcs = dag[stack as int].srcs;
    forall|k: int|
        0 <= k < srcs.len() ==> dims(dag, #[trigger] srcs[k]) is Some && dims(dag, srcs[k]) == dims(
            dag,
            srcs[0],
        ) && dag[srcs[k] as int].dtype == dag[srcs[0] as int].dtype
}

/// Whether a part is a low-precision value that was widened to be reduced.
pub open spec fn is_widened(dag: Seq<NodeView>, id: usize) -> bool {
    let node = dag[id as int];
    &&& node.op is Cast
    &&& node.dtype == DType::Float32
    &&& dag[node.srcs[0] as int].dtype == DType::Float16 || dag[node.srcs[0] as int].dtype
        == DType::BFloat16
}

/// The low precision that all parts were widened from, if they were.
pub open spec fn narrow_type(dag: Seq<NodeView>, id: usize) -> Option<DType> {
    let srcs = dag[id as int].srcs;
    if dag[id as int].op is MStack && forall|k: int|
        0 <= k < srcs.len() ==> is_widened(dag, #[trigger] srcs[k]) && dag[dag[srcs[k] as int].srcs[0] as int].dtype
            == dag[dag[srcs[0] as int].srcs[0] as int].dtype {
        Some(dag[dag[srcs[0] as int].srcs[0] as int].dtype)
    } else {
        None
    }
}

/// The first `n` parts, each of them reduced on its device, and brought back
/// to the low precision where they have one.
pub open spec fn local_parts(
    dag: Seq<NodeView>,
    node: NodeView,
    inner: usize,
    narrow: Option<DType>,
    n: nat,
) -> (Seq<NodeView>, Seq<usize>)
    decreases n,
{
    if n == 0 {
        (dag, Seq::empty())
    } else {
        let (rest, list) = local_parts(dag, node, inner, narrow, (n - 1) as nat);
        let part = selected(dag, rest, inner, (n - 1) as usize);
        let reduced = put(part.dag, with_srcs(node, seq![part.id]));
        match narrow {
            Some(low) => {
                let cast = put(reduced.dag, cast_node(reduced.id, low));
                (cast.dag, list.push(cast.id))
            },
            None => (reduced.dag, list.push(reduced.id)),
        }
    }
}

/// A reduction along the axis that a value is split along: each device reduces
/// its part, and the results are reduced over all devices.
pub open spec fn collective(
    dag: Seq<NodeView>,
    node: NodeView,
    inner: usize,
    with: ReduceOp,
) -> Built {
    let narrow = narrow_type(dag, inner);
    let (more, list) = local_parts(dag, node, inner, narrow, part_count(dag, inner));
    let dtype = match narrow {
        Some(low) => low,
        None => node.dtype,
    };
    let stack = put(more, NodeView { op: Op::MStack, dtype, srcs: list });
    let all = put(
        stack.dag,
        NodeView { op: Op::AllReduce(with), dtype, srcs: seq![stack.id] },
    );
    match narrow {
        Some(_) => put(all.dag, cast_node(all.id, node.dtype)),
        None => all,
    }
}

/// Whether a reduction over all devices is supported: of at least two parts,
/// all alike, to their sum or their greatest.
pub open spec fn can_collect(dag: Seq<NodeView>, inner: usize, with: ReduceOp) -> bool {
    &&& with == ReduceOp::Add || with == ReduceOp::Max
    &&& part_count(dag, inner) >= 2
    &&& is_uniform(dag, stack_below(dag, inner).unwrap())
}

/// What is made of one node over split values. What cannot be computed device
/// by device is left alone.
pub open spec fn multi_rule(dag: Seq<NodeView>, id: usize) -> Built {
    let node = dag[id as int];
    let first = node.srcs[0];
    let none = Built { dag, id };
    match node.op {
        Op::MSelect(at) => if at < part_count(dag, first) {
            selected(dag, dag, first, at)
        } else {
            none
        },
        Op::Unary(_) | Op::Binary(_) | Op::Ternary(_) => match first_axis(
            dag,
            node.srcs,
            node.srcs.len(),
        ) {
            Some(axis) => if all_fit(dag, node.srcs, axis) {
                split(dag, local_node(dag, node), axis)
            } else {
                none
            },
            None => none,
        },
        Op::Cast | Op::BitCast | Op::Contiguous | Op::Detach | Op::ContiguousBackward => {
            match shard_axis(dag, first) {
                Some(axis) => split(dag, over_part(dag, node), axis),
                None => none,
            }
        },
        Op::Permute | Op::Flip | Op::Pad => match shard_axis(dag, first) {
            Some(axis) => match moved_axis(dag, node, axis) {
                Some(to) => split(dag, over_part(dag, node), to),
                None => none,
            },
            None => none,
        },
        Op::AxisReduce { with, count } => match shard_axis(dag, first) {
            Some(axis) => if node.srcs.len() != 1 || count == 0 {
                none
            } else if axis >= count {
                split(dag, over_part(dag, node), (axis - count) as usize)
            } else if can_collect(dag, dag[first as int].srcs[0], with) {
                collective(dag, node, dag[first as int].srcs[0], with)
            } else {
                none
            },
            None => none,
        },
        _ => none,
    }
}

fn find_axis(graph: &Graph, id: usize) -> (axis: Option<usize>)
    requires
        id < graph@.len(),
    ensures
        axis == shard_axis(graph@, id),
{
    match graph.op(id) {
        Op::Multi(axis) => Some(axis),
        _ => None,
    }
}

fn find_local(graph: &Graph, id: usize) -> (local: usize)
    requires
        graph.wf(),
        id < graph@.len(),
    ensures
        local == local_of(graph@, id),
        local <= id,
{
    proof {
        lemma_arity(graph@, id);
    }
    match graph.op(id) {
        Op::Multi(_) => graph.source(id, 0),
        _ => id,
    }
}

fn find_first_axis(graph: &Graph, srcs: &Vec<usize>) -> (axis: Option<usize>)
    requires
        forall|k: int| 0 <= k < srcs@.len() ==> (#[trigger] srcs@[k]) < graph@.len(),
    ensures
        axis == first_axis(graph@, srcs@, srcs@.len()),
{
    let mut found: Option<usize> = None;
    let mut n: usize = 0;
    while n < srcs.len()
        invariant
            forall|k: int| 0 <= k < srcs@.len() ==> (#[trigger] srcs@[k]) < graph@.len(),
            n <= srcs@.len(),
            found == first_axis(graph@, srcs@, n as nat),
        decreases srcs@.len() - n,
    {
        if found.is_none() {
            found = find_axis(graph, srcs[n]);
        }
        n += 1;
    }
    found
}

fn scalar(graph: &Graph, id: usize) -> (r: bool)
    requires
        graph.wf(),
        id < graph@.len(),
    ensures
        r == is_scalar(graph@, id),
{
    match find_dims(graph, id) {
        Some(list) => {
            let r: bool = list.len() == 0;
            proof {
                if r {
                    assert(list@ =~= Seq::<usize>::empty());
                }
            }
            r
        },
        None => false,
    }
}

fn operand_fits(graph: &Graph, id: usize, axis: usize) -> (r: bool)
    requires
        graph.wf(),
        id < graph@.len(),
    ensures
        r == fits_axis(graph@, id, axis),
{
    match graph.op(id) {
        Op::Multi(own) => own == axis,
        _ => scalar(graph, id),
    }
}

fn operands_fit(graph: &Graph, srcs: &Vec<usize>, axis: usize) -> (r: bool)
    requires
        graph.wf(),
        forall|k: int| 0 <= k < srcs@.len() ==> (#[trigger] srcs@[k]) < graph@.len(),
    ensures
        r == all_fit(graph@, srcs@, axis),
{
    let mut n: usize = 0;
    while n < srcs.len()
        invariant
            graph.wf(),
            forall|k: int| 0 <= k < srcs@.len() ==> (#[trigger] srcs@[k]) < graph@.len(),
            n <= srcs@.len(),
            forall|k: int| 0 <= k < n ==> fits_axis(graph@, #[trigger] srcs@[k], axis),
        decreases srcs@.len() - n,
    {
        if !operand_fits(graph, srcs[n], axis) {
            assert(!fits_axis(graph@, srcs@[n as int], axis));
            return false;
        }
        n += 1;
    }
    true
}

fn put_split(graph: &mut Graph, op: Op, dtype: DType, srcs: &Vec<usize>, axis: usize) -> (id: usize)
    requires
        old(graph).wf(),
        arity_ok(op, srcs@.len()),
        forall|k: int| 0 <= k < srcs@.len() ==> (#[trigger] srcs@[k]) < old(graph)@.len(),
    ensures
        grown(
            old(graph)@,
            *final(graph),
            split(old(graph)@, NodeView { op, dtype, srcs: srcs@ }, axis),
            id,
        ),
{
    let ghost dag = graph@;
    let part: usize = graph.node(op, dtype, srcs.as_slice());
    proof {
        lemma_interned_keeps(dag, NodeView { op, dtype, srcs: srcs@ });
    }
    let ghost held = graph@;
    let id: usize = graph.unary(Op::Multi(axis), dtype, part);
    proof {
        lemma_interned_keeps(
            held,
            NodeView { op: Op::Multi(axis), dtype, srcs: seq![part] },
        );
    }
    id
}

fn find_position(axes: &Vec<usize>, axis: usize) -> (at: Option<usize>)
    ensures
        at == position(axes@, axis, axes@.len()),
{
    let mut found: Option<usize> = None;
    let mut n: usize = 0;
    while n < axes.len()
        invariant
            n <= axes@.len(),
            found == position(axes@, axis, n as nat),
        decreases axes@.len() - n,
    {
        if found.is_none() && axes[n] == axis {
            found = Some(n);
        }
        n += 1;
    }
    found
}

fn no_pad(graph: &Graph, id: usize, axis: usize) -> (r: bool)
    requires
        graph.wf(),
        id < graph@.len(),
    ensures
        r == pads_nothing(graph@, id, axis),
{
    match graph.op(id) {
        Op::Stack => {
            if axis < graph.source_count(id) {
                match int_at(graph, graph.source(id, axis)) {
                    Some(n) => n == 0,
                    None => false,
                }
            } else {
                false
            }
        },
        _ => false,
    }
}

fn find_moved_axis(graph: &Graph, id: usize, axis: usize) -> (to: Option<usize>)
    requires
        graph.wf(),
        id < graph@.len(),
    ensures
        to == moved_axis(graph@, graph@[id as int], axis),
{
    proof {
        lemma_arity(graph@, id);
    }
    match graph.op(id) {
        Op::Permute => match sizes_from(graph, id, 1) {
            Some(axes) => find_position(&axes, axis),
            None => None,
        },
        Op::Flip => {
            let count: usize = graph.source_count(id);
            if axis < count - 1 {
                match graph.op(graph.source(id, axis + 1)) {
                    Op::Const(ConstValue::Bool(flipped)) => {
                        if flipped {
                            None
                        } else {
                            Some(axis)
                        }
                    },
                    _ => None,
                }
            } else {
                None
            }
        },
        Op::Pad => {
            if no_pad(graph, graph.source(id, 1), axis) && no_pad(graph, graph.source(id, 2), axis) {
                Some(axis)
            } else {
                None
            }
        },
        _ => None,
    }
}

fn movement(op: Op) -> (r: bool)
    ensures
        r == is_movement(op),
{
    match op {
        Op::Reshape | Op::Permute | Op::Flip | Op::Pad => true,
        _ => false,
    }
}

fn find_stack(graph: &Graph, id: usize) -> (stack: Option<usize>)
    requires
        graph.wf(),
        id < graph@.len(),
    ensures
        stack == stack_below(graph@, id),
        stack matches Some(x) ==> x <= id && graph@[x as int].op is MStack,
    decreases id,
{
    proof {
        lemma_arity(graph@, id);
    }
    let op = graph.op(id);
    match op {
        Op::MStack => {
            return Some(id);
        },
        _ => {},
    }
    if movement(op) {
        find_stack(graph, graph.source(id, 0))
    } else {
        None
    }
}

fn put_selected(graph: &mut Graph, Ghost(dag): Ghost<Seq<NodeView>>, id: usize, at: usize) -> (new:
    usize)
    requires
        old(graph).wf(),
        dag_wf(dag),
        extends(dag, old(graph)@),
        id < dag.len(),
        at < part_count(dag, id),
    ensures
        grown(old(graph)@, *final(graph), selected(dag, old(graph)@, id, at), new),
    decreases id,
{
    let ghost node = dag[id as int];
    proof {
        lemma_arity(dag, id);
        assert(graph@[id as int] == node);
    }
    let op = graph.op(id);
    match op {
        Op::MStack => {
            return graph.source(id, at);
        },
        _ => {},
    }
    let dtype = graph.dtype(id);
    let mut list = sources(graph, id);
    let below: usize = put_selected(graph, Ghost(dag), list[0], at);
    list.set(0, below);
    let ghost held = graph@;
    let new: usize = graph.node(op, dtype, list.as_slice());
    proof {
        lemma_interned_keeps(held, with_srcs(node, list@));
    }
    new
}

fn uniform(graph: &Graph, stack: usize) -> (r: bool)
    requires
        graph.wf(),
        stack < graph@.len(),
        graph@[stack as int].op is MStack,
    ensures
        r == is_uniform(graph@, stack),
{
    proof {
        lemma_arity(graph@, stack);
    }
    let srcs = sources(graph, stack);
    let first = find_dims(graph, srcs[0]);
    let dtype = graph.dtype(srcs[0]);
    let first: Vec<usize> = match first {
        Some(list) => list,
        None => {
            assert(dims(graph@, graph@[stack as int].srcs[0]) is None);
            return false;
        },
    };
    let mut n: usize = 0;
    while n < srcs.len()
        invariant
            graph.wf(),
            stack < graph@.len(),
            srcs@ == graph@[stack as int].srcs,
            srcs@.len() > 0,
            forall|k: int| 0 <= k < srcs@.len() ==> (#[trigger] srcs@[k]) < graph@.len(),
            dims(graph@, srcs@[0]) == Some(first@),
            dtype == graph@[srcs@[0] as int].dtype,
            n <= srcs@.len(),
            forall|k: int|
                0 <= k < n ==> dims(graph@, #[trigger] srcs@[k]) is Some && dims(graph@, srcs@[k])
                    == dims(graph@, srcs@[0]) && graph@[srcs@[k] as int].dtype
                    == graph@[srcs@[0] as int].dtype,
        decreases srcs@.len() - n,
    {
        let src: usize = srcs[n];
        let same: bool = match find_dims(graph, src) {
            Some(list) => same_list(&list, &first),
            None => false,
        };
        if !same || graph.dtype(src) != dtype {
            assert(srcs@[n as int] == src);
            return false;
        }
        n += 1;
    }
    true
}

fn widened(graph: &Graph, id: usize) -> (low: Option<DType>)
    requires
        graph.wf(),
        id < graph@.len(),
    ensures
        low is Some <==> is_widened(graph@, id),
        low matches Some(dtype) ==> dtype == graph@[graph@[id as int].srcs[0] as int].dtype,
{
    proof {
        lemma_arity(graph@, id);
    }
    match graph.op(id) {
        Op::Cast => {
            let low = graph.dtype(graph.source(id, 0));
            if graph.dtype(id) == DType::Float32 && (low == DType::Float16 || low
                == DType::BFloat16) {
                Some(low)
            } else {
                None
            }
        },
        _ => None,
    }
}

fn find_narrow(graph: &Graph, id: usize) -> (low: Option<DType>)
    requires
        graph.wf(),
        id < graph@.len(),
    ensures
        low == narrow_type(graph@, id),
{
    proof {
        lemma_arity(graph@, id);
    }
    match graph.op(id) {
        Op::MStack => {},
        _ => {
            return None;
        },
    }
    let srcs = sources(graph, id);
    let low: DType = match widened(graph, srcs[0]) {
        Some(low) => low,
        None => {
            assert(!is_widened(graph@, graph@[id as int].srcs[0]));
            return None;
        },
    };
    let mut n: usize = 0;
    while n < srcs.len()
        invariant
            graph.wf(),
            id < graph@.len(),
            srcs@ == graph@[id as int].srcs,
            srcs@.len() > 0,
            forall|k: int| 0 <= k < srcs@.len() ==> (#[trigger] srcs@[k]) < graph@.len(),
            low == graph@[graph@[srcs@[0] as int].srcs[0] as int].dtype,
            n <= srcs@.len(),
            forall|k: int|
                0 <= k < n ==> is_widened(graph@, #[trigger] srcs@[k])
                    && graph@[graph@[srcs@[k] as int].srcs[0] as int].dtype
                    == graph@[graph@[srcs@[0] as int].srcs[0] as int].dtype,
        decreases srcs@.len() - n,
    {
        let src: usize = srcs[n];
        let same: bool = match widened(graph, src) {
            Some(own) => own == low,
            None => false,
        };
        if !same {
            assert(srcs@[n as int] == src);
            return None;
        }
        n += 1;
    }
    Some(low)
}

fn put_collective(
    graph: &mut Graph,
    dtype: DType,
    inner: usize,
    with: ReduceOp,
    count: usize,
    parts: usize,
) -> (id: usize)
    requires
        old(graph).wf(),
        inner < old(graph)@.len(),
        parts == part_count(old(graph)@, inner),
        parts >= 1,
    ensures
        grown(
            old(graph)@,
            *final(graph),
            collective(
                old(graph)@,
                NodeView { op: Op::AxisReduce { with, count }, dtype, srcs: seq![inner] },
                inner,
                with,
            ),
            id,
        ),
{
    let ghost dag = graph@;
    let op = Op::AxisReduce { with, count };
    let ghost node = NodeView { op, dtype, srcs: seq![inner] };
    let narrow = find_narrow(graph, inner);
    let mut list: Vec<usize> = Vec::new();
    let mut n: usize = 0;
    while n < parts
        invariant
            graph.wf(),
            dag_wf(dag),
            extends(dag, graph@),
            inner < dag.len(),
            parts == part_count(dag, inner),
            op == (Op::AxisReduce { with, count }),
            node.op == op && node.dtype == dtype,
            n <= parts,
            (graph@, list@) == local_parts(dag, node, inner, narrow, n as nat),
            list@.len() == n,
            forall|k: int| 0 <= k < list@.len() ==> (#[trigger] list@[k]) < graph@.len(),
        decreases parts - n,
    {
        let part: usize = put_selected(graph, Ghost(dag), inner, n);
        let ghost held = graph@;
        let reduced: usize = graph.unary(op, dtype, part);
        proof {
            lemma_interned_keeps(held, with_srcs(node, seq![part]));
        }
        match narrow {
            Some(low) => {
                let ghost wide = graph@;
                let cast: usize = graph.cast(reduced, low);
                proof {
                    lemma_interned_keeps(wide, cast_node(reduced, low));
                }
                list.push(cast);
            },
            None => {
                list.push(reduced);
            },
        }
        n += 1;
    }
    let kind: DType = match narrow {
        Some(low) => low,
        None => dtype,
    };
    let ghost more = graph@;
    let stack: usize = graph.node(Op::MStack, kind, list.as_slice());
    proof {
        lemma_interned_keeps(more, NodeView { op: Op::MStack, dtype: kind, srcs: list@ });
    }
    let ghost stacked = graph@;
    let all: usize = graph.unary(Op::AllReduce(with), kind, stack);
    proof {
        lemma_interned_keeps(
            stacked,
            NodeView { op: Op::AllReduce(with), dtype: kind, srcs: seq![stack] },
        );
    }
    match narrow {
        Some(_) => {
            let ghost held = graph@;
            let id: usize = graph.cast(all, dtype);
            proof {
                lemma_interned_keeps(held, cast_node(all, dtype));
            }
            id
        },
        None => all,
    }
}

/// Computes one node over split values device by device; see `multi_rule`.
pub fn apply_multi_rule(graph: &mut Graph, id: usize) -> (new: usize)
    requires
        old(graph).wf(),
        id < old(graph)@.len(),
    ensures
        grown(old(graph)@, *final(graph), multi_rule(old(graph)@, id), new),
{
    let ghost dag = graph@;
    let ghost node = dag[id as int];
    proof {
        lemma_arity(dag, id);
    }
    let op = graph.op(id);
    let dtype = graph.dtype(id);
    match op {
        Op::MSelect(at) => {
            let first: usize = graph.source(id, 0);
            match find_stack(graph, first) {
                Some(stack) => {
                    if at < graph.source_count(stack) {
                        put_selected(graph, Ghost(dag), first, at)
                    } else {
                        id
                    }
                },
                None => id,
            }
        },
        Op::Unary(_) | Op::Binary(_) | Op::Ternary(_) => {
            let srcs = sources(graph, id);
            match find_first_axis(graph, &srcs) {
                Some(axis) => {
                    if !operands_fit(graph, &srcs, axis) {
                        return id;
                    }
                    let mut list: Vec<usize> = Vec::new();
                    let mut k: usize = 0;
                    while k < srcs.len()
                        invariant
                            graph.wf(),
                            dag == graph@,
                            node == dag[id as int],
                            id < dag.len(),
                            srcs@ == node.srcs,
                            forall|j: int|
                                0 <= j < srcs@.len() ==> (#[trigger] srcs@[j]) < dag.len(),
                            k <= srcs@.len(),
                            list@ == local_node(dag, node).srcs.take(k as int),
                            forall|j: int|
                                0 <= j < list@.len() ==> (#[trigger] list@[j]) < dag.len(),
                        decreases srcs@.len() - k,
                    {
                        let local: usize = find_local(graph, srcs[k]);
                        list.push(local);
                        k += 1;
                        assert(list@ =~= local_node(dag, node).srcs.take(k as int));
                    }
                    assert(list@ =~= local_node(dag, node).srcs);
                    put_split(graph, op, dtype, &list, axis)
                },
                None => id,
            }
        },
        Op::Cast | Op::BitCast | Op::Contiguous | Op::Detach | Op::ContiguousBackward => {
            let first: usize = graph.source(id, 0);
            match find_axis(graph, first) {
                Some(axis) => {
                    let mut list = sources(graph, id);
                    let part: usize = find_local(graph, first);
                    list.set(0, part);
                    put_split(graph, op, dtype, &list, axis)
                },
                None => id,
            }
        },
        Op::Permute | Op::Flip | Op::Pad => {
            let first: usize = graph.source(id, 0);
            match find_axis(graph, first) {
                Some(axis) => match find_moved_axis(graph, id, axis) {
                    Some(to) => {
                        let mut list = sources(graph, id);
                        let part: usize = find_local(graph, first);
                        list.set(0, part);
                        put_split(graph, op, dtype, &list, to)
                    },
                    None => id,
                },
                None => id,
            }
        },
        Op::AxisReduce { with, count } => {
            let first: usize = graph.source(id, 0);
            match find_axis(graph, first) {
                Some(axis) => {
                    if graph.source_count(id) != 1 || count == 0 {
                        return id;
                    }
                    let inner: usize = find_local(graph, first);
                    if axis >= count {
                        let mut list = sources(graph, id);
                        list.set(0, inner);
                        return put_split(graph, op, dtype, &list, axis - count);
                    }
                    if !collectable(graph, inner, with) {
                        return id;
                    }
                    let parts: usize = match find_stack(graph, inner) {
                        Some(stack) => graph.source_count(stack),
                        None => 0,
                    };
                    assert(collective(dag, node, inner, with) == collective(
                        dag,
                        NodeView { op, dtype, srcs: seq![inner] },
                        inner,
                        with,
                    )) by {
                        lemma_collective_parts(
                            dag,
                            node,
                            NodeView { op, dtype, srcs: seq![inner] },
                            inner,
                            narrow_type(dag, inner),
                            part_count(dag, inner),
                        );
                    }
                    put_collective(graph, dtype, inner, with, count, parts)
                },
                None => id,
            }
        },
        _ => id,
    }
}

proof fn lemma_collective_parts(
    dag: Seq<NodeView>,
    a: NodeView,
    b: NodeView,
    inner: usize,
    narrow: Option<DType>,
    n: nat,
)
    requires
        a.op == b.op,
        a.dtype == b.dtype,
    ensures
        local_parts(dag, a, inner, narrow, n) == local_parts(dag, b, inner, narrow, n),
    decreases n,
{
    if n > 0 {
        lemma_collective_parts(dag, a, b, inner, narrow, (n - 1) as nat);
    }
}

fn collectable(graph: &Graph, inner: usize, with: ReduceOp) -> (r: bool)
    requires
        graph.wf(),
        inner < graph@.len(),
    ensures
        r == can_collect(graph@, inner, with),
{
    let supported: bool = match with {
        ReduceOp::Add | ReduceOp::Max => true,
        _ => false,
    };
    if !supported {
        return false;
    }
    match find_stack(graph, inner) {
        Some(stack) => graph.source_count(stack) >= 2 && uniform(graph, stack),
        None => false,
    }
}

/// The operations that an error about split values names.
#[derive(Clone, Copy, Debug, PartialEq, Eq, Structural)]
pub enum Operation {
    Reshape,
    Permute,
    Flip,
    Pad,
    Multi,
    AllReduce,
}

/// Why an operation on split values is not supported.
#[derive(Clone, Copy, Debug, PartialEq, Eq, Structural)]
pub enum Reason {
    ShardsDiffer,
    CollectiveDType,
}

/// What is wrong with a graph over split values.
#[derive(Clone, Copy, Debug, PartialEq, Eq, Structural)]
pub enum MultiError {
    /// Operands are split along different axes.
    AxisMismatch { left: usize, right: usize },
    /// A split value is split again.
    Nested,
    /// Elements are moved across the border between devices.
    MovementUnsupported { operation: Operation, axis: usize },
    /// An operand that is not a scalar is not split as the others are.
    LayoutMissing { axis: usize },
    /// A reduction along the axis of the split that cannot be collected.
    ReductionAcrossShardAxis { axis: usize },
    /// What is not supported for another reason.
    Unsupported { operation: Operation, reason: Reason },
}

/// A reason in words.
pub open spec fn reason_words(reason: Reason) -> Seq<char> {
    match reason {
        Reason::ShardsDiffer => "shards must have identical dtype and shape"@,
        Reason::CollectiveDType => "host collective dtype is not supported"@,
    }
}

/// A reason in words.
pub fn reason_text(reason: Reason) -> (text: &'static str)
    ensures
        text@ == reason_words(reason),
{
    match reason {
        Reason::ShardsDiffer => "shards must have identical dtype and shape",
        Reason::CollectiveDType => "host collective dtype is not supported",
    }
}

/// The first of the first `n` operands that does not go with values that are
/// split along an axis, as an error.
pub open spec fn operand_error(
    dag: Seq<NodeView>,
    srcs: Seq<usize>,
    axis: usize,
    n: nat,
) -> Option<MultiError>
    decreases n,
{
    if n == 0 {
        None
    } else {
        match operand_error(dag, srcs, axis, (n - 1) as nat) {
            Some(error) => Some(error),
            None => if fits_axis(dag, srcs[n - 1], axis) {
                None
            } else {
                match shard_axis(dag, srcs[n - 1]) {
                    Some(other) => Some(MultiError::AxisMismatch { left: axis, right: other }),
                    None => Some(MultiError::LayoutMissing { axis }),
                }
            },
        }
    }
}

/// What is wrong with a node over split values.
pub open spec fn node_error(dag: Seq<NodeView>, id: usize) -> Option<MultiError> {
    let node = dag[id as int];
    let first = node.srcs[0];
    match node.op {
        Op::Multi(_) => if dag[first as int].op is Multi {
            Some(MultiError::Nested)
        } else {
            None
        },
        Op::Unary(_) | Op::Binary(_) | Op::Ternary(_) => match first_axis(
            dag,
            node.srcs,
            node.srcs.len(),
        ) {
            Some(axis) => operand_error(dag, node.srcs, axis, node.srcs.len()),
            None => None,
        },
        Op::Reshape | Op::Permute | Op::Flip | Op::Pad => match shard_axis(dag, first) {
            Some(axis) => match moved_axis(dag, node, axis) {
                Some(_) => None,
                None => Some(
                    MultiError::MovementUnsupported { operation: named(node.op), axis },
                ),
            },
            None => None,
        },
        Op::AxisReduce { with, count } => match shard_axis(dag, first) {
            Some(axis) => if node.srcs.len() != 1 || axis >= count {
                None
            } else {
                reduction_error(dag, dag[first as int].srcs[0], with, axis)
            },
            None => None,
        },
        Op::AllReduce(_) => if node.dtype == DType::Bool {
            Some(
                MultiError::Unsupported {
                    operation: Operation::AllReduce,
                    reason: Reason::CollectiveDType,
                },
            )
        } else {
            None
        },
        _ => None,
    }
}

/// The name of an operation that moves elements about.
pub open spec fn named(op: Op) -> Operation {
    match op {
        Op::Permute => Operation::Permute,
        Op::Flip => Operation::Flip,
        Op::Pad => Operation::Pad,
        _ => Operation::Reshape,
    }
}

/// What is wrong with a reduction along the axis of the split.
pub open spec fn reduction_error(
    dag: Seq<NodeView>,
    inner: usize,
    with: ReduceOp,
    axis: usize,
) -> Option<MultiError> {
    if part_count(dag, inner) >= 2 && !is_uniform(dag, stack_below(dag, inner).unwrap()) {
        Some(
            MultiError::Unsupported { operation: Operation::Multi, reason: Reason::ShardsDiffer },
        )
    } else if can_collect(dag, inner, with) {
        None
    } else {
        Some(MultiError::ReductionAcrossShardAxis { axis })
    }
}

/// The first error among the first `n` nodes of a walk.
pub open spec fn first_fault(dag: Seq<NodeView>, walk: Seq<usize>, n: nat) -> Option<MultiError>
    decreases n,
{
    if n == 0 {
        None
    } else {
        match first_fault(dag, walk, (n - 1) as nat) {
            Some(error) => Some(error),
            None => node_error(dag, walk[n - 1]),
        }
    }
}

fn operand_fault(graph: &Graph, srcs: &Vec<usize>, axis: usize) -> (error: Option<MultiError>)
    requires
        graph.wf(),
        forall|k: int| 0 <= k < srcs@.len() ==> (#[trigger] srcs@[k]) < graph@.len(),
    ensures
        error == operand_error(graph@, srcs@, axis, srcs@.len()),
{
    let mut found: Option<MultiError> = None;
    let mut n: usize = 0;
    while n < srcs.len()
        invariant
            graph.wf(),
            forall|k: int| 0 <= k < srcs@.len() ==> (#[trigger] srcs@[k]) < graph@.len(),
            n <= srcs@.len(),
            found == operand_error(graph@, srcs@, axis, n as nat),
        decreases srcs@.len() - n,
    {
        if found.is_none() && !operand_fits(graph, srcs[n], axis) {
            found = match find_axis(graph, srcs[n]) {
                Some(other) => Some(MultiError::AxisMismatch { left: axis, right: other }),
                None => Some(MultiError::LayoutMissing { axis }),
            };
        }
        n += 1;
    }
    found
}

fn fault(graph: &Graph, id: usize) -> (error: Option<MultiError>)
    requires
        graph.wf(),
        id < graph@.len(),
    ensures
        error == node_error(graph@, id),
{
    proof {
        lemma_arity(graph@, id);
    }
    let op = graph.op(id);
    match op {
        Op::Multi(_) => match graph.op(graph.source(id, 0)) {
            Op::Multi(_) => Some(MultiError::Nested),
            _ => None,
        },
        Op::Unary(_) | Op::Binary(_) | Op::Ternary(_) => {
            let srcs = sources(graph, id);
            match find_first_axis(graph, &srcs) {
                Some(axis) => operand_fault(graph, &srcs, axis),
                None => None,
            }
        },
        Op::Reshape | Op::Permute | Op::Flip | Op::Pad => {
            match find_axis(graph, graph.source(id, 0)) {
                Some(axis) => match find_moved_axis(graph, id, axis) {
                    Some(_) => None,
                    None => {
                        let operation: Operation = match op {
                            Op::Permute => Operation::Permute,
                            Op::Flip => Operation::Flip,
                            Op::Pad => Operation::Pad,
                            _ => Operation::Reshape,
                        };
                        Some(MultiError::MovementUnsupported { operation, axis })
                    },
                },
                None => None,
            }
        },
        Op::AxisReduce { with, count } => {
            let first: usize = graph.source(id, 0);
            match find_axis(graph, first) {
                Some(axis) => {
                    if graph.source_count(id) != 1 || axis >= count {
                        return None;
                    }
                    let inner: usize = find_local(graph, first);
                    match find_stack(graph, inner) {
                        Some(stack) => {
                            if graph.source_count(stack) >= 2 && !uniform(graph, stack) {
                                return Some(
                                    MultiError::Unsupported {
                                        operation: Operation::Multi,
                                        reason: Reason::ShardsDiffer,
                                    },
                                );
                            }
                        },
                        None => {},
                    }
                    if collectable(graph, inner, with) {
                        None
                    } else {
                        Some(MultiError::ReductionAcrossShardAxis { axis })
                    }
                },
                None => None,
            }
        },
        Op::AllReduce(_) => {
            if graph.dtype(id) == DType::Bool {
                Some(
                    MultiError::Unsupported {
                        operation: Operation::AllReduce,
                        reason: Reason::CollectiveDType,
                    },
                )
            } else {
                None
            }
        },
        _ => None,
    }
}

proof fn lemma_first_fault(dag: Seq<NodeView>, walk: Seq<usize>, k: nat, n: nat)
    requires
        k <= n,
        first_fault(dag, walk, k) is Some,
    ensures
        first_fault(dag, walk, n) == first_fault(dag, walk, k),
    decreases n,
{
    if k < n {
        lemma_first_fault(dag, walk, k, (n - 1) as nat);
    }
}

/// Whether everything at and below a root can be computed over split values;
/// if not, the first thing that is wrong, sources first.
pub fn validate_supported_subset(graph: &Graph, root: usize) -> (result: Result<(), MultiError>)
    requires
        graph.wf(),
        root < graph@.len(),
    ensures
        match result {
            Ok(()) => first_fault(graph@, topo(graph@, root), topo(graph@, root).len()) is None,
            Err(error) => first_fault(graph@, topo(graph@, root), topo(graph@, root).len()) == Some(
                error,
            ),
        },
{
    let walk = graph.toposort(root);
    proof {
        lemma_topo(graph@, root);
    }
    let mut n: usize = 0;
    while n < walk.len()
        invariant
            graph.wf(),
            walk@ == topo(graph@, root),
            forall|p: int| 0 <= p < walk@.len() ==> (#[trigger] walk@[p]) < graph@.len(),
            n <= walk@.len(),
            first_fault(graph@, walk@, n as nat) is None,
        decreases walk@.len() - n,
    {
        match fault(graph, walk[n]) {
            Some(error) => {
                proof {
                    lemma_first_fault(graph@, walk@, (n + 1) as nat, walk@.len());
                }
                return Err(error);
            },
            None => {},
        }
        n += 1;
    }
    Ok(())
}

/// The first `n` parts of a stack, made contiguous.
pub open spec fn contiguous_parts(
    dag: Seq<NodeView>,
    dtype: DType,
    srcs: Seq<usize>,
    n: nat,
) -> (Seq<NodeView>, Seq<usize>)
    decreases n,
{
    if n == 0 {
        (dag, Seq::empty())
    } else {
        let (rest, list) = contiguous_parts(dag, dtype, srcs, (n - 1) as nat);
        let part = put(
            rest,
            NodeView { op: Op::Contiguous, dtype, srcs: seq![srcs[n - 1]] },
        );
        (part.dag, list.push(part.id))
    }
}

/// The first `n` parameters of a collective.
pub open spec fn collective_params(dag: Seq<NodeView>, dtype: DType, n: nat) -> (
    Seq<NodeView>,
    Seq<usize>,
)
    decreases n,
{
    if n == 0 {
        (dag, Seq::empty())
    } else {
        let (rest, list) = collective_params(dag, dtype, (n - 1) as nat);
        let param = put(
            rest,
            NodeView {
                op: Op::Param { slot: (n - 1) as usize, addrspace: None },
                dtype,
                srcs: Seq::empty(),
            },
        );
        (param.dag, list.push(param.id))
    }
}

/// A reduction over all devices becomes a call of the host's collective on the
/// parts; the first part is also what the result is written to.
pub open spec fn lower_rule(dag: Seq<NodeView>, id: usize) -> Built {
    let node = dag[id as int];
    match node.op {
        Op::AllReduce(with) => if dag[node.srcs[0] as int].op is MStack {
            let srcs = dag[node.srcs[0] as int].srcs;
            let (held, parts) = contiguous_parts(dag, node.dtype, srcs, srcs.len());
            let (more, params) = collective_params(held, node.dtype, (srcs.len() + 1) as nat);
            let body = put(
                more,
                NodeView { op: Op::Collective(with), dtype: DType::Void, srcs: params },
            );
            let call = put(
                body.dag,
                NodeView {
                    op: Op::Call,
                    dtype: DType::Void,
                    srcs: seq![body.id, parts[0]] + parts,
                },
            );
            put(
                call.dag,
                NodeView { op: Op::After, dtype: node.dtype, srcs: seq![parts[0], call.id] },
            )
        } else {
            Built { dag, id }
        },
        _ => Built { dag, id },
    }
}

/// Lowers a reduction over all devices; see `lower_rule`.
pub fn apply_lower_rule(graph: &mut Graph, id: usize) -> (new: usize)
    requires
        old(graph).wf(),
        id < old(graph)@.len(),
    ensures
        grown(old(graph)@, *final(graph), lower_rule(old(graph)@, id), new),
{
    let ghost dag = graph@;
    proof {
        lemma_arity(dag, id);
    }
    let with: ReduceOp = match graph.op(id) {
        Op::AllReduce(with) => with,
        _ => {
            return id;
        },
    };
    let dtype = graph.dtype(id);
    let stack: usize = graph.source(id, 0);
    match graph.op(stack) {
        Op::MStack => {},
        _ => {
            return id;
        },
    }
    proof {
        lemma_arity(dag, stack);
    }
    let srcs = sources(graph, stack);
    let mut parts: Vec<usize> = Vec::new();
    let mut n: usize = 0;
    while n < srcs.len()
        invariant
            graph.wf(),
            extends(dag, graph@),
            forall|k: int| 0 <= k < srcs@.len() ==> (#[trigger] srcs@[k]) < dag.len(),
            n <= srcs@.len(),
            (graph@, parts@) == contiguous_parts(dag, dtype, srcs@, n as nat),
            parts@.len() == n,
            forall|k: int| 0 <= k < parts@.len() ==> (#[trigger] parts@[k]) < graph@.len(),
        decreases srcs@.len() - n,
    {
        let ghost held = graph@;
        let part: usize = graph.unary(Op::Contiguous, dtype, srcs[n]);
        proof {
            lemma_interned_keeps(
                held,
                NodeView { op: Op::Contiguous, dtype, srcs: seq![srcs@[n as int]] },
            );
        }
        parts.push(part);
        n += 1;
    }
    let ghost held = graph@;
    let mut params: Vec<usize> = Vec::new();
    let mut slot: usize = 0;
    let mut more: bool = true;
    while more
        invariant
            graph.wf(),
            extends(dag, held),
            extends(held, graph@),
            slot <= srcs@.len(),
            srcs@.len() <= usize::MAX,
            more ==> (graph@, params@) == collective_params(held, dtype, slot as nat)
                && params@.len() == slot,
            !more ==> (graph@, params@) == collective_params(
                held,
                dtype,
                (srcs@.len() + 1) as nat,
            ),
            forall|k: int| 0 <= k < params@.len() ==> (#[trigger] params@[k]) < graph@.len(),
        decreases
                (if more {
                    srcs@.len() - slot + 1
                } else {
                    0
                }),
    {
        let ghost before = graph@;
        let param: usize = graph.leaf(Op::Param { slot, addrspace: None }, dtype);
        proof {
            lemma_interned_keeps(
                before,
                NodeView {
                    op: Op::Param { slot, addrspace: None },
                    dtype,
                    srcs: Seq::empty(),
                },
            );
        }
        params.push(param);
        if slot < srcs.len() {
            slot += 1;
        } else {
            more = false;
        }
    }
    let ghost wide = graph@;
    let body: usize = graph.node(Op::Collective(with), DType::Void, params.as_slice());
    proof {
        lemma_interned_keeps(
            wide,
            NodeView { op: Op::Collective(with), dtype: DType::Void, srcs: params@ },
        );
    }
    let output: usize = parts[0];
    let mut args: Vec<usize> = Vec::new();
    args.push(output);
    let mut k: usize = 0;
    while k < parts.len()
        invariant
            k <= parts@.len(),
            output < graph@.len(),
            forall|j: int| 0 <= j < parts@.len() ==> (#[trigger] parts@[j]) < graph@.len(),
            args@ == seq![output] + parts@.take(k as int),
            forall|j: int| 0 <= j < args@.len() ==> (#[trigger] args@[j]) < graph@.len(),
        decreases parts@.len() - k,
    {
        args.push(parts[k]);
        k += 1;
        assert(args@ =~= seq![output] + parts@.take(k as int));
    }
    assert(parts@.take(parts@.len() as int) =~= parts@);
    let ghost bodied = graph@;
    let call: usize = graph.led(Op::Call, DType::Void, body, args.as_slice());
    proof {
        assert(seq![body] + args@ =~= seq![body, output] + parts@);
        lemma_interned_keeps(
            bodied,
            NodeView { op: Op::Call, dtype: DType::Void, srcs: seq![body, output] + parts@ },
        );
    }
    let ghost called = graph@;
    let new: usize = graph.binary(Op::After, dtype, output, call);
    proof {
        lemma_interned_keeps(
            called,
            NodeView { op: Op::After, dtype, srcs: seq![output, call] },
        );
    }
    new
}

/// Whether no reduction over all devices is left at and below a root.
pub fn validate_no_unresolved_allreduce(graph: &Graph, root: usize) -> (clean: bool)
    requires
        graph.wf(),
        root < graph@.len(),
    ensures
        clean == forall|x: usize|
            reaches(graph@, root, x) ==> !((#[trigger] graph@[x as int]).op is AllReduce),
{
    let walk = graph.toposort(root);
    proof {
        lemma_topo(graph@, root);
    }
    let mut n: usize = 0;
    while n < walk.len()
        invariant
            graph.wf(),
            walk@ == topo(graph@, root),
            forall|p: int| 0 <= p < walk@.len() ==> (#[trigger] walk@[p]) < graph@.len(),
            forall|x: usize| #[trigger] walk@.contains(x) <==> reaches(graph@, root, x),
            n <= walk@.len(),
            forall|p: int|
                0 <= p < n ==> !(graph@[(#[trigger] walk@[p]) as int].op is AllReduce),
        decreases walk@.len() - n,
    {
        match graph.op(walk[n]) {
            Op::AllReduce(_) => {
                proof {
                    let x = walk@[n as int];
                    assert(walk@.contains(x));
                    assert(graph@[x as int].op is AllReduce);
                }
                return false;
            },
            _ => {},
        }
        n += 1;
    }
    proof {
        assert forall|x: usize| reaches(graph@, root, x) implies !((
        #[trigger] graph@[x as int]).op is AllReduce) by {
            assert(walk@.contains(x));
            let p = choose|p: int| 0 <= p < walk@.len() && walk@[p] == x;
            assert(walk@[p] == x);
        }
    }
    true
}

/// A graph for one device, with nothing split and no part selected, is left as
/// it is.
pub proof fn lemma_single_device_is_left_alone(dag: Seq<NodeView>, root: usize)
    requires
        dag_wf(dag),
        root < dag.len() <= usize::MAX,
        forall|x: usize|
            reaches(dag, root, x) ==> !((#[trigger] dag[x as int]).op is Multi)
                && !(dag[x as int].op is MSelect),
    ensures
        rewritten(Pass::Multi, dag, root) == (Built { dag, id: root }),
{
    assert forall|i: usize| reaches(dag, root, i) implies #[trigger] rule(Pass::Multi, dag, i) == (
    Built { dag, id: i }) by {
        lemma_reaches_below(dag, root, i);
        let node = dag[i as int];
        lemma_arity(dag, i);
        assert forall|k: int| 0 <= k < node.srcs.len() implies !(dag[(
        #[trigger] node.srcs[k]) as int].op is Multi) by {
            assert(dag[i as int].srcs[k] < i);
            assert(reaches(dag, node.srcs[k], node.srcs[k]));
            assert(reaches(dag, i, node.srcs[k]));
            lemma_reaches_transitive(dag, root, i, node.srcs[k]);
        }
        lemma_no_axis(dag, node.srcs, node.srcs.len());
    }
    lemma_settled_graph_is_kept(Pass::Multi, dag, root);
}

proof fn lemma_no_axis(dag: Seq<NodeView>, srcs: Seq<usize>, n: nat)
    requires
        n <= srcs.len(),
        forall|k: int|
            0 <= k < srcs.len() ==> !(dag[(#[trigger] srcs[k]) as int].op is Multi),
    ensures
        first_axis(dag, srcs, n) is None,
    decreases n,
{
    if n > 0 {
        lemma_no_axis(dag, srcs, (n - 1) as nat);
        assert(!(dag[srcs[n - 1] as int].op is Multi));
    }
}

/// What the rewrite splits it does not reject: a node that is computed device
/// by device has no error.
pub proof fn lemma_rewritten_is_supported(dag: Seq<NodeView>, id: usize)
    requires
        dag_wf(dag),
        id < dag.len(),
        multi_rule(dag, id) != (Built { dag, id }),
    ensures
        node_error(dag, id) is None,
{
    let node = dag[id as int];
    lemma_arity(dag, id);
    match first_axis(dag, node.srcs, node.srcs.len()) {
        Some(axis) => {
            if all_fit(dag, node.srcs, axis) {
                lemma_no_operand_error(dag, node.srcs, axis, node.srcs.len());
            }
        },
        None => {},
    }
}

proof fn lemma_no_operand_error(dag: Seq<NodeView>, srcs: Seq<usize>, axis: usize, n: nat)
    requires
        all_fit(dag, srcs, axis),
        n <= srcs.len(),
    ensures
        operand_error(dag, srcs, axis, n) is None,
    decreases n,
{
    if n > 0 {
        lemma_no_operand_error(dag, srcs, axis, (n - 1) as nat);
        assert(fits_axis(dag, srcs[n - 1], axis));
    }
}

} // verus!
