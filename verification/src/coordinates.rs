//! Loops of a graph that become coordinates: values that hold every count.

use vstd::prelude::*;

use crate::builders::{const_node, lemma_interned_keeps, put, Built};
use crate::expand::{coordinate, find_coordinate, is_shaped};
use crate::graph::{
    dag_wf, lemma_id_of, AxisId, AxisType, ConstValue, DType, Graph, NodeView, Op,
};
use crate::meaning::lemma_arity;
use crate::pad::Listed;
use crate::passes::{extends, grown, with_srcs, Walked};
use crate::product::{expanded_wmma, product_plan, put_expanded};
use crate::scope::{in_scope, row_ok};
use crate::shape::{dims, find_dims};
use crate::subst::{
    find_visible, is_body, is_opaque, lemma_visible_source, moved_outside, opaque_op, visible,
};
use crate::topo::{lemma_reaches_below, lemma_topo, ordered, reaches, topo};

verus! {

/// The axes that loops among the first `n` nodes of a walk become, each once.
pub open spec fn loop_axes(dag: Seq<NodeView>, walk: Seq<usize>, n: nat) -> Seq<AxisId>
    decreases n,
{
    if n == 0 {
        Seq::empty()
    } else {
        let rest = loop_axes(dag, walk, (n - 1) as nat);
        match dag[walk[n - 1] as int].op {
            Op::Range { axis, kind } => if is_shaped(kind) && !rest.contains(axis) {
                rest.push(axis)
            } else {
                rest
            },
            _ => rest,
        }
    }
}

/// The operations that keep the loops that they name.
pub open spec fn keeps_loops(op: Op) -> bool {
    op is End || op is Stage || op is AxisReduce
}

/// Whether a node of a walk keeps a loop.
pub open spec fn is_kept(dag: Seq<NodeView>, walk: Seq<usize>, id: usize) -> bool {
    exists|p: int, k: int|
        #![trigger dag[walk[p] as int].srcs[k]]
        0 <= p < walk.len() && 1 <= k < dag[walk[p] as int].srcs.len() && keeps_loops(
            dag[walk[p] as int].op,
        ) && dag[walk[p] as int].srcs[k] == id
}

/// Whether a node is a loop that is to become an axis of values, along `axis`.
pub open spec fn is_along(node: NodeView, axis: AxisId) -> bool {
    match node.op {
        Op::Range { axis: own, kind } => is_shaped(kind) && own == axis,
        _ => false,
    }
}

/// Whether another loop of a walk is along the same axis.
pub open spec fn is_shared(dag: Seq<NodeView>, walk: Seq<usize>, id: usize, axis: AxisId) -> bool {
    exists|p: int|
        0 <= p < walk.len() && walk[p] != id && is_along(dag[#[trigger] walk[p] as int], axis)
}

/// The place of its axis and the extent of a loop that becomes coordinates: its
/// kind says so, its extent is a positive constant, it has its axis for itself,
/// and no node keeps it as a loop.
pub open spec fn coordinate_of(
    dag: Seq<NodeView>,
    walk: Seq<usize>,
    axes: Seq<AxisId>,
    id: usize,
) -> Option<(usize, i64)> {
    match dag[id as int].op {
        Op::Range { axis, kind } => match (
            coordinate(axes, axis),
            dag[dag[id as int].srcs[0] as int].op,
        ) {
            (Some(at), Op::Const(ConstValue::Int(extent))) => if is_shaped(kind) && extent > 0
                && !is_kept(dag, walk, id) && !is_shared(dag, walk, id, axis) {
                Some((at, extent))
            } else {
                None
            },
            _ => None,
        },
        _ => None,
    }
}

/// Constants of a type.
pub open spec fn numbers(dag: Seq<NodeView>, list: Seq<i64>, dtype: DType, n: nat) -> Listed
    decreases n,
{
    if n == 0 {
        Listed { dag, srcs: Seq::empty() }
    } else {
        let rest = numbers(dag, list, dtype, (n - 1) as nat);
        let last = put(rest.dag, const_node(ConstValue::Int(list[n - 1]), dtype));
        Listed { dag: last.dag, srcs: rest.srcs.push(last.id) }
    }
}

/// A stack of constants.
pub open spec fn number_stack(dag: Seq<NodeView>, list: Seq<i64>, dtype: DType) -> Built {
    let parts = numbers(dag, list, dtype, list.len());
    put(parts.dag, NodeView { op: Op::Stack, dtype, srcs: parts.srcs })
}

/// The numbers from zero up to an extent.
pub open spec fn counts_to(extent: i64) -> Seq<i64> {
    Seq::new(extent as nat, |i: int| i as i64)
}

/// A shape of `len` axes: an extent at one of them, and one everywhere else.
pub open spec fn axis_dims(len: nat, at: int, extent: i64) -> Seq<i64> {
    Seq::new(
        len,
        |i: int|
            if i == at {
                extent
            } else {
                1i64
            },
    )
}

/// Every count of a loop, along the axis at place `at` of `len`.
pub open spec fn coordinates(
    dag: Seq<NodeView>,
    dtype: DType,
    len: nat,
    at: int,
    extent: i64,
) -> Built {
    let stack = number_stack(dag, counts_to(extent), dtype);
    if len == 1 {
        stack
    } else {
        let shape = number_stack(stack.dag, axis_dims(len, at, extent), DType::WeakInt);
        put(shape.dag, NodeView { op: Op::Reshape, dtype, srcs: seq![stack.id, shape.id] })
    }
}

/// The extents of the axes that a node counts along, over the loops among the
/// first `n` nodes of a walk; the other axes have one place.
pub open spec fn dims_of(
    dag: Seq<NodeView>,
    walk: Seq<usize>,
    axes: Seq<AxisId>,
    id: usize,
    n: nat,
) -> Seq<i64>
    decreases n,
{
    if n == 0 {
        Seq::new(axes.len(), |i: int| 1i64)
    } else {
        let rest = dims_of(dag, walk, axes, id, (n - 1) as nat);
        match coordinate_of(dag, walk, axes, walk[n - 1]) {
            Some((at, extent)) => if in_scope(dag, id, walk[n - 1]) {
                rest.update(at as int, extent)
            } else {
                rest
            },
            None => rest,
        }
    }
}

/// The place of the axis that a reduction takes away with its source `k`: a
/// loop that becomes coordinates, along which the value counts.
pub open spec fn taken_place(
    dag: Seq<NodeView>,
    walk: Seq<usize>,
    axes: Seq<AxisId>,
    id: usize,
    k: int,
) -> Option<i64> {
    let srcs = dag[id as int].srcs;
    match coordinate_of(dag, walk, axes, srcs[k]) {
        Some((at, _)) => if in_scope(dag, srcs[0], srcs[k]) {
            Some(at as i64)
        } else {
            None
        },
        None => None,
    }
}

/// The places of the axes that a reduction takes away with its sources before
/// `n`, each once.
pub open spec fn taken_places(
    dag: Seq<NodeView>,
    walk: Seq<usize>,
    axes: Seq<AxisId>,
    id: usize,
    n: nat,
) -> Seq<i64>
    decreases n,
{
    if n <= 1 {
        Seq::empty()
    } else {
        let rest = taken_places(dag, walk, axes, id, (n - 1) as nat);
        match taken_place(dag, walk, axes, id, n - 1) {
            Some(at) => if rest.contains(at) {
                rest
            } else {
                rest.push(at)
            },
            None => rest,
        }
    }
}

/// The loops before source `n` that a reduction still runs over. One that
/// becomes coordinates, but not of the value, stays a loop here.
pub open spec fn left_loops(
    dag: Seq<NodeView>,
    walk: Seq<usize>,
    axes: Seq<AxisId>,
    id: usize,
    srcs: Seq<usize>,
    n: nat,
) -> Seq<usize>
    decreases n,
{
    if n <= 1 {
        Seq::empty()
    } else {
        let rest = left_loops(dag, walk, axes, id, srcs, (n - 1) as nat);
        let own = dag[id as int].srcs[n - 1];
        if taken_place(dag, walk, axes, id, n - 1) is Some {
            rest
        } else if coordinate_of(dag, walk, axes, own) is Some {
            rest.push(own)
        } else {
            rest.push(srcs[n - 1])
        }
    }
}

/// The places below `n` that are not in a list.
pub open spec fn other_places(taken: Seq<i64>, n: nat) -> Seq<i64>
    decreases n,
{
    if n == 0 {
        Seq::empty()
    } else {
        let rest = other_places(taken, (n - 1) as nat);
        if taken.contains((n - 1) as i64) {
            rest
        } else {
            rest.push((n - 1) as i64)
        }
    }
}

/// A value with its axes in another order.
pub open spec fn reordered(dag: Seq<NodeView>, value: usize, dtype: DType, order: Seq<i64>) -> Built {
    let parts = numbers(dag, order, DType::WeakInt, order.len());
    put(parts.dag, NodeView { op: Op::Permute, dtype, srcs: seq![value] + parts.srcs })
}

/// A reduction over the leading axes of a value and over loops, with one place
/// where the axes were.
pub open spec fn leading_reduce(
    dag: Seq<NodeView>,
    op: Op,
    dtype: DType,
    value: usize,
    loops: Seq<usize>,
    dims: Seq<i64>,
) -> Built {
    let total = put(dag, NodeView { op, dtype, srcs: seq![value] + loops });
    let shape = number_stack(total.dag, dims, DType::WeakInt);
    put(shape.dag, NodeView { op: Op::Reshape, dtype, srcs: seq![total.id, shape.id] })
}

/// Whether a node reads one element of a buffer.
pub open spec fn reads_at(dag: Seq<NodeView>, id: usize, buffer: usize, at: i64) -> bool {
    let node = dag[id as int];
    &&& node.op is Index
    &&& node.srcs.len() == 2
    &&& node.srcs[0] == buffer
    &&& dag[node.srcs[1] as int].op == Op::Const(ConstValue::Int(at))
}

/// The buffer of which some nodes read every element, in order.
pub open spec fn whole_of(dag: Seq<NodeView>, srcs: Seq<usize>) -> Option<usize> {
    let buffer = dag[srcs[0] as int].srcs[0];
    if srcs.len() > 0 && (forall|i: int|
        0 <= i < srcs.len() ==> reads_at(dag, #[trigger] srcs[i], buffer, i as i64)) && dims(
        dag,
        buffer,
    ) == Some(seq![srcs.len() as usize]) {
        Some(buffer)
    } else {
        None
    }
}

/// What stands for a node, over what stands for its sources: coordinates for a
/// loop, and for a reduction that takes axes away one over the leading axes.
/// For a stack of all elements of a buffer it is the buffer. A product of matrix
/// fragments is expanded along its axes, where they match.
pub open spec fn stand_in(
    dag: Seq<NodeView>,
    walk: Seq<usize>,
    axes: Seq<AxisId>,
    id: usize,
    now: Seq<NodeView>,
    srcs: Seq<usize>,
) -> Built {
    let node = dag[id as int];
    match (coordinate_of(dag, walk, axes, id), node.op) {
        (Some((at, extent)), _) => coordinates(now, node.dtype, axes.len(), at as int, extent),
        (None, Op::Reduce(with)) => {
            let taken = taken_places(dag, walk, axes, id, node.srcs.len());
            let loops = left_loops(dag, walk, axes, id, srcs, node.srcs.len());
            if taken.len() == 0 {
                put(now, with_srcs(node, seq![srcs[0]] + loops))
            } else {
                let value = reordered(
                    now,
                    srcs[0],
                    node.dtype,
                    taken + other_places(taken, axes.len()),
                );
                leading_reduce(
                    value.dag,
                    Op::AxisReduce { with, count: taken.len() as usize },
                    node.dtype,
                    value.id,
                    loops,
                    dims_of(dag, walk, axes, id, walk.len()),
                )
            }
        },
        (None, Op::Wmma(form)) => match expanded_wmma(now, axes, form, node.dtype, srcs) {
            Some(new) => new,
            None => put(now, with_srcs(node, srcs)),
        },
        (None, Op::Stack) => match whole_of(now, srcs) {
            Some(buffer) => Built { dag: now, id: buffer },
            None => put(now, with_srcs(node, srcs)),
        },
        _ => put(now, with_srcs(node, srcs)),
    }
}

/// The first `n` nodes of a walk, with coordinates in the place of loops.
pub open spec fn coordinate_walk(
    dag: Seq<NodeView>,
    root: usize,
    axes: Seq<AxisId>,
    walk: Seq<usize>,
    n: nat,
) -> Walked
    decreases n,
{
    if n == 0 {
        Walked { dag, stands: Map::empty() }
    } else {
        let rest = coordinate_walk(dag, root, axes, walk, (n - 1) as nat);
        let u = walk[n - 1];
        if !visible(dag, root, u) {
            rest
        } else {
            let new = stand_in(
                dag,
                walk,
                axes,
                u,
                rest.dag,
                moved_outside(dag[u as int], rest.stands),
            );
            Walked { dag: new.dag, stands: rest.stands.insert(u, new.id) }
        }
    }
}

/// Everything below a root, with coordinates in the place of loops. Each axis
/// is an axis of all coordinates, in the order in which loops first name them.
/// Opaque bodies stay as they are.
pub open spec fn with_coordinates(dag: Seq<NodeView>, root: usize) -> Built {
    let walk = topo(dag, root);
    let axes = loop_axes(dag, walk, walk.len());
    let done = coordinate_walk(dag, root, axes, walk, walk.len());
    Built { dag: done.dag, id: done.stands[root] }
}

fn shaped_kind(kind: AxisType) -> (r: bool)
    ensures
        r == is_shaped(kind),
{
    match kind {
        AxisType::Upcast | AxisType::Unroll => true,
        _ => false,
    }
}

/// The axes of the loops below a root that become axes of values; each has the
/// coordinate at which it stands here.
pub fn build_range_map(graph: &Graph, root: usize) -> (axes: Vec<AxisId>)
    requires
        graph.wf(),
        root < graph@.len(),
    ensures
        axes@ == loop_axes(graph@, topo(graph@, root), topo(graph@, root).len()),
{
    let walk = graph.toposort(root);
    let mut axes: Vec<AxisId> = Vec::new();
    let mut n: usize = 0;
    while n < walk.len()
        invariant
            graph.wf(),
            root < graph@.len(),
            ordered(graph@, walk@),
            walk@ == topo(graph@, root),
            n <= walk@.len(),
            axes@ == loop_axes(graph@, walk@, n as nat),
        decreases walk@.len() - n,
    {
        if let Op::Range { axis, kind } = graph.op(walk[n]) {
            if shaped_kind(kind) && find_coordinate(&axes, axis).is_none() {
                axes.push(axis);
            }
        }
        n += 1;
    }
    axes
}

fn find_kept(graph: &Graph, walk: &Vec<usize>, id: usize) -> (r: bool)
    requires
        graph.wf(),
        ordered(graph@, walk@),
    ensures
        r == is_kept(graph@, walk@, id),
{
    let mut p: usize = 0;
    while p < walk.len()
        invariant
            graph.wf(),
            ordered(graph@, walk@),
            p <= walk@.len(),
            forall|q: int, k: int|
                #![trigger graph@[walk@[q] as int].srcs[k]]
                0 <= q < p && 1 <= k < graph@[walk@[q] as int].srcs.len() && keeps_loops(
                    graph@[walk@[q] as int].op,
                ) ==> graph@[walk@[q] as int].srcs[k] != id,
        decreases walk@.len() - p,
    {
        let user: usize = walk[p];
        let keeping: bool = match graph.op(user) {
            Op::End | Op::Stage { .. } | Op::AxisReduce { .. } => true,
            _ => false,
        };
        if keeping {
            let count: usize = graph.source_count(user);
            let mut k: usize = 1;
            while k < count
                invariant
                    graph.wf(),
                    user < graph@.len(),
                    p < walk@.len(),
                    user == walk@[p as int],
                    keeps_loops(graph@[user as int].op),
                    count == graph@[user as int].srcs.len(),
                    1 <= k,
                    forall|j: int| 1 <= j < k && j < count ==> graph@[user as int].srcs[j] != id,
                decreases count - k,
            {
                if graph.source(user, k) == id {
                    assert(graph@[walk@[p as int] as int].srcs[k as int] == id);
                    return true;
                }
                k += 1;
            }
        }
        p += 1;
    }
    false
}

fn find_shared(graph: &Graph, walk: &Vec<usize>, id: usize, axis: AxisId) -> (r: bool)
    requires
        graph.wf(),
        ordered(graph@, walk@),
    ensures
        r == is_shared(graph@, walk@, id, axis),
{
    let mut p: usize = 0;
    while p < walk.len()
        invariant
            graph.wf(),
            ordered(graph@, walk@),
            p <= walk@.len(),
            forall|q: int|
                0 <= q < p && walk@[q] != id ==> !is_along(graph@[#[trigger] walk@[q] as int], axis),
        decreases walk@.len() - p,
    {
        let other: usize = walk[p];
        if other != id {
            if let Op::Range { axis: own, kind } = graph.op(other) {
                if shaped_kind(kind) && own == axis {
                    assert(is_along(graph@[walk@[p as int] as int], axis));
                    return true;
                }
            }
        }
        p += 1;
    }
    false
}

fn find_coordinate_of(graph: &Graph, walk: &Vec<usize>, axes: &Vec<AxisId>, id: usize) -> (found:
    Option<(usize, i64)>)
    requires
        graph.wf(),
        ordered(graph@, walk@),
        id < graph@.len(),
    ensures
        found == coordinate_of(graph@, walk@, axes@, id),
        found matches Some(pair) ==> pair.0 < axes@.len() && pair.1 > 0,
{
    proof {
        lemma_arity(graph@, id);
    }
    if let Op::Range { axis, kind } = graph.op(id) {
        if let Some(at) = find_coordinate(axes, axis) {
            if let Op::Const(ConstValue::Int(extent)) = graph.op(graph.source(id, 0)) {
                if shaped_kind(kind) && extent > 0 && !find_kept(graph, walk, id) && !find_shared(
                    graph,
                    walk,
                    id,
                    axis,
                ) {
                    return Some((at, extent));
                }
            }
        }
    }
    None
}

pub(crate) fn put_numbers(graph: &mut Graph, list: &Vec<i64>, dtype: DType) -> (ids: Vec<usize>)
    requires
        old(graph).wf(),
    ensures
        final(graph).wf(),
        extends(old(graph)@, final(graph)@),
        numbers(old(graph)@, list@, dtype, list@.len()) == (Listed {
            dag: final(graph)@,
            srcs: ids@,
        }),
        ids@.len() == list@.len(),
        forall|k: int| 0 <= k < ids@.len() ==> (#[trigger] ids@[k]) < final(graph)@.len(),
{
    let ghost dag = graph@;
    let mut ids: Vec<usize> = Vec::new();
    let mut n: usize = 0;
    while n < list.len()
        invariant
            graph.wf(),
            n <= list@.len(),
            ids@.len() == n,
            extends(dag, graph@),
            numbers(dag, list@, dtype, n as nat) == (Listed { dag: graph@, srcs: ids@ }),
            forall|k: int| 0 <= k < ids@.len() ==> (#[trigger] ids@[k]) < graph@.len(),
        decreases list@.len() - n,
    {
        proof {
            lemma_interned_keeps(graph@, const_node(ConstValue::Int(list@[n as int]), dtype));
        }
        let id: usize = graph.constant(ConstValue::Int(list[n]), dtype);
        ids.push(id);
        n += 1;
    }
    ids
}

pub(crate) fn put_number_stack(graph: &mut Graph, list: &Vec<i64>, dtype: DType) -> (id: usize)
    requires
        old(graph).wf(),
        list@.len() > 0,
    ensures
        grown(old(graph)@, *final(graph), number_stack(old(graph)@, list@, dtype), id),
{
    let ids = put_numbers(graph, list, dtype);
    proof {
        lemma_interned_keeps(graph@, NodeView { op: Op::Stack, dtype, srcs: ids@ });
    }
    graph.node(Op::Stack, dtype, &ids)
}

pub(crate) fn put_reordered(graph: &mut Graph, value: usize, dtype: DType, order: &Vec<i64>) -> (id: usize)
    requires
        old(graph).wf(),
        value < old(graph)@.len(),
    ensures
        grown(old(graph)@, *final(graph), reordered(old(graph)@, value, dtype, order@), id),
{
    let ids = put_numbers(graph, order, DType::WeakInt);
    let mut srcs: Vec<usize> = Vec::new();
    srcs.push(value);
    let mut k: usize = 0;
    while k < ids.len()
        invariant
            k <= ids@.len(),
            srcs@ == seq![value] + ids@.take(k as int),
        decreases ids@.len() - k,
    {
        srcs.push(ids[k]);
        k += 1;
        assert(srcs@ =~= seq![value] + ids@.take(k as int));
    }
    assert(srcs@ =~= seq![value] + ids@);
    proof {
        lemma_interned_keeps(graph@, NodeView { op: Op::Permute, dtype, srcs: srcs@ });
    }
    graph.node(Op::Permute, dtype, &srcs)
}

fn put_leading_reduce(
    graph: &mut Graph,
    op: Op,
    dtype: DType,
    value: usize,
    loops: &Vec<usize>,
    dims: &Vec<i64>,
) -> (id: usize)
    requires
        old(graph).wf(),
        op is AxisReduce,
        value < old(graph)@.len(),
        forall|k: int| 0 <= k < loops@.len() ==> (#[trigger] loops@[k]) < old(graph)@.len(),
        dims@.len() > 0,
    ensures
        grown(
            old(graph)@,
            *final(graph),
            leading_reduce(old(graph)@, op, dtype, value, loops@, dims@),
            id,
        ),
{
    let mut srcs: Vec<usize> = Vec::new();
    srcs.push(value);
    let mut k: usize = 0;
    while k < loops.len()
        invariant
            k <= loops@.len(),
            srcs@ == seq![value] + loops@.take(k as int),
        decreases loops@.len() - k,
    {
        srcs.push(loops[k]);
        k += 1;
        assert(srcs@ =~= seq![value] + loops@.take(k as int));
    }
    assert(srcs@ =~= seq![value] + loops@);
    proof {
        lemma_interned_keeps(graph@, NodeView { op, dtype, srcs: srcs@ });
    }
    let total: usize = graph.node(op, dtype, &srcs);
    let shape: usize = put_number_stack(graph, dims, DType::WeakInt);
    proof {
        lemma_interned_keeps(
            graph@,
            NodeView { op: Op::Reshape, dtype, srcs: seq![total, shape] },
        );
    }
    graph.binary(Op::Reshape, dtype, total, shape)
}

/// Every count of a loop as one value; see `coordinates`.
pub fn put_coordinates(graph: &mut Graph, dtype: DType, len: usize, at: usize, extent: i64) -> (id:
    usize)
    requires
        old(graph).wf(),
        at < len,
        extent > 0,
    ensures
        grown(
            old(graph)@,
            *final(graph),
            coordinates(old(graph)@, dtype, len as nat, at as int, extent),
            id,
        ),
{
    let mut counts: Vec<i64> = Vec::new();
    let mut i: i64 = 0;
    while i < extent
        invariant
            0 <= i <= extent,
            counts@ =~= counts_to(i),
        decreases extent - i,
    {
        counts.push(i);
        i += 1;
    }
    let stack: usize = put_number_stack(graph, &counts, dtype);
    if len == 1 {
        return stack;
    }
    let mut dims: Vec<i64> = Vec::new();
    let mut n: usize = 0;
    while n < len
        invariant
            n <= len,
            dims@ =~= axis_dims(n as nat, at as int, extent),
        decreases len - n,
    {
        dims.push(
            if n == at {
                extent
            } else {
                1
            },
        );
        n += 1;
    }
    let shape: usize = put_number_stack(graph, &dims, DType::WeakInt);
    proof {
        lemma_interned_keeps(
            graph@,
            NodeView { op: Op::Reshape, dtype, srcs: seq![stack, shape] },
        );
    }
    graph.binary(Op::Reshape, dtype, stack, shape)
}

/// What is known of the loops below a root: which become coordinates, and what
/// runs in them.
struct Loops {
    pub axes: Vec<AxisId>,
    pub table: Vec<Option<(usize, i64)>>,
    pub rows: Vec<Vec<bool>>,
}

impl Loops {
    spec fn holds(&self, dag: Seq<NodeView>, walk: Seq<usize>) -> bool {
        &&& self.table@.len() == dag.len()
        &&& self.rows@.len() == dag.len()
        &&& forall|i: usize|
            i < dag.len() ==> #[trigger] self.table@[i as int] == coordinate_of(
                dag,
                walk,
                self.axes@,
                i,
            )
        &&& forall|i: usize|
            i < dag.len() ==> (#[trigger] self.table@[i as int] matches Some(pair) ==> pair.0
                < self.axes@.len() && pair.1 > 0)
        &&& forall|i: usize| i < dag.len() ==> row_ok(dag, i, #[trigger] self.rows@[i as int]@)
    }
}

fn has_place(list: &Vec<i64>, at: i64) -> (r: bool)
    ensures
        r == list@.contains(at),
{
    let mut k: usize = 0;
    while k < list.len()
        invariant
            k <= list@.len(),
            forall|j: int| 0 <= j < k ==> list@[j] != at,
        decreases list@.len() - k,
    {
        if list[k] == at {
            assert(list@[k as int] == at);
            return true;
        }
        k += 1;
    }
    false
}

/// The axes that a reduction takes away, and the loops that it keeps.
fn find_taken(
    own: &Vec<usize>,
    srcs: &Vec<usize>,
    loops: &Loops,
    Ghost(dag): Ghost<Seq<NodeView>>,
    Ghost(walk): Ghost<Seq<usize>>,
    Ghost(id): Ghost<usize>,
    Ghost(len): Ghost<nat>,
) -> (found: (Vec<i64>, Vec<usize>))
    requires
        loops.holds(dag, walk),
        own@ == dag[id as int].srcs,
        own@.len() >= 1,
        srcs@.len() == own@.len(),
        dag.len() <= len,
        forall|k: int| 0 <= k < own@.len() ==> (#[trigger] own@[k]) < dag.len(),
        forall|k: int| 0 <= k < srcs@.len() ==> (#[trigger] srcs@[k]) < len,
    ensures
        found.0@ == taken_places(dag, walk, loops.axes@, id, own@.len()),
        found.1@ == left_loops(dag, walk, loops.axes@, id, srcs@, own@.len()),
        forall|k: int| 0 <= k < found.1@.len() ==> (#[trigger] found.1@[k]) < len,
        found.0@.len() > 0 ==> loops.axes@.len() > 0,
{
    let value: usize = own[0];
    let mut taken: Vec<i64> = Vec::new();
    let mut left: Vec<usize> = Vec::new();
    let mut n: usize = 1;
    while n < own.len()
        invariant
            loops.holds(dag, walk),
            own@ == dag[id as int].srcs,
            srcs@.len() == own@.len(),
            dag.len() <= len,
            value == own@[0],
            forall|k: int| 0 <= k < own@.len() ==> (#[trigger] own@[k]) < dag.len(),
            forall|k: int| 0 <= k < srcs@.len() ==> (#[trigger] srcs@[k]) < len,
            1 <= n <= own@.len(),
            taken@ == taken_places(dag, walk, loops.axes@, id, n as nat),
            left@ == left_loops(dag, walk, loops.axes@, id, srcs@, n as nat),
            forall|k: int| 0 <= k < left@.len() ==> (#[trigger] left@[k]) < len,
            taken@.len() > 0 ==> loops.axes@.len() > 0,
        decreases own@.len() - n,
    {
        let loop_id: usize = own[n];
        assert(own@[0] < dag.len() && own@[n as int] < dag.len());
        assert(row_ok(dag, value, loops.rows@[value as int]@));
        assert(loops.table@[loop_id as int] == coordinate_of(dag, walk, loops.axes@, loop_id));
        assert(loops.rows@[value as int]@[loop_id as int] == in_scope(dag, value, loop_id));
        match loops.table[loop_id] {
            Some((at, _)) => {
                if loops.rows[value][loop_id] {
                    if !has_place(&taken, at as i64) {
                        taken.push(at as i64);
                    }
                } else {
                    left.push(loop_id);
                }
            },
            None => {
                left.push(srcs[n]);
            },
        }
        n += 1;
    }
    (taken, left)
}

fn find_other_places(taken: &Vec<i64>, len: usize) -> (list: Vec<i64>)
    ensures
        list@ == taken@ + other_places(taken@, len as nat),
{
    let mut list: Vec<i64> = Vec::new();
    let mut k: usize = 0;
    while k < taken.len()
        invariant
            k <= taken@.len(),
            list@ == taken@.take(k as int),
        decreases taken@.len() - k,
    {
        list.push(taken[k]);
        k += 1;
        assert(list@ =~= taken@.take(k as int));
    }
    assert(list@ =~= taken@ + other_places(taken@, 0));
    let mut n: usize = 0;
    while n < len
        invariant
            n <= len,
            list@ == taken@ + other_places(taken@, n as nat),
        decreases len - n,
    {
        if !has_place(taken, n as i64) {
            list.push(n as i64);
        }
        n += 1;
        assert(list@ =~= taken@ + other_places(taken@, n as nat));
    }
    list
}

fn find_dims_of(walk: &Vec<usize>, loops: &Loops, id: usize, Ghost(dag): Ghost<Seq<NodeView>>) -> (dims:
    Vec<i64>)
    requires
        loops.holds(dag, walk@),
        ordered(dag, walk@),
        id < dag.len(),
    ensures
        dims@ == dims_of(dag, walk@, loops.axes@, id, walk@.len()),
        dims@.len() == loops.axes@.len(),
{
    let mut dims: Vec<i64> = Vec::new();
    while dims.len() < loops.axes.len()
        invariant
            dims@.len() <= loops.axes@.len(),
            forall|i: int| 0 <= i < dims@.len() ==> dims@[i] == 1i64,
        decreases loops.axes@.len() - dims@.len(),
    {
        dims.push(1);
    }
    assert(dims@ =~= dims_of(dag, walk@, loops.axes@, id, 0));
    let mut n: usize = 0;
    while n < walk.len()
        invariant
            loops.holds(dag, walk@),
            ordered(dag, walk@),
            id < dag.len(),
            n <= walk@.len(),
            dims@ == dims_of(dag, walk@, loops.axes@, id, n as nat),
            dims@.len() == loops.axes@.len(),
        decreases walk@.len() - n,
    {
        let at_id: usize = walk[n];
        assert(at_id < dag.len());
        assert(row_ok(dag, id, loops.rows@[id as int]@));
        assert(loops.rows@[id as int]@[at_id as int] == in_scope(dag, id, at_id));
        assert(loops.table@[at_id as int] == coordinate_of(dag, walk@, loops.axes@, at_id));
        if let Some((at, extent)) = loops.table[at_id] {
            if loops.rows[id][at_id] {
                dims.set(at, extent);
            }
        }
        n += 1;
    }
    dims
}

fn find_whole(graph: &Graph, srcs: &Vec<usize>) -> (found: Option<usize>)
    requires
        graph.wf(),
        forall|j: int| 0 <= j < srcs@.len() ==> (#[trigger] srcs@[j]) < graph@.len(),
    ensures
        found == whole_of(graph@, srcs@),
        found matches Some(buffer) ==> buffer < graph@.len(),
{
    if srcs.len() == 0 {
        return None;
    }
    assert(srcs@[0] < graph@.len());
    let first: usize = srcs[0];
    if graph.op(first) != Op::Index || graph.source_count(first) != 2 {
        assert(!reads_at(graph@, srcs@[0], graph@[srcs@[0] as int].srcs[0], 0i64));
        return None;
    }
    let buffer: usize = graph.source(first, 0);
    proof {
        lemma_arity(graph@, first);
        assert(graph@[first as int].srcs[0] < first);
    }
    let mut i: usize = 0;
    while i < srcs.len()
        invariant
            graph.wf(),
            forall|j: int| 0 <= j < srcs@.len() ==> (#[trigger] srcs@[j]) < graph@.len(),
            srcs@.len() > 0,
            buffer == graph@[srcs@[0] as int].srcs[0],
            i <= srcs@.len(),
            forall|j: int|
                0 <= j < i ==> reads_at(graph@, #[trigger] srcs@[j], buffer, j as i64),
        decreases srcs@.len() - i,
    {
        let read: usize = srcs[i];
        let whole: bool = graph.op(read) == Op::Index && graph.source_count(read) == 2
            && graph.source(read, 0) == buffer && graph.op(graph.source(read, 1)) == Op::Const(
            ConstValue::Int(i as i64),
        );
        if !whole {
            assert(!reads_at(graph@, srcs@[i as int], buffer, i as i64));
            return None;
        }
        i += 1;
    }
    match find_dims(graph, buffer) {
        Some(sizes) => {
            if sizes.len() == 1 && sizes[0] == srcs.len() {
                assert(sizes@ =~= seq![srcs@.len() as usize]);
                Some(buffer)
            } else {
                assert(sizes@ != seq![srcs@.len() as usize]);
                None
            }
        },
        None => None,
    }
}

fn put_stand_in(
    graph: &mut Graph,
    walk: &Vec<usize>,
    loops: &Loops,
    id: usize,
    srcs: Vec<usize>,
    Ghost(dag): Ghost<Seq<NodeView>>,
) -> (new: usize)
    requires
        old(graph).wf(),
        dag_wf(dag),
        extends(dag, old(graph)@),
        id < dag.len(),
        loops.holds(dag, walk@),
        ordered(dag, walk@),
        srcs@.len() == dag[id as int].srcs.len(),
        forall|j: int| 0 <= j < srcs@.len() ==> (#[trigger] srcs@[j]) < old(graph)@.len(),
    ensures
        grown(
            old(graph)@,
            *final(graph),
            stand_in(dag, walk@, loops.axes@, id, old(graph)@, srcs@),
            new,
        ),
{
    let ghost held = graph@;
    let ghost node = dag[id as int];
    proof {
        lemma_arity(dag, id);
        assert(graph@[id as int] == node);
        assert(loops.table@[id as int] == coordinate_of(dag, walk@, loops.axes@, id));
    }
    let op = graph.op(id);
    let dtype = graph.dtype(id);
    if let Some((at, extent)) = loops.table[id] {
        return put_coordinates(graph, dtype, loops.axes.len(), at, extent);
    }
    if let Op::Reduce(with) = op {
        let count: usize = graph.source_count(id);
        let mut own: Vec<usize> = Vec::new();
        while own.len() < count
            invariant
                graph.wf(),
                id < graph@.len(),
                graph@[id as int] == node,
                count == node.srcs.len(),
                own@.len() <= count,
                own@ == node.srcs.take(own@.len() as int),
            decreases count - own@.len(),
        {
            let src: usize = graph.source(id, own.len());
            own.push(src);
            assert(own@ =~= node.srcs.take(own@.len() as int));
        }
        assert(own@ =~= node.srcs);
        assert forall|k: int| 0 <= k < own@.len() implies (#[trigger] own@[k]) < dag.len() by {
            assert(dag[id as int].srcs[k] < id);
        }
        let (taken, left) = find_taken(
            &own,
            &srcs,
            loops,
            Ghost(dag),
            Ghost(walk@),
            Ghost(id),
            Ghost(held.len()),
        );
        if taken.len() == 0 {
            let mut list: Vec<usize> = Vec::new();
            list.push(srcs[0]);
            let mut k: usize = 0;
            while k < left.len()
                invariant
                    k <= left@.len(),
                    srcs@.len() > 0,
                    list@ == seq![srcs@[0]] + left@.take(k as int),
                decreases left@.len() - k,
            {
                list.push(left[k]);
                k += 1;
                assert(list@ =~= seq![srcs@[0]] + left@.take(k as int));
            }
            assert(list@ =~= seq![srcs@[0]] + left@);
            proof {
                lemma_interned_keeps(held, NodeView { op, dtype, srcs: list@ });
            }
            return graph.node(op, dtype, &list);
        }
        let order = find_other_places(&taken, loops.axes.len());
        let dims = find_dims_of(walk, loops, id, Ghost(dag));
        let value: usize = put_reordered(graph, srcs[0], dtype, &order);
        let fewer = Op::AxisReduce { with, count: taken.len() };
        return put_leading_reduce(graph, fewer, dtype, value, &left, &dims);
    }
    if let Op::Wmma(form) = op {
        if let Some(new) = put_expanded(graph, &loops.axes, form, dtype, &srcs) {
            return new;
        }
    }
    if let Op::Stack = op {
        if let Some(buffer) = find_whole(graph, &srcs) {
            return buffer;
        }
    }
    proof {
        lemma_interned_keeps(held, NodeView { op, dtype, srcs: srcs@ });
    }
    graph.node(op, dtype, srcs.as_slice())
}

/// Puts coordinates in the place of the loops below a root that become axes of
/// values, and reduces over the axes where a reduction ran over such loops; see
/// `with_coordinates`.
#[verifier::rlimit(40)]
#[verifier::spinoff_prover]
pub fn pre_expand(graph: &mut Graph, root: usize) -> (new: usize)
    requires
        old(graph).wf(),
        root < old(graph)@.len(),
    ensures
        grown(old(graph)@, *final(graph), with_coordinates(old(graph)@, root), new),
{
    let ghost dag = graph@;
    let walk = graph.toposort(root);
    let seen = find_visible(graph, root);
    let loops = find_loops(graph, root, &walk);
    let ghost axes = loops.axes@;
    proof {
        lemma_topo(dag, root);
    }
    let mut stands: Vec<usize> = Vec::new();
    let mut id: usize = 0;
    while id < root
        invariant
            id <= root,
            stands@.len() == id,
        decreases root - id,
    {
        stands.push(0);
        id += 1;
    }
    stands.push(0);
    let mut n: usize = 0;
    while n < walk.len()
        invariant
            graph.wf(),
            dag_wf(dag),
            extends(dag, graph@),
            root < dag.len(),
            axes == loops.axes@,
            loops.holds(dag, walk@),
            walk@ == topo(dag, root),
            ordered(dag, walk@),
            forall|x: usize| #[trigger] walk@.contains(x) <==> reaches(dag, root, x),
            seen@.len() == root + 1,
            forall|x: usize| x <= root ==> #[trigger] seen@[x as int] == visible(dag, root, x),
            stands@.len() == root + 1,
            n <= walk@.len(),
            graph@ == coordinate_walk(dag, root, axes, walk@, n as nat).dag,
            forall|p: int|
                0 <= p < n && visible(dag, root, #[trigger] walk@[p]) ==> stands@[walk@[p] as int]
                    == coordinate_walk(dag, root, axes, walk@, n as nat).stands[walk@[p]]
                    && stands@[walk@[p] as int] < graph@.len(),
        decreases walk@.len() - n,
    {
        let u: usize = walk[n];
        let ghost node = dag[u as int];
        let ghost rest = coordinate_walk(dag, root, axes, walk@, n as nat);
        proof {
            assert(walk@.contains(u));
            lemma_reaches_below(dag, root, u);
            lemma_arity(dag, u);
            assert(graph@[u as int] == node);
        }
        if seen[u] {
            let ghost held = graph@;
            let ghost before = stands@;
            let op = graph.op(u);
            let count: usize = graph.source_count(u);
            let hidden: bool = opaque_op(op);
            let mut list: Vec<usize> = Vec::new();
            let mut k: usize = 0;
            while k < count
                invariant
                    graph.wf(),
                    dag_wf(dag),
                    graph@ == held,
                    extends(dag, held),
                    ordered(dag, walk@),
                    n < walk@.len(),
                    u == walk@[n as int],
                    u <= root < dag.len(),
                    visible(dag, root, u),
                    node == dag[u as int],
                    graph@[u as int] == node,
                    op == node.op,
                    hidden == is_opaque(op),
                    count == node.srcs.len(),
                    stands@.len() == root + 1,
                    forall|p: int|
                        0 <= p < n && visible(dag, root, #[trigger] walk@[p])
                            ==> stands@[walk@[p] as int] == rest.stands[walk@[p]]
                            && stands@[walk@[p] as int] < graph@.len(),
                    k <= count,
                    list@ == moved_outside(node, rest.stands).take(k as int),
                    forall|j: int| 0 <= j < list@.len() ==> (#[trigger] list@[j]) < graph@.len(),
                decreases count - k,
            {
                let src: usize = graph.source(u, k);
                if hidden && k == 0 {
                    list.push(src);
                } else {
                    proof {
                        lemma_visible_source(dag, root, u, k as int);
                        assert(dag[walk@[n as int] as int].srcs[k as int] == src);
                        let q = choose|q: int| 0 <= q < n && #[trigger] walk@[q] == src;
                        assert(walk@[q] == src);
                    }
                    list.push(stands[src]);
                }
                k += 1;
                assert(list@ =~= moved_outside(node, rest.stands).take(k as int));
            }
            assert(list@ =~= moved_outside(node, rest.stands));
            let new: usize = put_stand_in(graph, &walk, &loops, u, list, Ghost(dag));
            stands.set(u, new);
            proof {
                let now = coordinate_walk(dag, root, axes, walk@, (n + 1) as nat);
                assert(now.stands == rest.stands.insert(u, new));
                assert forall|p: int|
                    0 <= p < n + 1 && visible(dag, root, #[trigger] walk@[p]) implies stands@[walk@[p] as int]
                    == now.stands[walk@[p]] && stands@[walk@[p] as int] < graph@.len() by {
                    if p < n {
                        assert(walk@[p] != walk@[n as int]);
                        assert(before[walk@[p] as int] == rest.stands[walk@[p]]);
                    }
                }
            }
        }
        n += 1;
    }
    proof {
        assert(walk@[walk@.len() - 1] == root);
        assert(visible(dag, root, root));
    }
    stands[root]
}

fn find_loops(graph: &Graph, root: usize, walk: &Vec<usize>) -> (loops: Loops)
    requires
        graph.wf(),
        root < graph@.len(),
        walk@ == topo(graph@, root),
        ordered(graph@, walk@),
    ensures
        loops.holds(graph@, walk@),
        loops.axes@ == loop_axes(graph@, walk@, walk@.len()),
{
    let axes = build_range_map(graph, root);
    let rows = graph.scopes();
    let len: usize = graph.len();
    let mut table: Vec<Option<(usize, i64)>> = Vec::new();
    let mut id: usize = 0;
    while id < len
        invariant
            graph.wf(),
            ordered(graph@, walk@),
            len == graph@.len(),
            id <= len,
            table@.len() == id,
            forall|i: usize|
                i < id ==> #[trigger] table@[i as int] == coordinate_of(graph@, walk@, axes@, i),
            forall|i: usize|
                i < id ==> (#[trigger] table@[i as int] matches Some(pair) ==> pair.0 < axes@.len()
                    && pair.1 > 0),
        decreases len - id,
    {
        table.push(find_coordinate_of(graph, walk, &axes, id));
        id += 1;
    }
    Loops { axes, table, rows }
}

proof fn lemma_nothing_is_taken(
    dag: Seq<NodeView>,
    walk: Seq<usize>,
    axes: Seq<AxisId>,
    id: usize,
    srcs: Seq<usize>,
    n: nat,
)
    requires
        1 <= n <= srcs.len(),
        srcs.len() == dag[id as int].srcs.len(),
        forall|k: int|
            1 <= k < n ==> coordinate_of(dag, walk, axes, #[trigger] dag[id as int].srcs[k]) is None,
    ensures
        taken_places(dag, walk, axes, id, n).len() == 0,
        left_loops(dag, walk, axes, id, srcs, n) == srcs.subrange(1, n as int),
    decreases n,
{
    if n > 1 {
        lemma_nothing_is_taken(dag, walk, axes, id, srcs, (n - 1) as nat);
        assert(coordinate_of(dag, walk, axes, dag[id as int].srcs[n - 1]) is None);
        assert(srcs.subrange(1, n - 1).push(srcs[n - 1]) =~= srcs.subrange(1, n as int));
    } else {
        assert(srcs.subrange(1, 1) =~= Seq::<usize>::empty());
    }
}

/// A node that has no coordinates stands for itself over its own sources.
proof fn lemma_untouched_node(
    dag: Seq<NodeView>,
    walk: Seq<usize>,
    axes: Seq<AxisId>,
    u: usize,
)
    requires
        dag_wf(dag),
        u < dag.len() <= usize::MAX,
        coordinate_of(dag, walk, axes, u) is None,
        forall|k: int|
            dag[u as int].op is Reduce && 1 <= k < dag[u as int].srcs.len() ==> coordinate_of(
                dag,
                walk,
                axes,
                #[trigger] dag[u as int].srcs[k],
            ) is None,
        dag[u as int].op is Stack ==> whole_of(dag, dag[u as int].srcs) is None,
        dag[u as int].op is Wmma ==> product_plan(dag, axes, dag[u as int].srcs) is None,
    ensures
        stand_in(dag, walk, axes, u, dag, dag[u as int].srcs) == (Built { dag, id: u }),
{
    let node = dag[u as int];
    lemma_arity(dag, u);
    if node.op is Reduce {
        lemma_nothing_is_taken(dag, walk, axes, u, node.srcs, node.srcs.len());
        assert(seq![node.srcs[0]] + node.srcs.subrange(1, node.srcs.len() as int) =~= node.srcs);
    }
    assert(with_srcs(node, node.srcs) == node);
    assert(dag.contains(node)) by {
        assert(dag[u as int] == node);
    }
    lemma_id_of(dag, u);
}

proof fn lemma_untouched_walk(dag: Seq<NodeView>, root: usize, axes: Seq<AxisId>, n: nat)
    requires
        dag_wf(dag),
        root < dag.len() <= usize::MAX,
        n <= topo(dag, root).len(),
        forall|x: usize| #[trigger]
            visible(dag, root, x) ==> coordinate_of(dag, topo(dag, root), axes, x) is None && (
            dag[x as int].op is Stack ==> whole_of(dag, dag[x as int].srcs) is None) && (
            dag[x as int].op is Wmma ==> product_plan(dag, axes, dag[x as int].srcs) is None),
    ensures
        ({
            let walk = topo(dag, root);
            let done = coordinate_walk(dag, root, axes, walk, n);
            &&& done.dag == dag
            &&& forall|p: int|
                0 <= p < n && visible(dag, root, #[trigger] walk[p]) ==> done.stands[walk[p]]
                    == walk[p]
        }),
    decreases n,
{
    let walk = topo(dag, root);
    lemma_topo(dag, root);
    if n > 0 {
        lemma_untouched_walk(dag, root, axes, (n - 1) as nat);
        let rest = coordinate_walk(dag, root, axes, walk, (n - 1) as nat);
        let u = walk[n - 1];
        let node = dag[u as int];
        assert(walk.contains(u));
        lemma_reaches_below(dag, root, u);
        lemma_arity(dag, u);
        if visible(dag, root, u) {
            assert forall|k: int|
                0 <= k < node.srcs.len() && !is_body(node.op, k) implies rest.stands[node.srcs[k]]
                == node.srcs[k] && visible(dag, root, node.srcs[k]) by {
                lemma_visible_source(dag, root, u, k);
                assert(dag[walk[n - 1] as int].srcs[k] == node.srcs[k]);
                let q = choose|q: int| 0 <= q < n - 1 && #[trigger] walk[q] == node.srcs[k];
                assert(walk[q] == node.srcs[k]);
            }
            assert(moved_outside(node, rest.stands) =~= node.srcs);
            assert forall|k: int|
                node.op is Reduce && 1 <= k < node.srcs.len() implies coordinate_of(
                dag,
                walk,
                axes,
                #[trigger] dag[u as int].srcs[k],
            ) is None by {
                assert(!is_body(node.op, k));
                assert(visible(dag, root, node.srcs[k]));
            }
            lemma_untouched_node(dag, walk, axes, u);
            let done = coordinate_walk(dag, root, axes, walk, n);
            assert forall|p: int| 0 <= p < n && visible(dag, root, #[trigger] walk[p]) implies
                done.stands[walk[p]] == walk[p] by {
                if p < n - 1 {
                    assert(walk[p] != walk[n - 1]);
                }
            }
        }
    }
}

/// Where no loop can become coordinates, because none is to or no extent is a
/// constant, no product has axes that match, and no stack is a whole buffer,
/// everything is left alone.
pub proof fn lemma_incomplete_expansion_is_left_alone(dag: Seq<NodeView>, root: usize)
    requires
        dag_wf(dag),
        root < dag.len() <= usize::MAX,
        forall|x: usize| #[trigger]
            visible(dag, root, x) ==> (dag[x as int].op matches Op::Range { kind, .. }
                ==> !is_shaped(kind) || !(dag[dag[x as int].srcs[0] as int].op is Const)) && (
            dag[x as int].op is Stack ==> whole_of(dag, dag[x as int].srcs) is None) && (
            dag[x as int].op is Wmma ==> product_plan(
                dag,
                loop_axes(dag, topo(dag, root), topo(dag, root).len()),
                dag[x as int].srcs,
            ) is None),
    ensures
        with_coordinates(dag, root) == (Built { dag, id: root }),
{
    let walk = topo(dag, root);
    let axes = loop_axes(dag, walk, walk.len());
    lemma_topo(dag, root);
    lemma_untouched_walk(dag, root, axes, walk.len());
    assert(walk[walk.len() - 1] == root);
    assert(visible(dag, root, root));
}

} // verus!
