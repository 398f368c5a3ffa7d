//! Products of matrix fragments in a graph: expanded along the axes that they are
//! unrolled along, and taken apart where their operands broadcast.

use vstd::prelude::*;

use crate::builders::{lemma_interned_keeps, put, Built};
use crate::coordinates::{
    number_stack, put_number_stack, put_reordered, reordered,
};
use crate::expand::{
    count_lanes, expand_wmma, expanded_product, extents, find_places, find_slots, first_index,
    holds, lemma_places_distinct, places, slots, untaken, ProductShapes, UpcastAxes, WmmaShapes,
    WmmaUpcastAxes,
};
use crate::graph::{AxisId, DType, Graph, NodeView, Op, WmmaMetadata};
use crate::lanes::{find_lanes, lane_dims};
use crate::meaning::lemma_arity;
use crate::passes::grown;
use crate::shape::{size_at, size_of};

verus! {

/// The axes that the first `n` nodes of a list name, with their extents.
pub open spec fn listed_axes(dag: Seq<NodeView>, ids: Seq<usize>, n: nat) -> Option<
    Seq<(AxisId, usize)>,
>
    decreases n,
{
    if n == 0 {
        Some(Seq::empty())
    } else {
        let node = dag[ids[n - 1] as int];
        match (listed_axes(dag, ids, (n - 1) as nat), node.op, size_of(dag, node.srcs[0])) {
            (Some(rest), Op::UpcastAxis(axis), Some(size)) => Some(rest.push((axis, size))),
            _ => None,
        }
    }
}

/// The axes that a node lists.
pub open spec fn axes_at(dag: Seq<NodeView>, id: usize) -> Option<Seq<(AxisId, usize)>> {
    let node = dag[id as int];
    if node.op is UpcastAxes {
        listed_axes(dag, node.srcs, node.srcs.len())
    } else {
        None
    }
}

/// The axes that a product over some sources is yet to be expanded along.
pub open spec fn upcast_axes(dag: Seq<NodeView>, srcs: Seq<usize>) -> Option<UpcastAxes> {
    if srcs.len() == 6 {
        match (axes_at(dag, srcs[3]), axes_at(dag, srcs[4]), axes_at(dag, srcs[5])) {
            (Some(a), Some(b), Some(c)) => Some(UpcastAxes { a, b, c }),
            _ => None,
        }
    } else {
        None
    }
}

/// The first `n` coordinates that are not taken.
pub open spec fn free_places(taken: Seq<usize>, n: nat) -> Seq<usize>
    decreases n,
{
    if n == 0 {
        Seq::empty()
    } else {
        let rest = free_places(taken, (n - 1) as nat);
        if taken.contains((n - 1) as usize) {
            rest
        } else {
            rest.push((n - 1) as usize)
        }
    }
}

/// Where the first `n` coordinates are found, if those that are taken stand
/// behind `outer` others.
pub open spec fn back_order(taken: Seq<usize>, outer: nat, n: nat) -> Seq<usize> {
    Seq::new(
        n,
        |at: int|
            if taken.contains(at as usize) {
                (outer + taken.index_of(at as usize)) as usize
            } else {
                untaken(taken, at as nat) as usize
            },
    )
}

/// How a product is expanded: the shapes, the order of the axes of each operand,
/// the shape in which the lanes of the product are its axes, and the order in
/// which those are the axes of the result.
#[verifier::ext_equal]
pub struct Plan {
    pub shapes: ProductShapes,
    pub left: Seq<usize>,
    pub right: Seq<usize>,
    pub split: Seq<usize>,
    pub back: Seq<usize>,
}

/// Whether sizes can be written as indices.
pub open spec fn are_indices(list: Seq<usize>) -> bool {
    forall|k: int| 0 <= k < list.len() ==> (#[trigger] list[k]) <= i64::MAX
}

/// The plan of an expanded product; see `Plan`.
pub open spec fn plan_of(
    map: Seq<AxisId>,
    a: Seq<usize>,
    b: Seq<usize>,
    axes: UpcastAxes,
    shapes: ProductShapes,
) -> Plan {
    let first = slots(map, a, axes.a, axes.a.len())->0;
    let second = slots(map, b, axes.b, axes.b.len())->0;
    let taken = places(map, axes.c, axes.c.len())->0;
    let outer = shapes.inner.drop_last();
    Plan {
        shapes,
        left: free_places(first, map.len()) + first,
        right: free_places(second, map.len()) + second,
        split: outer + extents(axes.c, axes.c.len()),
        back: back_order(taken, outer.len(), map.len()),
    }
}

/// Whether a plan can be carried out: all of its numbers can be written.
pub open spec fn is_writable(plan: Plan) -> bool {
    &&& are_indices(plan.shapes.a)
    &&& are_indices(plan.shapes.b)
    &&& are_indices(plan.left)
    &&& are_indices(plan.right)
    &&& are_indices(plan.split)
    &&& are_indices(plan.back)
    &&& plan.split.len() > 0
}

/// How a product over some sources is expanded. Nothing where it is left alone:
/// it has no axes to be expanded along, or one of them has no coordinate or
/// another extent than its operand.
pub open spec fn product_plan(dag: Seq<NodeView>, map: Seq<AxisId>, srcs: Seq<usize>) -> Option<
    Plan,
> {
    match (
        upcast_axes(dag, srcs),
        lane_dims(dag, srcs[0]),
        lane_dims(dag, srcs[1]),
        lane_dims(dag, srcs[2]),
    ) {
        (Some(axes), Some(a), Some(b), Some(c)) => if c.len() == 0 {
            None
        } else {
            match expanded_product(map, a, b, c.last(), axes) {
                Some(shapes) => {
                    let plan = plan_of(map, a, b, axes, shapes);
                    if is_writable(plan) {
                        Some(plan)
                    } else {
                        None
                    }
                },
                None => None,
            }
        },
        _ => None,
    }
}

/// Sizes as indices.
pub open spec fn as_indices(list: Seq<usize>) -> Seq<i64> {
    Seq::new(list.len(), |k: int| list[k] as i64)
}

/// A value in a shape.
pub open spec fn reshaped(dag: Seq<NodeView>, value: usize, dtype: DType, shape: Seq<usize>) -> Built {
    let sizes = number_stack(dag, as_indices(shape), DType::WeakInt);
    put(sizes.dag, NodeView { op: Op::Reshape, dtype, srcs: seq![value, sizes.id] })
}

/// An operand with its axes in an order, in a shape.
pub open spec fn contracted_value(
    dag: Seq<NodeView>,
    value: usize,
    order: Seq<usize>,
    shape: Seq<usize>,
) -> Built {
    let dtype = dag[value as int].dtype;
    let turned = reordered(dag, value, dtype, as_indices(order));
    reshaped(turned.dag, turned.id, dtype, shape)
}

/// A product of contracted operands, without axes to be expanded along.
pub open spec fn inner_product(
    dag: Seq<NodeView>,
    form: WmmaMetadata,
    dtype: DType,
    srcs: Seq<usize>,
    plan: Plan,
) -> Built {
    let a = contracted_value(dag, srcs[0], plan.left, plan.shapes.a);
    let b = contracted_value(a.dag, srcs[1], plan.right, plan.shapes.b);
    put(
        b.dag,
        NodeView { op: Op::Wmma(form.flat()), dtype, srcs: seq![a.id, b.id, srcs[2]] },
    )
}

/// What an expanded product becomes: a product of contracted operands, whose
/// lanes are put where the axes of the result are.
pub open spec fn product_node(
    dag: Seq<NodeView>,
    form: WmmaMetadata,
    dtype: DType,
    srcs: Seq<usize>,
    plan: Plan,
) -> Built {
    let product = inner_product(dag, form, dtype, srcs, plan);
    let split = reshaped(product.dag, product.id, dtype, plan.split);
    reordered(split.dag, split.id, dtype, as_indices(plan.back))
}

/// What a product over some sources becomes, where it is expanded.
pub open spec fn expanded_wmma(
    dag: Seq<NodeView>,
    map: Seq<AxisId>,
    form: WmmaMetadata,
    dtype: DType,
    srcs: Seq<usize>,
) -> Option<Built> {
    match product_plan(dag, map, srcs) {
        Some(plan) => Some(product_node(dag, form, dtype, srcs, plan)),
        None => None,
    }
}

fn read_axes(graph: &Graph, id: usize) -> (axes: Option<Vec<(AxisId, usize)>>)
    requires
        graph.wf(),
        id < graph@.len(),
    ensures
        match axes {
            Some(list) => axes_at(graph@, id) == Some(list@),
            None => axes_at(graph@, id) is None,
        },
{
    let ghost dag = graph@;
    let ghost node = dag[id as int];
    match graph.op(id) {
        Op::UpcastAxes => {},
        _ => {
            return None;
        },
    }
    let mut list: Vec<(AxisId, usize)> = Vec::new();
    let count: usize = graph.source_count(id);
    let mut n: usize = 0;
    while n < count
        invariant
            graph.wf(),
            dag == graph@,
            id < dag.len(),
            node == dag[id as int],
            count == node.srcs.len(),
            n <= count,
            listed_axes(dag, node.srcs, n as nat) == Some(list@),
        decreases count - n,
    {
        let src: usize = graph.source(id, n);
        proof {
            lemma_arity(dag, src);
        }
        let found: Option<(AxisId, usize)> = match graph.op(src) {
            Op::UpcastAxis(axis) => match size_at(graph, graph.source(src, 0)) {
                Some(size) => Some((axis, size)),
                None => None,
            },
            _ => None,
        };
        match found {
            Some(one) => {
                list.push(one);
            },
            None => {
                proof {
                    lemma_unlisted(dag, node.srcs, (n + 1) as nat, count as nat);
                }
                return None;
            },
        }
        n += 1;
    }
    Some(list)
}

proof fn lemma_unlisted(dag: Seq<NodeView>, ids: Seq<usize>, k: nat, n: nat)
    requires
        k <= n,
        listed_axes(dag, ids, k) is None,
    ensures
        listed_axes(dag, ids, n) is None,
    decreases n,
{
    if k < n {
        lemma_unlisted(dag, ids, k, (n - 1) as nat);
    }
}

fn read_upcast_axes(graph: &Graph, srcs: &Vec<usize>) -> (axes: Option<WmmaUpcastAxes>)
    requires
        graph.wf(),
        forall|k: int| 0 <= k < srcs@.len() ==> (#[trigger] srcs@[k]) < graph@.len(),
    ensures
        match axes {
            Some(found) => upcast_axes(graph@, srcs@) == Some(found@),
            None => upcast_axes(graph@, srcs@) is None,
        },
{
    if srcs.len() != 6 {
        return None;
    }
    assert(srcs@[3] < graph@.len() && srcs@[4] < graph@.len() && srcs@[5] < graph@.len());
    match (read_axes(graph, srcs[3]), read_axes(graph, srcs[4]), read_axes(graph, srcs[5])) {
        (Some(a), Some(b), Some(c)) => Some(WmmaUpcastAxes { a, b, c }),
        _ => None,
    }
}

pub(crate) fn find_indices(list: &Vec<usize>) -> (found: Option<Vec<i64>>)
    ensures
        match found {
            Some(numbers) => are_indices(list@) && numbers@ == as_indices(list@),
            None => !are_indices(list@),
        },
{
    let mut numbers: Vec<i64> = Vec::new();
    let mut k: usize = 0;
    while k < list.len()
        invariant
            k <= list@.len(),
            forall|j: int| 0 <= j < k ==> (#[trigger] list@[j]) <= i64::MAX,
            numbers@ == as_indices(list@).take(k as int),
        decreases list@.len() - k,
    {
        if list[k] as u64 > i64::MAX as u64 {
            assert(list@[k as int] > i64::MAX);
            return None;
        }
        numbers.push(list[k] as i64);
        k += 1;
        assert(numbers@ =~= as_indices(list@).take(k as int));
    }
    assert(numbers@ =~= as_indices(list@));
    Some(numbers)
}

/// The coordinates that are not taken, and then those that are.
fn find_order(taken: &Vec<usize>, n: usize) -> (order: Vec<usize>)
    ensures
        order@ == free_places(taken@, n as nat) + taken@,
{
    let mut order: Vec<usize> = Vec::new();
    let mut at: usize = 0;
    while at < n
        invariant
            at <= n,
            order@ == free_places(taken@, at as nat),
        decreases n - at,
    {
        if !holds(taken, at) {
            order.push(at);
        }
        at += 1;
    }
    let ghost free = order@;
    let mut k: usize = 0;
    while k < taken.len()
        invariant
            k <= taken@.len(),
            order@ == free + taken@.take(k as int),
        decreases taken@.len() - k,
    {
        order.push(taken[k]);
        k += 1;
        assert(order@ =~= free + taken@.take(k as int));
    }
    assert(order@ =~= free + taken@);
    order
}

fn find_back_order(taken: &Vec<usize>, outer: usize, n: usize) -> (order: Vec<usize>)
    requires
        taken@.no_duplicates(),
        outer + taken@.len() <= usize::MAX,
    ensures
        order@ == back_order(taken@, outer as nat, n as nat),
{
    let mut order: Vec<usize> = Vec::new();
    let mut used: usize = 0;
    let mut at: usize = 0;
    while at < n
        invariant
            at <= n,
            used <= at,
            used == untaken(taken@, at as nat),
            taken@.no_duplicates(),
            outer + taken@.len() <= usize::MAX,
            order@ == back_order(taken@, outer as nat, n as nat).take(at as int),
        decreases n - at,
    {
        if holds(taken, at) {
            let k: usize = first_index(taken, at);
            proof {
                let j = taken@.index_of(at);
                assert(taken@[j] == at && taken@[k as int] == at);
                assert(j == k);
            }
            order.push(outer + k);
        } else {
            order.push(used);
            used += 1;
        }
        at += 1;
        assert(order@ =~= back_order(taken@, outer as nat, n as nat).take(at as int));
    }
    assert(order@ =~= back_order(taken@, outer as nat, n as nat));
    order
}

/// How a product is expanded, with all numbers as indices.
#[derive(Debug)]
struct Orders {
    pub a: Vec<i64>,
    pub b: Vec<i64>,
    pub left: Vec<i64>,
    pub right: Vec<i64>,
    pub split: Vec<i64>,
    pub back: Vec<i64>,
}

impl Orders {
    spec fn is(&self, plan: Plan) -> bool {
        &&& self.a@ == as_indices(plan.shapes.a)
        &&& self.b@ == as_indices(plan.shapes.b)
        &&& self.left@ == as_indices(plan.left)
        &&& self.right@ == as_indices(plan.right)
        &&& self.split@ == as_indices(plan.split)
        &&& self.back@ == as_indices(plan.back)
        &&& plan.shapes.a.len() > 0
        &&& plan.shapes.b.len() > 0
        &&& plan.split.len() > 0
    }
}

fn find_split(inner: &Vec<usize>, axes: &Vec<(AxisId, usize)>) -> (split: Vec<usize>)
    requires
        inner@.len() > 0,
    ensures
        split@ == inner@.drop_last() + extents(axes@, axes@.len()),
{
    let (sizes, _lanes) = count_lanes(axes);
    let mut split: Vec<usize> = Vec::new();
    let mut k: usize = 0;
    while k < inner.len() - 1
        invariant
            inner@.len() > 0,
            k <= inner@.len() - 1,
            split@ == inner@.drop_last().take(k as int),
        decreases inner@.len() - k,
    {
        split.push(inner[k]);
        k += 1;
        assert(split@ =~= inner@.drop_last().take(k as int));
    }
    assert(split@ =~= inner@.drop_last());
    let mut j: usize = 0;
    while j < sizes.len()
        invariant
            inner@.len() > 0,
            j <= sizes@.len(),
            split@ == inner@.drop_last() + sizes@.take(j as int),
        decreases sizes@.len() - j,
    {
        split.push(sizes[j]);
        j += 1;
        assert(split@ =~= inner@.drop_last() + sizes@.take(j as int));
    }
    assert(split@ =~= inner@.drop_last() + sizes@);
    split
}

fn find_orders(
    map: &Vec<AxisId>,
    a: &Vec<usize>,
    b: &Vec<usize>,
    axes: &WmmaUpcastAxes,
    shapes: &WmmaShapes,
    Ghost(lanes): Ghost<usize>,
) -> (orders: Option<Orders>)
    requires
        expanded_product(map@, a@, b@, lanes, axes@) == Some(shapes@),
    ensures
        ({
            let plan = plan_of(map@, a@, b@, axes@, shapes@);
            match orders {
                Some(found) => is_writable(plan) && found.is(plan),
                None => !is_writable(plan),
            }
        }),
{
    let ghost plan = plan_of(map@, a@, b@, axes@, shapes@);
    let (first, second, taken) = match (
        find_slots(map, a, &axes.a),
        find_slots(map, b, &axes.b),
        find_places(map, &axes.c),
    ) {
        (Some(first), Some(second), Some(taken)) => (first, second, taken),
        _ => {
            assert(false);
            return None;
        },
    };
    proof {
        lemma_places_distinct(map@, axes.c@, axes.c@.len());
    }
    let left = find_order(&first, map.len());
    let right = find_order(&second, map.len());
    let split = find_split(&shapes.inner, &axes.c);
    let outer: usize = shapes.inner.len() - 1;
    assert(split@.len() == outer + axes.c@.len());
    let whole: usize = split.len();
    assert(whole == outer + taken@.len());
    let back = find_back_order(&taken, outer, map.len());
    if whole == 0 {
        return None;
    }
    match (
        find_indices(&shapes.a),
        find_indices(&shapes.b),
        find_indices(&left),
        find_indices(&right),
        find_indices(&split),
        find_indices(&back),
    ) {
        (Some(a), Some(b), Some(left), Some(right), Some(split), Some(back)) => Some(
            Orders { a, b, left, right, split, back },
        ),
        _ => None,
    }
}

fn find_product_orders(graph: &Graph, map: &Vec<AxisId>, srcs: &Vec<usize>) -> (orders: Option<
    Orders,
>)
    requires
        graph.wf(),
        srcs@.len() >= 3,
        forall|k: int| 0 <= k < srcs@.len() ==> (#[trigger] srcs@[k]) < graph@.len(),
    ensures
        match (orders, product_plan(graph@, map@, srcs@)) {
            (Some(found), Some(plan)) => found.is(plan),
            (None, None) => true,
            _ => false,
        },
{
    let axes = match read_upcast_axes(graph, srcs) {
        Some(axes) => axes,
        None => {
            return None;
        },
    };
    assert(srcs@[0] < graph@.len() && srcs@[1] < graph@.len() && srcs@[2] < graph@.len());
    match (find_lanes(graph, srcs[0]), find_lanes(graph, srcs[1]), find_lanes(graph, srcs[2])) {
        (Some(a), Some(b), Some(c)) => {
            let count: usize = c.len();
            if count == 0 {
                return None;
            }
            let lanes: usize = c[count - 1];
            match expand_wmma(map, &a, &b, lanes, &axes) {
                Some(shapes) => find_orders(map, &a, &b, &axes, &shapes, Ghost(lanes)),
                None => None,
            }
        },
        _ => None,
    }
}

pub(crate) fn put_reshaped(graph: &mut Graph, value: usize, dtype: DType, shape: &Vec<i64>, Ghost(sizes): Ghost<
    Seq<usize>,
>) -> (id: usize)
    requires
        old(graph).wf(),
        value < old(graph)@.len(),
        shape@ == as_indices(sizes),
        sizes.len() > 0,
    ensures
        grown(old(graph)@, *final(graph), reshaped(old(graph)@, value, dtype, sizes), id),
{
    let list: usize = put_number_stack(graph, shape, DType::WeakInt);
    proof {
        lemma_interned_keeps(
            graph@,
            NodeView { op: Op::Reshape, dtype, srcs: seq![value, list] },
        );
    }
    graph.binary(Op::Reshape, dtype, value, list)
}

fn put_contracted(
    graph: &mut Graph,
    value: usize,
    order: &Vec<i64>,
    shape: &Vec<i64>,
    Ghost(places): Ghost<Seq<usize>>,
    Ghost(sizes): Ghost<Seq<usize>>,
) -> (id: usize)
    requires
        old(graph).wf(),
        value < old(graph)@.len(),
        order@ == as_indices(places),
        shape@ == as_indices(sizes),
        sizes.len() > 0,
    ensures
        grown(old(graph)@, *final(graph), contracted_value(old(graph)@, value, places, sizes), id),
{
    let dtype = graph.dtype(value);
    let turned: usize = put_reordered(graph, value, dtype, order);
    put_reshaped(graph, turned, dtype, shape, Ghost(sizes))
}

/// Expands a product over some sources; see `expanded_wmma`.
pub(crate) fn put_expanded(
    graph: &mut Graph,
    map: &Vec<AxisId>,
    form: WmmaMetadata,
    dtype: DType,
    srcs: &Vec<usize>,
) -> (new: Option<usize>)
    requires
        old(graph).wf(),
        srcs@.len() >= 3,
        forall|k: int| 0 <= k < srcs@.len() ==> (#[trigger] srcs@[k]) < old(graph)@.len(),
    ensures
        match (new, expanded_wmma(old(graph)@, map@, form, dtype, srcs@)) {
            (Some(id), Some(built)) => grown(old(graph)@, *final(graph), built, id),
            (None, None) => final(graph)@ == old(graph)@ && final(graph).wf(),
            _ => false,
        },
{
    let ghost dag = graph@;
    let orders = match find_product_orders(graph, map, srcs) {
        Some(orders) => orders,
        None => {
            return None;
        },
    };
    let ghost plan = product_plan(dag, map@, srcs@)->0;
    assert(srcs@[0] < dag.len() && srcs@[1] < dag.len() && srcs@[2] < dag.len());
    let (a, b, c): (usize, usize, usize) = (srcs[0], srcs[1], srcs[2]);
    let left: usize = put_contracted(
        graph,
        a,
        &orders.left,
        &orders.a,
        Ghost(plan.left),
        Ghost(plan.shapes.a),
    );
    let right: usize = put_contracted(
        graph,
        b,
        &orders.right,
        &orders.b,
        Ghost(plan.right),
        Ghost(plan.shapes.b),
    );
    let op = Op::Wmma(form.expanded());
    proof {
        lemma_interned_keeps(graph@, NodeView { op, dtype, srcs: seq![left, right, c] });
    }
    let product: usize = graph.ternary(op, dtype, left, right, c);
    let split: usize = put_reshaped(graph, product, dtype, &orders.split, Ghost(plan.split));
    Some(put_reordered(graph, split, dtype, &orders.back))
}

} // verus!
