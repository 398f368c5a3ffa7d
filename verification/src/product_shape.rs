//! The shapes of expanded products: an expanded product has the shape that its
//! axes give it, and its operands are contracted.

use vstd::prelude::*;

use crate::builders::{const_node, lemma_interned_keeps, put};
use crate::coordinates::{number_stack, numbers, reordered};
use crate::expand::{
    extents, lemma_places_distinct, lemma_untaken_grows, place_of, places, put_back, unrolled,
    untaken,
};
use crate::graph::{
    dag_wf, lemma_interned_wf, AxisId, ConstValue, DType, NodeView, Op, WmmaMetadata};
use crate::lanes::lemma_dims_extend;
use crate::passes::{extends, lemma_put};
use crate::product::{
    are_indices, as_indices, back_order, contracted_value, expanded_wmma, inner_product, is_writable,
    product_node, product_plan, reshaped, upcast_axes, Plan,
};
use crate::shape::{dims, permuted, shape_of, size_of, sizes_of};

verus! {

/// Whether a graph has become another, in which a node stands.
pub open spec fn holds_node(dag: Seq<NodeView>, more: Seq<NodeView>, id: usize) -> bool {
    &&& dag_wf(more)
    &&& extends(dag, more)
    &&& id < more.len()
}

proof fn lemma_numbers_grow(dag: Seq<NodeView>, list: Seq<i64>, dtype: DType, n: nat)
    ensures
        dag.len() <= numbers(dag, list, dtype, n).dag.len(),
        extends(dag, numbers(dag, list, dtype, n).dag),
    decreases n,
{
    if n > 0 {
        lemma_numbers_grow(dag, list, dtype, (n - 1) as nat);
        let rest = numbers(dag, list, dtype, (n - 1) as nat);
        lemma_interned_keeps(rest.dag, const_node(ConstValue::Int(list[n - 1]), dtype));
    }
}

pub(crate) proof fn lemma_numbers(dag: Seq<NodeView>, list: Seq<i64>, dtype: DType, n: nat)
    requires
        dag_wf(dag),
        n <= list.len(),
        numbers(dag, list, dtype, n).dag.len() <= usize::MAX,
    ensures
        ({
            let new = numbers(dag, list, dtype, n);
            &&& dag_wf(new.dag)
            &&& extends(dag, new.dag)
            &&& new.srcs.len() == n
            &&& forall|k: int|
                0 <= k < n ==> (#[trigger] new.srcs[k]) < new.dag.len() && new.dag[new.srcs[k] as int]
                    == const_node(ConstValue::Int(list[k]), dtype)
        }),
    decreases n,
{
    if n > 0 {
        let rest = numbers(dag, list, dtype, (n - 1) as nat);
        let node = const_node(ConstValue::Int(list[n - 1]), dtype);
        lemma_interned_keeps(rest.dag, node);
        lemma_numbers(dag, list, dtype, (n - 1) as nat);
        lemma_interned_wf(rest.dag, node);
        lemma_put(rest.dag, node);
        let new = numbers(dag, list, dtype, n);
        assert forall|k: int| 0 <= k < n implies (#[trigger] new.srcs[k]) < new.dag.len()
            && new.dag[new.srcs[k] as int] == const_node(ConstValue::Int(list[k]), dtype) by {
            if k < n - 1 {
                assert(new.srcs[k] == rest.srcs[k]);
                assert(rest.srcs[k] < rest.dag.len());
            }
        }
    }
}

/// Constants that hold sizes.
proof fn lemma_sizes(dag: Seq<NodeView>, ids: Seq<usize>, sizes: Seq<usize>, n: nat)
    requires
        are_indices(sizes),
        n <= sizes.len(),
        ids.len() == sizes.len(),
        forall|k: int|
            0 <= k < ids.len() ==> dag[(#[trigger] ids[k]) as int].op == Op::Const(
                ConstValue::Int(sizes[k] as i64),
            ),
    ensures
        sizes_of(dag, ids, n) == Some(sizes.take(n as int)),
    decreases n,
{
    if n > 0 {
        lemma_sizes(dag, ids, sizes, (n - 1) as nat);
        assert(dag[ids[n - 1] as int].op == Op::Const(ConstValue::Int(sizes[n - 1] as i64)));
        assert(sizes[n - 1] <= i64::MAX);
        assert(size_of(dag, ids[n - 1]) == Some(sizes[n - 1]));
        assert(sizes.take(n - 1).push(sizes[n - 1]) =~= sizes.take(n as int));
    } else {
        assert(sizes.take(0) =~= Seq::<usize>::empty());
    }
}

pub(crate) proof fn lemma_number_stack_grows(dag: Seq<NodeView>, list: Seq<i64>, dtype: DType)
    ensures
        dag.len() <= number_stack(dag, list, dtype).dag.len(),
{
    let parts = numbers(dag, list, dtype, list.len());
    lemma_numbers_grow(dag, list, dtype, list.len());
    lemma_interned_keeps(parts.dag, NodeView { op: Op::Stack, dtype, srcs: parts.srcs });
}

/// A stack of sizes holds them.
pub(crate) proof fn lemma_number_stack(dag: Seq<NodeView>, shape: Seq<usize>, dtype: DType)
    requires
        dag_wf(dag),
        are_indices(shape),
        number_stack(dag, as_indices(shape), dtype).dag.len() <= usize::MAX,
    ensures
        ({
            let new = number_stack(dag, as_indices(shape), dtype);
            &&& holds_node(dag, new.dag, new.id)
            &&& shape_of(new.dag, new.id) == Some(shape)
        }),
{
    let list = as_indices(shape);
    let parts = numbers(dag, list, dtype, list.len());
    let stack = NodeView { op: Op::Stack, dtype, srcs: parts.srcs };
    let new = number_stack(dag, list, dtype);
    lemma_interned_keeps(parts.dag, stack);
    lemma_numbers(dag, list, dtype, list.len());
    lemma_interned_wf(parts.dag, stack);
    lemma_put(parts.dag, stack);
    assert forall|k: int| 0 <= k < parts.srcs.len() implies new.dag[(
    #[trigger] parts.srcs[k]) as int].op == Op::Const(ConstValue::Int(shape[k] as i64)) by {
        assert(parts.dag[parts.srcs[k] as int] == const_node(ConstValue::Int(list[k]), dtype));
    }
    lemma_sizes(new.dag, parts.srcs, shape, shape.len());
    assert(shape.take(shape.len() as int) =~= shape);
}

/// A value in a shape has that shape.
pub(crate) proof fn lemma_reshaped(dag: Seq<NodeView>, value: usize, dtype: DType, shape: Seq<usize>)
    requires
        dag_wf(dag),
        value < dag.len(),
        shape.len() > 0,
        are_indices(shape),
        reshaped(dag, value, dtype, shape).dag.len() <= usize::MAX,
    ensures
        ({
            let new = reshaped(dag, value, dtype, shape);
            &&& holds_node(dag, new.dag, new.id)
            &&& new.dag[new.id as int].op is Reshape
            &&& new.dag[new.id as int].srcs.len() == 2
            &&& new.dag[new.id as int].srcs[0] == value
            &&& new.dag[new.id as int].dtype == dtype
            &&& shape_of(new.dag, new.dag[new.id as int].srcs[1]) == Some(shape)
            &&& dims(new.dag, new.id) == Some(shape)
        }),
{
    let list = as_indices(shape);
    let parts = numbers(dag, list, DType::WeakInt, list.len());
    let stack = NodeView { op: Op::Stack, dtype: DType::WeakInt, srcs: parts.srcs };
    let sizes = number_stack(dag, list, DType::WeakInt);
    let node = NodeView { op: Op::Reshape, dtype, srcs: seq![value, sizes.id] };
    let new = reshaped(dag, value, dtype, shape);
    lemma_interned_keeps(parts.dag, stack);
    lemma_interned_keeps(sizes.dag, node);
    lemma_numbers(dag, list, DType::WeakInt, list.len());
    lemma_interned_wf(parts.dag, stack);
    lemma_put(parts.dag, stack);
    lemma_interned_wf(sizes.dag, node);
    lemma_put(sizes.dag, node);
    assert(new.dag[new.id as int] == node);
    assert(new.dag[new.id as int].srcs[1] < new.id);
    assert forall|k: int| 0 <= k < parts.srcs.len() implies new.dag[(
    #[trigger] parts.srcs[k]) as int].op == Op::Const(ConstValue::Int(shape[k] as i64)) by {
        assert(parts.dag[parts.srcs[k] as int] == const_node(
            ConstValue::Int(list[k]),
            DType::WeakInt,
        ));
        assert(sizes.dag[parts.srcs[k] as int] == parts.dag[parts.srcs[k] as int]);
    }
    assert(new.dag[sizes.id as int] == stack);
    lemma_sizes(new.dag, parts.srcs, shape, shape.len());
    assert(shape.take(shape.len() as int) =~= shape);
    assert(shape_of(new.dag, sizes.id) == Some(shape));
}

/// A value with its axes in another order has its sizes in that order.
pub(crate) proof fn lemma_reordered(dag: Seq<NodeView>, value: usize, dtype: DType, order: Seq<usize>)
    requires
        dag_wf(dag),
        value < dag.len(),
        are_indices(order),
        reordered(dag, value, dtype, as_indices(order)).dag.len() <= usize::MAX,
    ensures
        ({
            let new = reordered(dag, value, dtype, as_indices(order));
            &&& holds_node(dag, new.dag, new.id)
            &&& new.dag[new.id as int].op is Permute
            &&& new.dag[new.id as int].srcs.len() == order.len() + 1
            &&& new.dag[new.id as int].srcs[0] == value
            &&& sizes_of(new.dag, new.dag[new.id as int].srcs.skip(1), order.len()) == Some(order)
            &&& dims(dag, value) matches Some(shape) ==> dims(new.dag, new.id) == permuted(
                shape,
                order,
            )
        }),
{
    let list = as_indices(order);
    let parts = numbers(dag, list, DType::WeakInt, list.len());
    let node = NodeView { op: Op::Permute, dtype, srcs: seq![value] + parts.srcs };
    let new = reordered(dag, value, dtype, list);
    lemma_interned_keeps(parts.dag, node);
    lemma_numbers(dag, list, DType::WeakInt, list.len());
    lemma_interned_wf(parts.dag, node);
    lemma_put(parts.dag, node);
    assert(new.dag[new.id as int] == node);
    let rest = node.srcs.skip(1);
    assert(rest =~= parts.srcs);
    assert forall|k: int| 0 <= k < rest.len() implies new.dag[(#[trigger] rest[k]) as int].op
        == Op::Const(ConstValue::Int(order[k] as i64)) by {
        assert(parts.dag[parts.srcs[k] as int] == const_node(
            ConstValue::Int(list[k]),
            DType::WeakInt,
        ));
    }
    lemma_sizes(new.dag, rest, order, order.len());
    assert(order.take(order.len() as int) =~= order);
    assert(node.srcs[0] == value);
    assert(new.dag[new.id as int].srcs[0] < new.id);
    lemma_dims_extend(dag, new.dag, value);
}

/// An operand that is contracted has the shape of one.
pub(crate) proof fn lemma_contracted_value(
    dag: Seq<NodeView>,
    value: usize,
    order: Seq<usize>,
    shape: Seq<usize>,
)
    requires
        dag_wf(dag),
        value < dag.len(),
        shape.len() > 0,
        are_indices(order),
        are_indices(shape),
        contracted_value(dag, value, order, shape).dag.len() <= usize::MAX,
    ensures
        ({
            let new = contracted_value(dag, value, order, shape);
            &&& holds_node(dag, new.dag, new.id)
            &&& new.dag[new.id as int].op is Reshape
            &&& dims(new.dag, new.id) == Some(shape)
        }),
{
    let dtype = dag[value as int].dtype;
    let turned = reordered(dag, value, dtype, as_indices(order));
    lemma_reshaped_grows(turned.dag, turned.id, dtype, shape);
    lemma_reordered(dag, value, dtype, order);
    lemma_reshaped(turned.dag, turned.id, dtype, shape);
}

pub(crate) proof fn lemma_reshaped_grows(dag: Seq<NodeView>, value: usize, dtype: DType, shape: Seq<usize>)
    ensures
        dag.len() <= reshaped(dag, value, dtype, shape).dag.len(),
{
    let list = as_indices(shape);
    let parts = numbers(dag, list, DType::WeakInt, list.len());
    let sizes = number_stack(dag, list, DType::WeakInt);
    lemma_numbers_grow(dag, list, DType::WeakInt, list.len());
    lemma_interned_keeps(
        parts.dag,
        NodeView { op: Op::Stack, dtype: DType::WeakInt, srcs: parts.srcs },
    );
    lemma_interned_keeps(
        sizes.dag,
        NodeView { op: Op::Reshape, dtype, srcs: seq![value, sizes.id] },
    );
}

pub(crate) proof fn lemma_reordered_grows(dag: Seq<NodeView>, value: usize, dtype: DType, order: Seq<i64>)
    ensures
        dag.len() <= reordered(dag, value, dtype, order).dag.len(),
{
    let parts = numbers(dag, order, DType::WeakInt, order.len());
    lemma_numbers_grow(dag, order, DType::WeakInt, order.len());
    lemma_interned_keeps(
        parts.dag,
        NodeView { op: Op::Permute, dtype, srcs: seq![value] + parts.srcs },
    );
}

pub(crate) proof fn lemma_contracted_grows(
    dag: Seq<NodeView>,
    value: usize,
    order: Seq<usize>,
    shape: Seq<usize>,
)
    ensures
        dag.len() <= contracted_value(dag, value, order, shape).dag.len(),
{
    let dtype = dag[value as int].dtype;
    let turned = reordered(dag, value, dtype, as_indices(order));
    lemma_reordered_grows(dag, value, dtype, as_indices(order));
    lemma_reshaped_grows(turned.dag, turned.id, dtype, shape);
}

proof fn lemma_one_more_taken(taken: Seq<usize>, x: usize, n: nat)
    requires
        n <= usize::MAX,
        !taken.contains(x),
    ensures
        untaken(taken, n) == untaken(taken.push(x), n) + (if x < n {
            1nat
        } else {
            0nat
        }),
    decreases n,
{
    if n > 0 {
        lemma_one_more_taken(taken, x, (n - 1) as nat);
        let at = (n - 1) as usize;
        let more = taken.push(x);
        assert(more.contains(at) <==> taken.contains(at) || at == x) by {
            if taken.contains(at) {
                let i = taken.index_of(at);
                assert(more[i] == at);
            }
            if at == x {
                assert(more[taken.len() as int] == x);
            }
        }
    }
}

proof fn lemma_none_taken(n: nat)
    ensures
        untaken(Seq::empty(), n) == n,
    decreases n,
{
    if n > 0 {
        lemma_none_taken((n - 1) as nat);
    }
}

/// The coordinates that are taken and those that are not are all of them.
pub(crate) proof fn lemma_all_taken(taken: Seq<usize>, n: nat)
    requires
        n <= usize::MAX,
        taken.no_duplicates(),
        forall|i: int| 0 <= i < taken.len() ==> (#[trigger] taken[i]) < n,
    ensures
        untaken(taken, n) + taken.len() == n,
    decreases taken.len(),
{
    if taken.len() == 0 {
        assert(taken =~= Seq::empty());
        lemma_none_taken(n);
    } else {
        let rest = taken.drop_last();
        let x = taken.last();
        assert forall|i: int| 0 <= i < rest.len() implies (#[trigger] rest[i]) < n by {
            assert(taken[i] < n);
        }
        assert(!rest.contains(x)) by {
            if rest.contains(x) {
                let i = rest.index_of(x);
                assert(taken[i] == taken[taken.len() - 1]);
            }
        }
        lemma_all_taken(rest, n);
        lemma_one_more_taken(rest, x, n);
        assert(rest.push(x) =~= taken);
        assert(taken[taken.len() - 1] < n);
    }
}

pub(crate) proof fn lemma_places_inside(map: Seq<AxisId>, axes: Seq<(AxisId, usize)>, n: nat)
    requires
        map.len() <= usize::MAX,
        n <= axes.len(),
        places(map, axes, n) is Some,
    ensures
        forall|i: int|
            0 <= i < places(map, axes, n)->0.len() ==> (#[trigger] places(map, axes, n)->0[i])
                < map.len(),
    decreases n,
{
    if n > 0 {
        lemma_places_inside(map, axes, (n - 1) as nat);
        lemma_place_inside(map, axes[n - 1].0, map.len());
        let all = places(map, axes, n)->0;
        let rest = places(map, axes, (n - 1) as nat)->0;
        assert forall|i: int| 0 <= i < all.len() implies (#[trigger] all[i]) < map.len() by {
            if i < rest.len() {
                assert(all[i] == rest[i]);
            }
        }
    }
}

pub(crate) proof fn lemma_place_inside(map: Seq<AxisId>, axis: AxisId, n: nat)
    requires
        n <= map.len() <= usize::MAX,
    ensures
        place_of(map, axis, n) matches Some(at) ==> at < n,
    decreases n,
{
    if n > 0 {
        lemma_place_inside(map, axis, (n - 1) as nat);
    }
}

proof fn lemma_put_back_at(
    outer: Seq<usize>,
    taken: Seq<usize>,
    sizes: Seq<usize>,
    n: nat,
    k: int,
)
    requires
        0 <= k < n,
    ensures
        put_back(outer, taken, sizes, n).len() == n,
        put_back(outer, taken, sizes, n)[k] == if taken.contains(k as usize) {
            sizes[taken.index_of(k as usize)]
        } else {
            outer[untaken(taken, k as nat) as int]
        },
    decreases n,
{
    reveal_with_fuel(put_back, 2);
    if k < n - 1 {
        lemma_put_back_at(outer, taken, sizes, (n - 1) as nat, k);
    } else if n > 1 {
        lemma_put_back_at(outer, taken, sizes, (n - 1) as nat, 0);
    }
}

/// Putting the lanes of a product where the axes of the result are gives the
/// result its shape.
proof fn lemma_back_order(map: Seq<AxisId>, inner: Seq<usize>, axes: Seq<(AxisId, usize)>)
    requires
        map.len() <= usize::MAX,
        unrolled(map, inner, axes) is Some,
        inner.len() + axes.len() <= usize::MAX,
    ensures
        ({
            let taken = places(map, axes, axes.len())->0;
            let outer = inner.drop_last();
            let split = outer + extents(axes, axes.len());
            permuted(split, back_order(taken, outer.len(), map.len())) == unrolled(map, inner, axes)
        }),
{
    let taken = places(map, axes, axes.len())->0;
    let outer = inner.drop_last();
    let sizes = extents(axes, axes.len());
    let split = outer + sizes;
    let n = map.len();
    let order = back_order(taken, outer.len(), n);
    lemma_places_distinct(map, axes, axes.len());
    lemma_places_inside(map, axes, axes.len());
    lemma_all_taken(taken, n);
    assert(order.len() == split.len());
    assert forall|k: int| 0 <= k < order.len() implies (#[trigger] order[k]) < split.len()
        && split[order[k] as int] == put_back(outer, taken, sizes, n)[k] by {
        lemma_put_back_at(outer, taken, sizes, n, k);
        if taken.contains(k as usize) {
            let j = taken.index_of(k as usize);
            assert(taken[j] == k as usize);
            assert(split[outer.len() + j] == sizes[j]);
        } else {
            lemma_untaken_grows(taken, (k + 1) as nat, n);
            assert(untaken(taken, (k + 1) as nat) == untaken(taken, k as nat) + 1);
            let at = untaken(taken, k as nat);
            assert(split[at as int] == outer[at as int]);
        }
    }
    let back = put_back(outer, taken, sizes, n);
    if n > 0 {
        lemma_put_back_at(outer, taken, sizes, n, 0);
    }
    assert(permuted(split, order)->0 =~= back);
}

/// The product of contracted operands.
proof fn lemma_inner_product(
    dag: Seq<NodeView>,
    form: WmmaMetadata,
    dtype: DType,
    srcs: Seq<usize>,
    plan: Plan,
)
    requires
        dag_wf(dag),
        srcs.len() >= 3,
        forall|k: int| 0 <= k < srcs.len() ==> (#[trigger] srcs[k]) < dag.len(),
        is_writable(plan),
        plan.shapes.a.len() > 0,
        plan.shapes.b.len() > 0,
        inner_product(dag, form, dtype, srcs, plan).dag.len() <= usize::MAX,
    ensures
        ({
            let product = inner_product(dag, form, dtype, srcs, plan);
            let node = product.dag[product.id as int];
            &&& holds_node(dag, product.dag, product.id)
            &&& node.op == Op::Wmma(form.flat())
            &&& node.srcs.len() == 3
            &&& node.srcs[2] == srcs[2]
            &&& node.srcs[0] < product.dag.len()
            &&& node.srcs[1] < product.dag.len()
            &&& dims(product.dag, node.srcs[0]) == Some(plan.shapes.a)
            &&& dims(product.dag, node.srcs[1]) == Some(plan.shapes.b)
        }),
{
    assert(srcs[0] < dag.len() && srcs[1] < dag.len() && srcs[2] < dag.len());
    let a = contracted_value(dag, srcs[0], plan.left, plan.shapes.a);
    let b = contracted_value(a.dag, srcs[1], plan.right, plan.shapes.b);
    let want = NodeView { op: Op::Wmma(form.flat()), dtype, srcs: seq![a.id, b.id, srcs[2]] };
    let product = put(b.dag, want);
    lemma_contracted_grows(a.dag, srcs[1], plan.right, plan.shapes.b);
    lemma_interned_keeps(b.dag, want);
    lemma_contracted_value(dag, srcs[0], plan.left, plan.shapes.a);
    lemma_contracted_value(a.dag, srcs[1], plan.right, plan.shapes.b);
    lemma_interned_wf(b.dag, want);
    lemma_put(b.dag, want);
    assert(extends(a.dag, product.dag));
    lemma_dims_extend(a.dag, product.dag, a.id);
    lemma_dims_extend(b.dag, product.dag, b.id);
    assert(want.srcs[0] == a.id && want.srcs[1] == b.id && want.srcs[2] == srcs[2]);
}

/// What stands for an expanded product.
proof fn lemma_product_node(
    dag: Seq<NodeView>,
    form: WmmaMetadata,
    dtype: DType,
    srcs: Seq<usize>,
    plan: Plan,
)
    requires
        dag_wf(dag),
        srcs.len() >= 3,
        forall|k: int| 0 <= k < srcs.len() ==> (#[trigger] srcs[k]) < dag.len(),
        is_writable(plan),
        plan.shapes.a.len() > 0,
        plan.shapes.b.len() > 0,
        product_node(dag, form, dtype, srcs, plan).dag.len() <= usize::MAX,
    ensures
        ({
            let new = product_node(dag, form, dtype, srcs, plan);
            let product = inner_product(dag, form, dtype, srcs, plan);
            let node = new.dag[product.id as int];
            &&& new.id < new.dag.len()
            &&& dims(new.dag, new.id) == permuted(plan.split, plan.back)
            &&& product.id < new.dag.len()
            &&& node.op == Op::Wmma(form.flat())
            &&& node.srcs.len() == 3
            &&& node.srcs[2] == srcs[2]
            &&& dims(new.dag, node.srcs[0]) == Some(plan.shapes.a)
            &&& dims(new.dag, node.srcs[1]) == Some(plan.shapes.b)
        }),
{
    let product = inner_product(dag, form, dtype, srcs, plan);
    let split = reshaped(product.dag, product.id, dtype, plan.split);
    let new = product_node(dag, form, dtype, srcs, plan);
    lemma_reshaped_grows(product.dag, product.id, dtype, plan.split);
    lemma_reordered_grows(split.dag, split.id, dtype, as_indices(plan.back));
    lemma_inner_product(dag, form, dtype, srcs, plan);
    lemma_reshaped(product.dag, product.id, dtype, plan.split);
    lemma_reordered(split.dag, split.id, dtype, plan.back);
    let node = product.dag[product.id as int];
    assert(extends(product.dag, new.dag));
    assert(new.dag[product.id as int] == node);
    lemma_dims_extend(product.dag, new.dag, node.srcs[0]);
    lemma_dims_extend(product.dag, new.dag, node.srcs[1]);
}

/// An expanded product is a product without axes, over operands that are
/// contracted to the shapes that the axes give them, and what stands for it has
/// the shape that they give the result.
pub proof fn lemma_expanded_product_has_its_shape(
    dag: Seq<NodeView>,
    map: Seq<AxisId>,
    form: WmmaMetadata,
    dtype: DType,
    srcs: Seq<usize>,
)
    requires
        dag_wf(dag),
        map.len() <= usize::MAX,
        forall|k: int| 0 <= k < srcs.len() ==> (#[trigger] srcs[k]) < dag.len(),
        product_plan(dag, map, srcs) is Some,
        product_plan(dag, map, srcs)->0.split.len() < usize::MAX,
        product_node(dag, form, dtype, srcs, product_plan(dag, map, srcs)->0).dag.len() <= usize::MAX,
    ensures
        ({
            let plan = product_plan(dag, map, srcs)->0;
            let new = product_node(dag, form, dtype, srcs, plan);
            let product = inner_product(dag, form, dtype, srcs, plan);
            let node = new.dag[product.id as int];
            &&& expanded_wmma(dag, map, form, dtype, srcs) == Some(new)
            &&& new.id < new.dag.len()
            &&& dims(new.dag, new.id) == Some(plan.shapes.output)
            &&& product.id < new.dag.len()
            &&& node.op == Op::Wmma(form.flat())
            &&& node.srcs.len() == 3
            &&& node.srcs[2] == srcs[2]
            &&& dims(new.dag, node.srcs[0]) == Some(plan.shapes.a)
            &&& dims(new.dag, node.srcs[1]) == Some(plan.shapes.b)
        }),
{
    let plan = product_plan(dag, map, srcs)->0;
    let axes = upcast_axes(dag, srcs)->0;
    lemma_back_order(map, plan.shapes.inner, axes.c);
    lemma_product_node(dag, form, dtype, srcs, plan);
}

/// A product that has no axes to be expanded along is left alone.
pub proof fn lemma_product_without_axes_is_left_alone(
    dag: Seq<NodeView>,
    map: Seq<AxisId>,
    form: WmmaMetadata,
    dtype: DType,
    srcs: Seq<usize>,
)
    requires
        srcs.len() == 3,
    ensures
        expanded_wmma(dag, map, form, dtype, srcs) is None,
{
}

} // verus!
