//! What loops that become axes of values count, and what is reduced along them.

use vstd::prelude::*;

use crate::builders::{const_node, lemma_interned_keeps, put};
use crate::coordinates::{
    axis_dims, coordinate_of, coordinates, counts_to, dims_of, leading_reduce, left_loops,
    number_stack, numbers, other_places, reordered, stand_in, taken_place, taken_places,
};
use crate::expanding::{at_places, lemma_free, lemma_turned, without};
use crate::graph::{
    dag_wf, lemma_interned_wf, AxisId, ConstValue, DType, NodeView, Op, ReduceOp,
};
use crate::lanes::{element, lane_dims, lemma_shape_extends, viewed_index, Element};
use crate::movement::{is_inside, is_order, lemma_digits_of_offset, offset};
use crate::meaning::lemma_arity;
use crate::passes::{extends, lemma_put, with_srcs};
use crate::product::{are_indices, as_indices, free_places};
use crate::product_shape::{
    lemma_all_taken, lemma_number_stack, lemma_number_stack_grows, lemma_numbers,
    lemma_place_inside, lemma_reordered,
};
use crate::scope::in_scope;
use crate::shape::shape_of;
use crate::tracing::{lemma_source_extends, source_of};

verus! {

/// Whether coordinates are zero everywhere but at one place.
pub open spec fn is_only_at(index: Seq<usize>, at: int) -> bool {
    forall|k: int| 0 <= k < index.len() && k != at ==> (#[trigger] index[k]) == 0
}

proof fn lemma_offset_along(shape: Seq<usize>, index: Seq<usize>, at: int, n: nat)
    requires
        n <= shape.len(),
        index.len() == shape.len(),
        0 <= at < shape.len(),
        is_only_at(index, at),
        forall|k: int| 0 <= k < shape.len() && k != at ==> (#[trigger] shape[k]) == 1,
    ensures
        offset(shape, index, n) == if at < n {
            index[at] as nat
        } else {
            0
        },
    decreases n,
{
    if n > 0 {
        lemma_offset_along(shape, index, at, (n - 1) as nat);
        let before = offset(shape, index, (n - 1) as nat);
        if n - 1 != at {
            assert(shape[n - 1] == 1 && index[n - 1] == 0);
            assert(before * 1 == before);
        } else {
            assert(before == 0);
            assert(0 * (shape[n - 1] as nat) == 0);
        }
    }
}

/// A stack of numbers has each of them at its place.
proof fn lemma_stack_counts(dag: Seq<NodeView>, list: Seq<i64>, dtype: DType, i: usize)
    requires
        dag_wf(dag),
        i < list.len() <= usize::MAX,
        number_stack(dag, list, dtype).dag.len() <= usize::MAX,
    ensures
        ({
            let new = number_stack(dag, list, dtype);
            let node = new.dag[new.id as int];
            &&& dag_wf(new.dag)
            &&& extends(dag, new.dag)
            &&& new.id < new.dag.len()
            &&& node.op is Stack
            &&& node.srcs.len() == list.len()
            &&& node.srcs[i as int] < new.id
            &&& node.srcs[0] < new.id
            &&& new.dag[node.srcs[i as int] as int] == const_node(ConstValue::Int(list[i as int]), dtype)
            &&& new.dag[node.srcs[0] as int] == const_node(ConstValue::Int(list[0]), dtype)
        }),
{
    let parts = numbers(dag, list, dtype, list.len());
    let stack = NodeView { op: Op::Stack, dtype, srcs: parts.srcs };
    let new = number_stack(dag, list, dtype);
    lemma_interned_keeps(parts.dag, stack);
    lemma_numbers(dag, list, dtype, list.len());
    lemma_interned_wf(parts.dag, stack);
    lemma_put(parts.dag, stack);
    assert(new.dag[new.id as int] == stack);
    assert(parts.dag[parts.srcs[i as int] as int] == const_node(
        ConstValue::Int(list[i as int]),
        dtype,
    ));
    assert(parts.dag[parts.srcs[0] as int] == const_node(ConstValue::Int(list[0]), dtype));
    assert(new.dag[new.id as int].srcs[i as int] < new.id);
    assert(new.dag[new.id as int].srcs[0] < new.id);
}

/// What a loop counts, as a value with an axis for each loop: at every place it
/// is the coordinate along the axis of the loop.
pub proof fn lemma_coordinates_are_counts(
    dag: Seq<NodeView>,
    dtype: DType,
    len: nat,
    at: int,
    extent: i64,
    index: Seq<usize>,
)
    requires
        dag_wf(dag),
        0 <= at < len,
        0 < extent <= usize::MAX,
        index.len() == len,
        is_only_at(index, at),
        index[at] < extent,
        coordinates(dag, dtype, len, at, extent).dag.len() <= usize::MAX,
    ensures
        ({
            let new = coordinates(dag, dtype, len, at, extent);
            let found = element(new.dag, new.id, index);
            &&& new.dag[found.id as int] == const_node(ConstValue::Int(index[at] as i64), dtype)
            &&& found.index == Seq::<usize>::empty()
        }),
{
    let list = counts_to(extent);
    let stack = number_stack(dag, list, dtype);
    let i = index[at];
    let new = coordinates(dag, dtype, len, at, extent);
    if len == 1 {
        lemma_stack_counts(dag, list, dtype, i);
        assert(index =~= seq![i]);
        lemma_stacked_count(new.dag, stack.id, i);
    } else {
        let sizes = axis_dims(len, at, extent);
        let shape = along(len, at, extent as usize);
        assert(as_indices(shape) =~= sizes);
        assert(are_indices(shape));
        let dims = number_stack(stack.dag, sizes, DType::WeakInt);
        let want = NodeView { op: Op::Reshape, dtype, srcs: seq![stack.id, dims.id] };
        lemma_interned_keeps(dims.dag, want);
        lemma_number_stack_grows(stack.dag, sizes, DType::WeakInt);
        lemma_stack_counts(dag, list, dtype, i);
        lemma_number_stack(stack.dag, shape, DType::WeakInt);
        lemma_interned_wf(dims.dag, want);
        lemma_put(dims.dag, want);
        assert(extends(stack.dag, new.dag));
        let node = stack.dag[stack.id as int];
        lemma_shape_extends(dims.dag, new.dag, dims.id);
        assert(new.dag[node.srcs[i as int] as int] == stack.dag[node.srcs[i as int] as int]);
        assert(new.dag[node.srcs[0] as int] == stack.dag[node.srcs[0] as int]);
        assert(new.dag[stack.id as int] == node);
        assert(new.dag[new.id as int] == want);
        lemma_reshaped_count(new.dag, new.id, stack.id, index, at, extent as usize);
    }
}

/// A shape with one size everywhere but at one place.
spec fn along(len: nat, at: int, extent: usize) -> Seq<usize> {
    Seq::new(
        len,
        |k: int|
            if k == at {
                extent
            } else {
                1usize
            },
    )
}

proof fn lemma_stacked_count(dag: Seq<NodeView>, stack: usize, i: usize)
    requires
        dag[stack as int].op is Stack,
        i < dag[stack as int].srcs.len(),
        dag[stack as int].srcs[i as int] < stack,
        dag[dag[stack as int].srcs[i as int] as int].op is Const,
    ensures
        element(dag, stack, seq![i]) == (Element {
            id: dag[stack as int].srcs[i as int],
            index: Seq::<usize>::empty(),
        }),
{
    assert(seq![i].skip(1) =~= Seq::<usize>::empty());
    reveal_with_fuel(element, 2);
}

proof fn lemma_reshaped_count(
    dag: Seq<NodeView>,
    id: usize,
    stack: usize,
    index: Seq<usize>,
    at: int,
    extent: usize,
)
    requires
        dag_wf(dag),
        id < dag.len(),
        dag[id as int].op is Reshape,
        dag[id as int].srcs.len() == 2,
        dag[id as int].srcs[0] == stack,
        0 <= at < index.len(),
        shape_of(dag, dag[id as int].srcs[1]) == Some(along(index.len(), at, extent)),
        is_only_at(index, at),
        index[at] < extent,
        dag[stack as int].op is Stack,
        dag[stack as int].srcs.len() == extent,
        dag[dag[stack as int].srcs[0] as int].op is Const,
        dag[dag[stack as int].srcs[index[at] as int] as int].op is Const,
    ensures
        element(dag, id, index) == (Element {
            id: dag[stack as int].srcs[index[at] as int],
            index: Seq::<usize>::empty(),
        }),
{
    let node = dag[stack as int];
    let i = index[at];
    let shape = along(index.len(), at, extent);
    let from = seq![extent];
    assert(dag[id as int].srcs[0] < id);
    assert(dag[stack as int].srcs[0] < stack);
    assert(dag[stack as int].srcs[i as int] < stack);
    assert(lane_dims(dag, node.srcs[0]) == Some(Seq::<usize>::empty()));
    assert(lane_dims(dag, stack)->0 =~= from);
    lemma_offset_along(shape, index, at, index.len());
    assert(is_inside(from, seq![i]));
    assert(offset(from, seq![i], 0) == 0);
    assert(offset(from, seq![i], 1) == 0 * (extent as nat) + i as nat);
    lemma_digits_of_offset(from, seq![i], 1);
    assert(seq![i].take(1) =~= seq![i]);
    assert(viewed_index(dag, dag[id as int], index) == Some(seq![i]));
    lemma_stacked_count(dag, stack, i);
}

/// Whether a loop that a reduction runs over is an axis of its value, at a place.
pub open spec fn counts_at(
    dag: Seq<NodeView>,
    walk: Seq<usize>,
    axes: Seq<AxisId>,
    id: usize,
    k: int,
    at: usize,
) -> bool {
    let srcs = dag[id as int].srcs;
    &&& 1 <= k < srcs.len()
    &&& coordinate_of(dag, walk, axes, srcs[k]) matches Some((place, _)) && place == at
    &&& in_scope(dag, srcs[0], srcs[k])
}

/// Whether some places are those that a reduction takes away, each once.
pub open spec fn are_reduced(
    dag: Seq<NodeView>,
    walk: Seq<usize>,
    axes: Seq<AxisId>,
    id: usize,
    taken: Seq<usize>,
) -> bool {
    &&& taken.no_duplicates()
    &&& forall|at: usize|
        taken.contains(at) <==> exists|k: int| #[trigger] counts_at(dag, walk, axes, id, k, at)
}

/// Whether a value is reduced along some of its axes, and what is left has one
/// place there: the axes in question are put in front of the others, which keep
/// their order, and those in front are reduced.
pub open spec fn is_reduced_along(
    dag: Seq<NodeView>,
    id: usize,
    with: ReduceOp,
    dtype: DType,
    value: usize,
    taken: Seq<usize>,
    n: nat,
) -> bool {
    let node = dag[id as int];
    let total = dag[node.srcs[0] as int];
    &&& node.op is Reshape
    &&& node.dtype == dtype
    &&& node.srcs.len() == 2
    &&& total.op == (Op::AxisReduce { with, count: taken.len() as usize })
    &&& total.dtype == dtype
    &&& total.srcs.len() > 0
    &&& forall|index: Seq<usize>|
        #![trigger at_places(index, taken)]
        index.len() == n ==> source_of(
            dag,
            total.srcs[0],
            at_places(index, taken) + without(index, taken, n),
            value,
        ) == Some(index)
}

/// The loops that a node runs over still: those that are no axes of its value, as
/// what stands for them, or as they are where they become axes of others.
pub open spec fn runs_over(
    dag: Seq<NodeView>,
    walk: Seq<usize>,
    axes: Seq<AxisId>,
    id: usize,
    srcs: Seq<usize>,
    loops: Seq<usize>,
) -> bool {
    let own = dag[id as int].srcs;
    forall|x: usize| #[trigger]
        loops.contains(x) <==> exists|k: int|
            #![trigger own[k]]
            1 <= k < own.len() && (forall|at: usize| !counts_at(dag, walk, axes, id, k, at)) && x
                == if coordinate_of(dag, walk, axes, own[k]) is Some {
                own[k]
            } else {
                srcs[k]
            }
}

proof fn lemma_taken(
    dag: Seq<NodeView>,
    walk: Seq<usize>,
    axes: Seq<AxisId>,
    id: usize,
    n: nat,
) -> (taken: Seq<usize>)
    requires
        axes.len() <= usize::MAX,
        axes.len() <= i64::MAX,
        n <= dag[id as int].srcs.len(),
    ensures
        taken_places(dag, walk, axes, id, n) == as_indices(taken),
        taken.no_duplicates(),
        forall|i: int| 0 <= i < taken.len() ==> (#[trigger] taken[i]) < axes.len(),
        forall|at: usize| #[trigger]
            taken.contains(at) <==> exists|k: int|
                k < n && #[trigger] counts_at(dag, walk, axes, id, k, at),
    decreases n,
{
    if n <= 1 {
        assert(as_indices(Seq::<usize>::empty()) =~= Seq::<i64>::empty());
        Seq::empty()
    } else {
        let rest = lemma_taken(dag, walk, axes, id, (n - 1) as nat);
        let srcs = dag[id as int].srcs;
        let before = taken_places(dag, walk, axes, id, (n - 1) as nat);
        let own = srcs[n - 1];
        match taken_place(dag, walk, axes, id, n - 1) {
            Some(at) => {
                let place = (coordinate_of(dag, walk, axes, own)->0).0;
                lemma_place_is_below(dag, walk, axes, own);
                assert(at == place as i64);
                assert(counts_at(dag, walk, axes, id, n - 1, place));
                assert(before.contains(at) <==> rest.contains(place)) by {
                    if before.contains(at) {
                        let i = before.index_of(at);
                        assert(rest[i] == place);
                    }
                    if rest.contains(place) {
                        let i = rest.index_of(place);
                        assert(before[i] == at);
                    }
                }
                let taken = if rest.contains(place) {
                    rest
                } else {
                    rest.push(place)
                };
                if !rest.contains(place) {
                    assert(as_indices(taken) =~= before.push(at));
                }
                assert forall|p: usize| #[trigger] taken.contains(p) <==> exists|k: int|
                    k < n && #[trigger] counts_at(dag, walk, axes, id, k, p) by {
                    if taken.contains(p) {
                        if p == place {
                            assert(counts_at(dag, walk, axes, id, n - 1, p));
                        } else {
                            assert(rest.contains(p)) by {
                                let i = taken.index_of(p);
                                assert(taken[i] == p);
                                assert(rest[i] == p);
                            }
                        }
                    }
                    if exists|k: int| k < n && #[trigger] counts_at(dag, walk, axes, id, k, p) {
                        let k = choose|k: int|
                            k < n && #[trigger] counts_at(dag, walk, axes, id, k, p);
                        if k == n - 1 {
                            assert(p == place);
                            if !rest.contains(place) {
                                assert(taken.last() == place);
                            }
                        } else {
                            assert(rest.contains(p));
                            let i = rest.index_of(p);
                            assert(taken[i] == p);
                        }
                    }
                }
                taken
            },
            None => {
                assert forall|p: usize| #[trigger] rest.contains(p) <==> exists|k: int|
                    k < n && #[trigger] counts_at(dag, walk, axes, id, k, p) by {
                    assert(!counts_at(dag, walk, axes, id, n - 1, p));
                }
                rest
            },
        }
    }
}

proof fn lemma_place_is_below(dag: Seq<NodeView>, walk: Seq<usize>, axes: Seq<AxisId>, id: usize)
    requires
        axes.len() <= usize::MAX,
    ensures
        coordinate_of(dag, walk, axes, id) matches Some((at, _)) ==> at < axes.len(),
{
    match dag[id as int].op {
        Op::Range { axis, .. } => {
            lemma_place_inside(axes, axis, axes.len());
        },
        _ => {},
    }
}

proof fn lemma_others(taken: Seq<usize>, n: nat)
    requires
        n <= usize::MAX,
        n <= i64::MAX,
        are_indices(taken),
    ensures
        other_places(as_indices(taken), n) == as_indices(free_places(taken, n)),
    decreases n,
{
    if n > 0 {
        lemma_others(taken, (n - 1) as nat);
        let list = as_indices(taken);
        let (x, y) = ((n - 1) as usize, (n - 1) as i64);
        assert(list.contains(y) <==> taken.contains(x)) by {
            if list.contains(y) {
                let i = list.index_of(y);
                assert(taken[i] == x);
            }
            if taken.contains(x) {
                let i = taken.index_of(x);
                assert(list[i] == y);
            }
        }
        let rest = free_places(taken, (n - 1) as nat);
        assert(as_indices(rest.push(x)) =~= as_indices(rest).push(y));
    } else {
        assert(as_indices(Seq::<usize>::empty()) =~= Seq::<i64>::empty());
    }
}

proof fn lemma_taken_first(taken: Seq<usize>, n: nat)
    requires
        n <= usize::MAX,
        taken.no_duplicates(),
        forall|k: int| 0 <= k < taken.len() ==> (#[trigger] taken[k]) < n,
    ensures
        is_order(taken + free_places(taken, n)),
        taken.len() + free_places(taken, n).len() == n,
{
    let free = free_places(taken, n);
    lemma_free(Seq::new(n, |k: int| 0usize), taken, n);
    lemma_all_taken(taken, n);
    let order = taken + free;
    let m = taken.len();
    assert forall|i: int| 0 <= i < order.len() implies (#[trigger] order[i]) < order.len() by {
        if i >= m {
            assert(order[i] == free[i - m]);
        }
    }
    assert forall|i: int, j: int| 0 <= i < j < order.len() implies (#[trigger] order[i]) != (
    #[trigger] order[j]) by {
        if i < m && j >= m {
            assert(order[j] == free[j - m]);
            assert(taken.contains(order[i]));
        } else if i >= m {
            assert(order[i] == free[i - m] && order[j] == free[j - m]);
        }
    }
}

proof fn lemma_left(
    dag: Seq<NodeView>,
    walk: Seq<usize>,
    axes: Seq<AxisId>,
    id: usize,
    srcs: Seq<usize>,
    bound: int,
    n: nat,
)
    requires
        n <= dag[id as int].srcs.len(),
        srcs.len() == dag[id as int].srcs.len(),
        forall|k: int| 0 <= k < srcs.len() ==> (#[trigger] srcs[k]) < bound,
        forall|k: int| 0 <= k < srcs.len() ==> (#[trigger] dag[id as int].srcs[k]) < bound,
    ensures
        ({
            let own = dag[id as int].srcs;
            let loops = left_loops(dag, walk, axes, id, srcs, n);
            &&& forall|i: int| 0 <= i < loops.len() ==> (#[trigger] loops[i]) < bound
            &&& forall|x: usize| #[trigger]
                loops.contains(x) <==> exists|k: int|
                    #![trigger own[k]]
                    1 <= k < n && (forall|at: usize| !counts_at(dag, walk, axes, id, k, at)) && x
                        == if coordinate_of(dag, walk, axes, own[k]) is Some {
                        own[k]
                    } else {
                        srcs[k]
                    }
        }),
    decreases n,
{
    if n > 1 {
        lemma_left(dag, walk, axes, id, srcs, bound, (n - 1) as nat);
        let own = dag[id as int].srcs;
        let rest = left_loops(dag, walk, axes, id, srcs, (n - 1) as nat);
        let loops = left_loops(dag, walk, axes, id, srcs, n);
        let found = taken_place(dag, walk, axes, id, n - 1);
        let last = if coordinate_of(dag, walk, axes, own[n - 1]) is Some {
            own[n - 1]
        } else {
            srcs[n - 1]
        };
        assert(own[n - 1] < bound && srcs[n - 1] < bound);
        let m = n - 1;
        assert(found is Some <==> exists|at: usize| #[trigger]
            counts_at(dag, walk, axes, id, m, at)) by {
            if found is Some {
                let place = (coordinate_of(dag, walk, axes, own[m])->0).0;
                assert(counts_at(dag, walk, axes, id, m, place));
            }
        }
        assert forall|x: usize| #[trigger] loops.contains(x) <==> exists|k: int|
            #![trigger own[k]]
            1 <= k < n && (forall|at: usize| !counts_at(dag, walk, axes, id, k, at)) && x
                == if coordinate_of(dag, walk, axes, own[k]) is Some {
                own[k]
            } else {
                srcs[k]
            } by {
            assert(rest.contains(x) <==> exists|k: int|
                #![trigger own[k]]
                1 <= k < n - 1 && (forall|at: usize| !counts_at(dag, walk, axes, id, k, at)) && x
                    == if coordinate_of(dag, walk, axes, own[k]) is Some {
                    own[k]
                } else {
                    srcs[k]
                });
            if found is None {
                assert(loops == rest.push(last));
                assert(loops.contains(x) <==> rest.contains(x) || x == last) by {
                    if rest.contains(x) {
                        assert(loops[rest.index_of(x)] == x);
                    }
                    assert(loops[rest.len() as int] == last);
                    if loops.contains(x) {
                        let i = loops.index_of(x);
                        if i < rest.len() {
                            assert(rest[i] == x);
                        }
                    }
                }
                assert(own[n - 1] == own[n - 1]);
            }
        }
    }
}

proof fn lemma_dims_len(
    dag: Seq<NodeView>,
    walk: Seq<usize>,
    axes: Seq<AxisId>,
    id: usize,
    n: nat,
)
    requires
        axes.len() <= usize::MAX,
    ensures
        dims_of(dag, walk, axes, id, n).len() == axes.len(),
    decreases n,
{
    if n > 0 {
        lemma_place_is_below(dag, walk, axes, walk[n - 1]);
        lemma_dims_len(dag, walk, axes, id, (n - 1) as nat);
    }
}

proof fn lemma_reduced_value(
    now: Seq<NodeView>,
    value: usize,
    dtype: DType,
    with: ReduceOp,
    taken: Seq<usize>,
    loops: Seq<usize>,
    dims: Seq<i64>,
    n: nat,
)
    requires
        dag_wf(now),
        value < now.len(),
        0 < n <= usize::MAX,
        n <= i64::MAX,
        dims.len() == n,
        taken.no_duplicates(),
        forall|k: int| 0 <= k < taken.len() ==> (#[trigger] taken[k]) < n,
        forall|k: int| 0 <= k < loops.len() ==> (#[trigger] loops[k]) < now.len(),
        ({
            let turned = reordered(now, value, dtype, as_indices(taken + free_places(taken, n)));
            leading_reduce(
                turned.dag,
                Op::AxisReduce { with, count: taken.len() as usize },
                dtype,
                turned.id,
                loops,
                dims,
            ).dag.len() <= usize::MAX
        }),
    ensures
        ({
            let turned = reordered(now, value, dtype, as_indices(taken + free_places(taken, n)));
            let new = leading_reduce(
                turned.dag,
                Op::AxisReduce { with, count: taken.len() as usize },
                dtype,
                turned.id,
                loops,
                dims,
            );
            &&& is_reduced_along(new.dag, new.id, with, dtype, value, taken, n)
            &&& new.dag[new.dag[new.id as int].srcs[0] as int].srcs.skip(1) == loops
        }),
{
    let order = taken + free_places(taken, n);
    let turned = reordered(now, value, dtype, as_indices(order));
    let op = Op::AxisReduce { with, count: taken.len() as usize };
    let want = NodeView { op, dtype, srcs: seq![turned.id] + loops };
    let total = put(turned.dag, want);
    let shape = number_stack(total.dag, dims, DType::WeakInt);
    let last = NodeView { op: Op::Reshape, dtype, srcs: seq![total.id, shape.id] };
    let new = put(shape.dag, last);
    lemma_interned_keeps(shape.dag, last);
    lemma_number_stack_grows(total.dag, dims, DType::WeakInt);
    lemma_interned_keeps(turned.dag, want);
    lemma_taken_first(taken, n);
    assert(are_indices(order));
    lemma_reordered(now, value, dtype, order);
    assert forall|k: int| 0 <= k < want.srcs.len() implies (#[trigger] want.srcs[k])
        < turned.dag.len() by {
        if k > 0 {
            assert(want.srcs[k] == loops[k - 1]);
        }
    }
    lemma_interned_wf(turned.dag, want);
    lemma_put(turned.dag, want);
    lemma_stack_counts(total.dag, dims, DType::WeakInt, 0);
    lemma_interned_wf(shape.dag, last);
    lemma_put(shape.dag, last);
    assert(new.dag[total.id as int] == want);
    assert(new.dag[new.id as int] == last);
    assert(want.srcs.skip(1) =~= loops);
    assert(want.srcs[0] == turned.id);
    assert(extends(turned.dag, new.dag));
    assert(turned.dag[turned.id as int].srcs[0] < turned.id);
    assert forall|index: Seq<usize>|
        #![trigger at_places(index, taken)]
        index.len() == n implies source_of(
        new.dag,
        turned.id,
        at_places(index, taken) + without(index, taken, n),
        value,
    ) == Some(index) by {
        lemma_free(index, taken, n);
        let whole = at_places(index, taken) + without(index, taken, n);
        assert(whole =~= at_places(index, order));
        lemma_turned(turned.dag, turned.id, order, index);
        reveal_with_fuel(source_of, 2);
        lemma_source_extends(turned.dag, new.dag, turned.id, whole, value);
    }
}

/// A reduction over loops that are axes of its value reduces the value along
/// exactly those axes, and runs over the other loops still.
pub proof fn lemma_reduction_takes_its_axes(
    dag: Seq<NodeView>,
    walk: Seq<usize>,
    axes: Seq<AxisId>,
    id: usize,
    now: Seq<NodeView>,
    srcs: Seq<usize>,
    with: ReduceOp,
)
    requires
        dag_wf(dag),
        dag_wf(now),
        extends(dag, now),
        id < dag.len(),
        dag[id as int].op == Op::Reduce(with),
        axes.len() <= usize::MAX,
        axes.len() <= i64::MAX,
        srcs.len() == dag[id as int].srcs.len(),
        forall|k: int| 0 <= k < srcs.len() ==> (#[trigger] srcs[k]) < now.len(),
        stand_in(dag, walk, axes, id, now, srcs).dag.len() <= usize::MAX,
    ensures
        ({
            let new = stand_in(dag, walk, axes, id, now, srcs);
            let node = dag[id as int];
            exists|taken: Seq<usize>|
                {
                    &&& #[trigger] are_reduced(dag, walk, axes, id, taken)
                    &&& if taken.len() == 0 {
                        let own = new.dag[new.id as int];
                        &&& own.op == node.op
                        &&& own.dtype == node.dtype
                        &&& own.srcs.len() > 0
                        &&& own.srcs[0] == srcs[0]
                        &&& runs_over(dag, walk, axes, id, srcs, own.srcs.skip(1))
                    } else {
                        &&& is_reduced_along(
                            new.dag,
                            new.id,
                            with,
                            node.dtype,
                            srcs[0],
                            taken,
                            axes.len(),
                        )
                        &&& runs_over(
                            dag,
                            walk,
                            axes,
                            id,
                            srcs,
                            new.dag[new.dag[new.id as int].srcs[0] as int].srcs.skip(1),
                        )
                    }
                }
        }),
{
    let node = dag[id as int];
    lemma_arity(dag, id);
    let new = stand_in(dag, walk, axes, id, now, srcs);
    let n = node.srcs.len();
    let taken = lemma_taken(dag, walk, axes, id, n);
    assert forall|at: usize| taken.contains(at) <==> exists|k: int| #[trigger]
        counts_at(dag, walk, axes, id, k, at) by {
        if exists|k: int| #[trigger] counts_at(dag, walk, axes, id, k, at) {
            let k = choose|k: int| #[trigger] counts_at(dag, walk, axes, id, k, at);
            assert(k < n && counts_at(dag, walk, axes, id, k, at));
        }
    }
    assert(are_reduced(dag, walk, axes, id, taken));
    assert forall|k: int| 0 <= k < srcs.len() implies (#[trigger] dag[id as int].srcs[k])
        < now.len() by {
        assert(dag[id as int].srcs[k] < id);
    }
    lemma_left(dag, walk, axes, id, srcs, now.len() as int, n);
    let loops = left_loops(dag, walk, axes, id, srcs, n);
    assert(runs_over(dag, walk, axes, id, srcs, loops));
    assert(coordinate_of(dag, walk, axes, id) is None);
    assert(srcs[0] < now.len());
    if taken.len() == 0 {
        let want = with_srcs(node, seq![srcs[0]] + loops);
        lemma_put(now, want);
        assert(new.dag[new.id as int] == want);
        assert(want.srcs.skip(1) =~= loops);
    } else {
        assert(taken[0] < axes.len());
        assert(are_indices(taken));
        lemma_others(taken, axes.len());
        let order = taken + free_places(taken, axes.len());
        assert(as_indices(order) =~= as_indices(taken) + as_indices(
            free_places(taken, axes.len()),
        ));
        lemma_dims_len(dag, walk, axes, id, walk.len());
        lemma_reduced_value(
            now,
            srcs[0],
            node.dtype,
            with,
            taken,
            loops,
            dims_of(dag, walk, axes, id, walk.len()),
            axes.len(),
        );
    }
}

} // verus!
