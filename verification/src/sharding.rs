//! What becomes of the parts of a split value: which coordinate of a result is
//! the one that tells the devices apart.

use vstd::prelude::*;

use crate::address::flags_of;
use crate::builders::{cast_node, lemma_interned_keeps, put};
use crate::graph::{dag_wf, lemma_interned_wf, ConstValue, DType, NodeView, Op, ReduceOp};
use crate::meaning::lemma_arity;
use crate::movement::{
    is_inside, lemma_order_covers, moved_dims, place_in, source_index, takes, Movement,
};
use crate::multi::{
    all_fit, can_collect, collective, collective_params, contiguous_parts, first_axis, fits_axis,
    local_node, local_parts, lower_rule, moved_axis, multi_rule, narrow_type, node_error,
    operand_error, over_part, part_count, position, selected, split, MultiError, Operation,
};
use crate::passes::{extends, lemma_put, with_srcs};
use crate::shape::{dims, shape_of, size_of, sizes_of};

verus! {

/// Whether a node moves the elements of its first source as an operation does.
pub open spec fn moves_as(dag: Seq<NodeView>, node: NodeView, op: Movement) -> bool {
    match op {
        Movement::Permute(order) => {
            &&& node.op is Permute
            &&& sizes_of(dag, node.srcs.skip(1), (node.srcs.len() - 1) as nat) == Some(order@)
        },
        Movement::Flip(axes) => {
            &&& node.op is Flip
            &&& flags_of(dag, node.srcs.skip(1), (node.srcs.len() - 1) as nat) == Some(axes@)
        },
        Movement::Pad { begin, end } => {
            &&& node.op is Pad
            &&& dag[node.srcs[1] as int].op is Stack
            &&& dag[node.srcs[2] as int].op is Stack
            &&& shape_of(dag, node.srcs[1]) == Some(begin@)
            &&& shape_of(dag, node.srcs[2]) == Some(end@)
        },
        _ => false,
    }
}

/// Whether an operation leaves alone which elements stand where along an axis,
/// the order of the axes aside.
pub open spec fn keeps_along(op: Movement, axis: usize) -> bool {
    match op {
        Movement::Permute(_) => true,
        Movement::Flip(axes) => !axes@[axis as int],
        Movement::Pad { begin, end } => begin@[axis as int] == 0 && end@[axis as int] == 0,
        _ => false,
    }
}

proof fn lemma_position(axes: Seq<usize>, axis: usize, n: nat)
    requires
        n <= axes.len(),
        n <= usize::MAX,
    ensures
        match position(axes, axis, n) {
            Some(k) => k < n && axes[k as int] == axis,
            None => forall|j: int| 0 <= j < n ==> #[trigger] axes[j] != axis,
        },
    decreases n,
{
    if n > 0 {
        lemma_position(axes, axis, (n - 1) as nat);
    }
}

proof fn lemma_flags(dag: Seq<NodeView>, ids: Seq<usize>, n: nat)
    requires
        n <= ids.len(),
        flags_of(dag, ids, n) is Some,
    ensures
        flags_of(dag, ids, n)->0.len() == n,
        forall|k: int|
            0 <= k < n ==> dag[(#[trigger] ids[k]) as int].op == Op::Const(
                ConstValue::Bool(flags_of(dag, ids, n)->0[k]),
            ),
    decreases n,
{
    if n > 0 {
        lemma_flags(dag, ids, (n - 1) as nat);
    }
}

proof fn lemma_size(dag: Seq<NodeView>, ids: Seq<usize>, n: nat)
    requires
        n <= ids.len(),
        sizes_of(dag, ids, n) is Some,
    ensures
        sizes_of(dag, ids, n)->0.len() == n,
        forall|k: int|
            0 <= k < n ==> size_of(dag, #[trigger] ids[k]) == Some(sizes_of(dag, ids, n)->0[k]),
    decreases n,
{
    if n > 0 {
        lemma_size(dag, ids, (n - 1) as nat);
    }
}

proof fn lemma_split(dag: Seq<NodeView>, local: NodeView, axis: usize)
    requires
        split(dag, local, axis).dag.len() <= usize::MAX,
    ensures
        ({
            let new = split(dag, local, axis);
            let node = new.dag[new.id as int];
            &&& extends(dag, new.dag)
            &&& new.id < new.dag.len()
            &&& node.op == Op::Multi(axis)
            &&& node.dtype == local.dtype
            &&& node.srcs.len() == 1
            &&& node.srcs[0] < new.dag.len()
            &&& new.dag[node.srcs[0] as int] == local
        }),
{
    let part = put(dag, local);
    let last = NodeView { op: Op::Multi(axis), dtype: local.dtype, srcs: seq![part.id] };
    lemma_interned_keeps(dag, local);
    lemma_interned_keeps(part.dag, last);
    lemma_put(dag, local);
    lemma_put(part.dag, last);
}

/// Whether a split value of a graph is, part by part, what a node of another
/// one is over the part of its first source.
pub open spec fn is_split_as(
    more: Seq<NodeView>,
    new: usize,
    dag: Seq<NodeView>,
    id: usize,
    axis: usize,
) -> bool {
    let node = dag[id as int];
    let whole = more[new as int];
    let local = more[whole.srcs[0] as int];
    &&& whole.op == Op::Multi(axis)
    &&& whole.dtype == node.dtype
    &&& whole.srcs.len() == 1
    &&& local.op == node.op
    &&& local.dtype == node.dtype
    &&& local.srcs.len() == node.srcs.len()
    &&& local.srcs[0] == dag[node.srcs[0] as int].srcs[0]
    &&& forall|k: int| 1 <= k < node.srcs.len() ==> #[trigger] local.srcs[k] == node.srcs[k]
}

/// A split value whose elements are moved about stays split wherever the
/// elements keep their places along the split axis, and the axis that it is
/// then split along is the one whose coordinate comes from the split axis: each
/// element of the result is on the device that has the element it comes from,
/// at the same place along that axis.
pub proof fn lemma_moved_elements_stay_on_their_device(
    dag: Seq<NodeView>,
    id: usize,
    op: Movement,
    from: Seq<usize>,
    axis: usize,
    index: Seq<usize>,
)
    requires
        dag_wf(dag),
        id < dag.len(),
        moves_as(dag, dag[id as int], op),
        dag[dag[id as int].srcs[0] as int].op == Op::Multi(axis),
        takes(op, from),
        axis < from.len() <= usize::MAX,
        is_inside(moved_dims(op, from), index),
        multi_rule(dag, id).dag.len() <= usize::MAX,
    ensures
        ({
            let new = multi_rule(dag, id);
            if keeps_along(op, axis) {
                exists|to: usize|
                    {
                        &&& #[trigger] is_split_as(new.dag, new.id, dag, id, to)
                        &&& to < index.len()
                        &&& moved_dims(op, from)[to as int] == from[axis as int]
                        &&& source_index(op, from, index) matches Some(source)
                            ==> source[axis as int] == index[to as int]
                    }
            } else {
                new.dag == dag && new.id == id
            }
        }),
{
    let node = dag[id as int];
    let new = multi_rule(dag, id);
    let first = node.srcs[0];
    lemma_arity(dag, id);
    let rest = node.srcs.skip(1);
    let n = (node.srcs.len() - 1) as nat;
    let local = with_srcs(node, node.srcs.update(0, dag[first as int].srcs[0]));
    match op {
        Movement::Permute(order) => {
            lemma_size(dag, rest, n);
            lemma_position(order@, axis, order@.len());
            lemma_order_covers(order@, axis as int);
            let to = place_in(order@, axis as int);
            assert(order@[to] == axis);
            let found = position(order@, axis, order@.len());
            assert(found is Some);
            let at = found->0;
            assert(order@[at as int] == axis);
            assert(at == to) by {
                if at < to {
                    assert(order@[at as int] != order@[to]);
                }
                if to < at {
                    assert(order@[to] != order@[at as int]);
                }
            }
            lemma_split(dag, local, at);
            assert(is_split_as(new.dag, new.id, dag, id, at));
        },
        Movement::Flip(axes) => {
            lemma_flags(dag, rest, n);
            assert(rest[axis as int] == node.srcs[axis + 1]);
            if keeps_along(op, axis) {
                lemma_split(dag, local, axis);
                assert(is_split_as(new.dag, new.id, dag, id, axis));
            }
        },
        Movement::Pad { begin, end } => {
            let before = dag[node.srcs[1] as int].srcs;
            let behind = dag[node.srcs[2] as int].srcs;
            lemma_size(dag, before, before.len());
            lemma_size(dag, behind, behind.len());
            assert(size_of(dag, before[axis as int]) == Some(begin@[axis as int]));
            assert(size_of(dag, behind[axis as int]) == Some(end@[axis as int]));
            if keeps_along(op, axis) {
                lemma_split(dag, local, axis);
                assert(is_split_as(new.dag, new.id, dag, id, axis));
            }
        },
        _ => {},
    }
}

/// A reduction over leading axes of a split value that the split axis is not
/// among stays split: the coordinate that tells the devices apart is the one
/// that the split axis has once the leading axes are gone.
pub proof fn lemma_reduced_elements_stay_on_their_device(
    dag: Seq<NodeView>,
    id: usize,
    axis: usize,
    lead: Seq<usize>,
    index: Seq<usize>,
)
    requires
        dag_wf(dag),
        id < dag.len(),
        dag[id as int].op matches Op::AxisReduce { count, .. } && 0 < count == lead.len(),
        dag[id as int].srcs.len() == 1,
        dag[dag[id as int].srcs[0] as int].op == Op::Multi(axis),
        lead.len() <= axis < lead.len() + index.len(),
        multi_rule(dag, id).dag.len() <= usize::MAX,
    ensures
        ({
            let new = multi_rule(dag, id);
            exists|to: usize|
                {
                    &&& #[trigger] is_split_as(new.dag, new.id, dag, id, to)
                    &&& to < index.len()
                    &&& (lead + index)[axis as int] == index[to as int]
                }
        }),
{
    let node = dag[id as int];
    let new = multi_rule(dag, id);
    let local = with_srcs(node, node.srcs.update(0, dag[node.srcs[0] as int].srcs[0]));
    let to = (axis - lead.len()) as usize;
    lemma_split(dag, local, to);
    assert(is_split_as(new.dag, new.id, dag, id, to));
}

proof fn lemma_first_axis(dag: Seq<NodeView>, srcs: Seq<usize>, n: nat)
    requires
        n <= srcs.len(),
    ensures
        match first_axis(dag, srcs, n) {
            Some(axis) => exists|k: int|
                0 <= k < n && dag[(#[trigger] srcs[k]) as int].op == Op::Multi(axis),
            None => forall|k: int|
                0 <= k < n ==> !(dag[(#[trigger] srcs[k]) as int].op is Multi),
        },
    decreases n,
{
    if n > 0 {
        lemma_first_axis(dag, srcs, (n - 1) as nat);
        match first_axis(dag, srcs, (n - 1) as nat) {
            Some(axis) => {
                let k = choose|k: int|
                    0 <= k < n - 1 && dag[(#[trigger] srcs[k]) as int].op == Op::Multi(axis);
                assert(dag[srcs[k] as int].op == Op::Multi(axis));
            },
            None => {},
        }
        if first_axis(dag, srcs, n) is Some {
            assert(dag[srcs[n - 1] as int].op == dag[srcs[n - 1] as int].op);
        }
    }
}

/// An operation element by element over values that are all split along one
/// axis, or are scalars, is split along that axis, and each device computes it
/// from its own parts. Over operands of which one is split and another is
/// neither split along the same axis nor a scalar it is left alone.
pub proof fn lemma_elementwise_stays_on_its_device(dag: Seq<NodeView>, id: usize, axis: usize)
    requires
        dag_wf(dag),
        id < dag.len(),
        dag[id as int].op is Unary || dag[id as int].op is Binary || dag[id as int].op is Ternary,
        exists|k: int|
            0 <= k < dag[id as int].srcs.len() && dag[(
            #[trigger] dag[id as int].srcs[k]) as int].op == Op::Multi(axis),
        multi_rule(dag, id).dag.len() <= usize::MAX,
    ensures
        ({
            let node = dag[id as int];
            let new = multi_rule(dag, id);
            let whole = new.dag[new.id as int];
            let local = new.dag[whole.srcs[0] as int];
            if forall|k: int|
                0 <= k < node.srcs.len() ==> dag[(#[trigger] node.srcs[k]) as int].op == Op::Multi(
                    axis,
                ) || (!(dag[node.srcs[k] as int].op is Multi) && dims(dag, node.srcs[k]) == Some(
                    Seq::<usize>::empty(),
                )) {
                &&& whole.op == Op::Multi(axis)
                &&& whole.dtype == node.dtype
                &&& whole.srcs.len() == 1
                &&& local.op == node.op
                &&& local.dtype == node.dtype
                &&& local.srcs.len() == node.srcs.len()
                &&& forall|k: int|
                    0 <= k < node.srcs.len() ==> #[trigger] local.srcs[k] == if dag[node.srcs[k] as int].op is Multi {
                        dag[node.srcs[k] as int].srcs[0]
                    } else {
                        node.srcs[k]
                    }
            } else {
                new.dag == dag && new.id == id
            }
        }),
{
    let node = dag[id as int];
    lemma_first_axis(dag, node.srcs, node.srcs.len());
    let k = choose|k: int|
        0 <= k < node.srcs.len() && dag[(#[trigger] node.srcs[k]) as int].op == Op::Multi(axis);
    assert(dag[node.srcs[k] as int].op is Multi);
    let found = first_axis(dag, node.srcs, node.srcs.len())->0;
    let j = choose|j: int|
        0 <= j < node.srcs.len() && dag[(#[trigger] node.srcs[j]) as int].op == Op::Multi(found);
    assert(dag[node.srcs[j] as int].op == Op::Multi(found));
    if all_fit(dag, node.srcs, found) {
        assert(fits_axis(dag, node.srcs[k], found));
        assert forall|i: int| 0 <= i < node.srcs.len() implies dag[(
        #[trigger] node.srcs[i]) as int].op == Op::Multi(axis) || (!(dag[node.srcs[i] as int].op is
            Multi) && dims(dag, node.srcs[i]) == Some(Seq::<usize>::empty())) by {
            assert(fits_axis(dag, node.srcs[i], found));
        }
        lemma_split(dag, local_node(dag, node), found);
    } else {
        let i = choose|i: int|
            0 <= i < node.srcs.len() && !fits_axis(
                dag,
                #[trigger] node.srcs[i],
                found,
            );
        if found == axis {
            assert(!(dag[node.srcs[i] as int].op == Op::Multi(axis) || (!(dag[node.srcs[i] as int].op is
                Multi) && dims(dag, node.srcs[i]) == Some(Seq::<usize>::empty()))));
        } else {
            assert(!(dag[node.srcs[j] as int].op == Op::Multi(axis)));
        }
    }
}

/// Whether a node is one of the parts of a stack below operations that move
/// elements about, moved as they do.
pub open spec fn is_part(
    more: Seq<NodeView>,
    part: usize,
    dag: Seq<NodeView>,
    id: usize,
    at: int,
) -> bool
    decreases id,
{
    let node = dag[id as int];
    if node.op is MStack {
        part == node.srcs[at]
    } else if node.srcs.len() > 0 && node.srcs[0] < id {
        let own = more[part as int];
        &&& own.op == node.op
        &&& own.dtype == node.dtype
        &&& own.srcs.len() == node.srcs.len()
        &&& forall|k: int| 1 <= k < node.srcs.len() ==> #[trigger] own.srcs[k] == node.srcs[k]
        &&& is_part(more, own.srcs[0], dag, node.srcs[0], at)
    } else {
        false
    }
}

proof fn lemma_part_kept(
    more: Seq<NodeView>,
    next: Seq<NodeView>,
    part: usize,
    dag: Seq<NodeView>,
    id: usize,
    at: int,
)
    requires
        dag_wf(dag),
        dag_wf(more),
        id < dag.len(),
        part < more.len(),
        extends(more, next),
        is_part(more, part, dag, id, at),
    ensures
        is_part(next, part, dag, id, at),
    decreases id,
{
    let node = dag[id as int];
    if !(node.op is MStack) {
        assert(next[part as int] == more[part as int]);
        assert(more[part as int].srcs[0] < part);
        lemma_part_kept(more, next, more[part as int].srcs[0], dag, node.srcs[0], at);
    }
}

proof fn lemma_selected(dag: Seq<NodeView>, more: Seq<NodeView>, id: usize, at: usize)
    requires
        dag_wf(dag),
        dag_wf(more),
        extends(dag, more),
        id < dag.len(),
        at < part_count(dag, id),
        selected(dag, more, id, at).dag.len() <= usize::MAX,
    ensures
        ({
            let new = selected(dag, more, id, at);
            &&& dag_wf(new.dag)
            &&& extends(more, new.dag)
            &&& new.id < new.dag.len()
            &&& is_part(new.dag, new.id, dag, id, at as int)
        }),
    decreases id,
{
    let node = dag[id as int];
    lemma_arity(dag, id);
    if node.op is MStack {
        assert(dag[id as int].srcs[at as int] < id);
    } else {
        assert(dag[id as int].srcs[0] < id);
        let below = selected(dag, more, node.srcs[0], at);
        let want = with_srcs(node, node.srcs.update(0, below.id));
        lemma_interned_keeps(below.dag, want);
        lemma_selected(dag, more, node.srcs[0], at);
        assert forall|k: int| 0 <= k < want.srcs.len() implies (#[trigger] want.srcs[k])
            < below.dag.len() by {
            if k > 0 {
                assert(dag[id as int].srcs[k] < id);
            }
        }
        lemma_interned_wf(below.dag, want);
        lemma_put(below.dag, want);
        let new = put(below.dag, want);
        lemma_part_kept(below.dag, new.dag, below.id, dag, node.srcs[0], at as int);
    }
}

/// Selecting a device's part of a stack gives that part, moved as the stack
/// was.
pub proof fn lemma_selection_gives_the_part(dag: Seq<NodeView>, id: usize, at: usize)
    requires
        dag_wf(dag),
        id < dag.len(),
        dag[id as int].op == Op::MSelect(at),
        at < part_count(dag, dag[id as int].srcs[0]),
        multi_rule(dag, id).dag.len() <= usize::MAX,
    ensures
        is_part(
            multi_rule(dag, id).dag,
            multi_rule(dag, id).id,
            dag,
            dag[id as int].srcs[0],
            at as int,
        ),
{
    lemma_arity(dag, id);
    assert(dag[id as int].srcs[0] < id);
    lemma_selected(dag, dag, dag[id as int].srcs[0], at);
}

/// Whether a node is a device's share of a reduction: the reduction of its part,
/// brought back to a low precision where there is one.
pub open spec fn is_share(
    more: Seq<NodeView>,
    share: usize,
    dag: Seq<NodeView>,
    id: usize,
    low: Option<DType>,
    at: int,
) -> bool {
    let node = dag[id as int];
    let inner = dag[node.srcs[0] as int].srcs[0];
    let reduced = match low {
        Some(_) => more[share as int].srcs[0],
        None => share,
    };
    let own = more[reduced as int];
    &&& low matches Some(dtype) ==> more[share as int] == cast_node(reduced, dtype)
    &&& own.op == node.op
    &&& own.dtype == node.dtype
    &&& own.srcs.len() == 1
    &&& is_part(more, own.srcs[0], dag, inner, at)
}

proof fn lemma_share_kept(
    more: Seq<NodeView>,
    next: Seq<NodeView>,
    share: usize,
    dag: Seq<NodeView>,
    id: usize,
    low: Option<DType>,
    at: int,
)
    requires
        dag_wf(dag),
        dag_wf(more),
        extends(more, next),
        id < dag.len(),
        dag[id as int].srcs.len() == 1,
        dag[dag[id as int].srcs[0] as int].op is Multi,
        share < more.len(),
        is_share(more, share, dag, id, low, at),
    ensures
        is_share(next, share, dag, id, low, at),
{
    let node = dag[id as int];
    assert(dag[id as int].srcs[0] < id);
    lemma_arity(dag, node.srcs[0]);
    assert(dag[node.srcs[0] as int].srcs[0] < node.srcs[0]);
    let inner = dag[node.srcs[0] as int].srcs[0];
    assert(next[share as int] == more[share as int]);
    let reduced = match low {
        Some(_) => more[share as int].srcs[0],
        None => share,
    };
    if low is Some {
        assert(more[share as int].srcs[0] < share);
    }
    assert(next[reduced as int] == more[reduced as int]);
    assert(more[reduced as int].srcs[0] < reduced);
    lemma_part_kept(more, next, more[reduced as int].srcs[0], dag, inner, at);
}

proof fn lemma_local_parts_grow(
    dag: Seq<NodeView>,
    node: NodeView,
    inner: usize,
    low: Option<DType>,
    n: nat,
)
    requires
        dag_wf(dag),
        inner < dag.len(),
        n <= part_count(dag, inner) <= usize::MAX,
        node.op is AxisReduce,
        local_parts(dag, node, inner, low, n).0.len() <= usize::MAX,
    ensures
        ({
            let (more, list) = local_parts(dag, node, inner, low, n);
            &&& dag_wf(more)
            &&& extends(dag, more)
            &&& list.len() == n
            &&& forall|k: int| 0 <= k < n ==> (#[trigger] list[k]) < more.len()
        }),
        n > 0 ==> local_parts(dag, node, inner, low, (n - 1) as nat).0.len() <= usize::MAX,
    decreases n,
{
    if n > 0 {
        let (rest, had) = local_parts(dag, node, inner, low, (n - 1) as nat);
        let part = selected(dag, rest, inner, (n - 1) as usize);
        let want = with_srcs(node, seq![part.id]);
        let reduced = put(part.dag, want);
        lemma_selected_grows(dag, rest, inner, (n - 1) as usize);
        lemma_interned_keeps(part.dag, want);
        if low is Some {
            lemma_interned_keeps(reduced.dag, cast_node(reduced.id, low->0));
        }
        lemma_local_parts_grow(dag, node, inner, low, (n - 1) as nat);
        lemma_selected(dag, rest, inner, (n - 1) as usize);
        lemma_interned_wf(part.dag, want);
        lemma_put(part.dag, want);
        if low is Some {
            lemma_interned_wf(reduced.dag, cast_node(reduced.id, low->0));
            lemma_put(reduced.dag, cast_node(reduced.id, low->0));
        }
    }
}

proof fn lemma_selected_grows(dag: Seq<NodeView>, more: Seq<NodeView>, id: usize, at: usize)
    ensures
        more.len() <= selected(dag, more, id, at).dag.len(),
    decreases id,
{
    let node = dag[id as int];
    if !(node.op is MStack) && node.srcs[0] < id {
        lemma_selected_grows(dag, more, node.srcs[0], at);
        let below = selected(dag, more, node.srcs[0], at);
        lemma_interned_keeps(below.dag, with_srcs(node, node.srcs.update(0, below.id)));
    }
}

proof fn lemma_local_parts(dag: Seq<NodeView>, id: usize, low: Option<DType>, n: nat)
    requires
        dag_wf(dag),
        id < dag.len(),
        dag[id as int].op is AxisReduce,
        dag[id as int].srcs.len() == 1,
        dag[dag[id as int].srcs[0] as int].op is Multi,
        ({
            let inner = dag[dag[id as int].srcs[0] as int].srcs[0];
            &&& inner < dag.len()
            &&& n <= part_count(dag, inner) <= usize::MAX
            &&& local_parts(dag, dag[id as int], inner, low, n).0.len() <= usize::MAX
        }),
    ensures
        ({
            let inner = dag[dag[id as int].srcs[0] as int].srcs[0];
            let (more, list) = local_parts(dag, dag[id as int], inner, low, n);
            forall|k: int| 0 <= k < n ==> is_share(more, #[trigger] list[k], dag, id, low, k)
        }),
    decreases n,
{
    let node = dag[id as int];
    let inner = dag[node.srcs[0] as int].srcs[0];
    if n > 0 {
        lemma_local_parts_grow(dag, node, inner, low, n);
        lemma_local_parts_grow(dag, node, inner, low, (n - 1) as nat);
        lemma_local_parts(dag, id, low, (n - 1) as nat);
        let (rest, had) = local_parts(dag, node, inner, low, (n - 1) as nat);
        let (more, list) = local_parts(dag, node, inner, low, n);
        let part = selected(dag, rest, inner, (n - 1) as usize);
        let want = with_srcs(node, seq![part.id]);
        let reduced = put(part.dag, want);
        lemma_interned_keeps(part.dag, want);
        if low is Some {
            lemma_interned_keeps(reduced.dag, cast_node(reduced.id, low->0));
        }
        lemma_selected(dag, rest, inner, (n - 1) as usize);
        lemma_interned_wf(part.dag, want);
        lemma_put(part.dag, want);
        lemma_part_kept(part.dag, reduced.dag, part.id, dag, inner, n - 1);
        assert(is_share(reduced.dag, reduced.id, dag, id, None, n - 1));
        if low is Some {
            lemma_interned_wf(reduced.dag, cast_node(reduced.id, low->0));
            lemma_put(reduced.dag, cast_node(reduced.id, low->0));
            lemma_part_kept(reduced.dag, more, part.id, dag, inner, n - 1);
            assert(more[reduced.id as int] == want);
        }
        assert(is_share(more, list[n - 1], dag, id, low, n - 1));
        assert(extends(rest, more));
        assert forall|k: int| 0 <= k < n implies is_share(
            more,
            #[trigger] list[k],
            dag,
            id,
            low,
            k,
        ) by {
            if k < n - 1 {
                assert(list[k] == had[k]);
                lemma_share_kept(rest, more, had[k], dag, id, low, k);
            }
        }
    }
}

/// A reduction along the axis that a value is split along, where the devices can
/// reduce together: each device reduces its own part with the operation, and
/// the shares of all devices are reduced with it too.
pub proof fn lemma_split_reduction_collects_every_part(dag: Seq<NodeView>, id: usize)
    requires
        dag_wf(dag),
        id < dag.len(),
        dag[id as int].op matches Op::AxisReduce { with, count } && {
            &&& count > 0
            &&& dag[id as int].srcs.len() == 1
            &&& dag[dag[id as int].srcs[0] as int].op matches Op::Multi(axis) && axis < count
            &&& can_collect(dag, dag[dag[id as int].srcs[0] as int].srcs[0], with)
        },
        part_count(dag, dag[dag[id as int].srcs[0] as int].srcs[0]) <= usize::MAX,
        multi_rule(dag, id).dag.len() <= usize::MAX,
    ensures
        ({
            let node = dag[id as int];
            let inner = dag[node.srcs[0] as int].srcs[0];
            let new = multi_rule(dag, id);
            let low = narrow_type(dag, inner);
            let all = match low {
                Some(_) => new.dag[new.id as int].srcs[0],
                None => new.id,
            };
            let stack = new.dag[all as int].srcs[0];
            let shares = new.dag[stack as int].srcs;
            &&& low is Some ==> new.dag[new.id as int] == cast_node(all, node.dtype)
            &&& node.op matches Op::AxisReduce { with, .. } && new.dag[all as int].op
                == Op::AllReduce(with)
            &&& new.dag[all as int].dtype == (match low {
                Some(dtype) => dtype,
                None => node.dtype,
            })
            &&& new.dag[all as int].srcs.len() == 1
            &&& new.dag[stack as int].op is MStack
            &&& shares.len() == part_count(dag, inner)
            &&& forall|k: int|
                0 <= k < shares.len() ==> is_share(new.dag, #[trigger] shares[k], dag, id, low, k)
        }),
{
    let node = dag[id as int];
    assert(dag[id as int].srcs[0] < id);
    lemma_arity(dag, node.srcs[0]);
    assert(dag[node.srcs[0] as int].srcs[0] < node.srcs[0]);
    let inner = dag[node.srcs[0] as int].srcs[0];
    let low = narrow_type(dag, inner);
    let with = match node.op {
        Op::AxisReduce { with, .. } => with,
        _ => ReduceOp::Add,
    };
    let n = part_count(dag, inner);
    let (more, list) = local_parts(dag, node, inner, low, n);
    let dtype = match low {
        Some(own) => own,
        None => node.dtype,
    };
    let stacked = NodeView { op: Op::MStack, dtype, srcs: list };
    let stack = put(more, stacked);
    let joined = NodeView { op: Op::AllReduce(with), dtype, srcs: seq![stack.id] };
    let all = put(stack.dag, joined);
    let new = multi_rule(dag, id);
    assert(new == collective(dag, node, inner, with));
    lemma_interned_keeps(more, stacked);
    lemma_interned_keeps(stack.dag, joined);
    if low is Some {
        lemma_interned_keeps(all.dag, cast_node(all.id, node.dtype));
    }
    lemma_local_parts_grow(dag, node, inner, low, n);
    lemma_local_parts(dag, id, low, n);
    lemma_put(more, stacked);
    lemma_put(stack.dag, joined);
    if low is Some {
        lemma_put(all.dag, cast_node(all.id, node.dtype));
    }
    assert(extends(more, new.dag));
    assert(new.dag[stack.id as int] == stacked);
    assert(new.dag[all.id as int] == joined);
    assert forall|k: int| 0 <= k < list.len() implies is_share(
        new.dag,
        #[trigger] list[k],
        dag,
        id,
        low,
        k,
    ) by {
        lemma_share_kept(more, new.dag, list[k], dag, id, low, k);
    }
}

proof fn lemma_contiguous_parts(
    dag: Seq<NodeView>,
    dtype: DType,
    srcs: Seq<usize>,
    n: nat,
)
    requires
        dag_wf(dag),
        n <= srcs.len(),
        forall|k: int| 0 <= k < srcs.len() ==> (#[trigger] srcs[k]) < dag.len(),
        contiguous_parts(dag, dtype, srcs, n).0.len() <= usize::MAX,
    ensures
        ({
            let (more, list) = contiguous_parts(dag, dtype, srcs, n);
            &&& dag_wf(more)
            &&& extends(dag, more)
            &&& list.len() == n
            &&& forall|k: int|
                0 <= k < n ==> (#[trigger] list[k]) < more.len() && more[list[k] as int] == (
                NodeView { op: Op::Contiguous, dtype, srcs: seq![srcs[k]] })
        }),
    decreases n,
{
    if n > 0 {
        let (rest, before) = contiguous_parts(dag, dtype, srcs, (n - 1) as nat);
        let (more, list) = contiguous_parts(dag, dtype, srcs, n);
        let want = NodeView { op: Op::Contiguous, dtype, srcs: seq![srcs[n - 1]] };
        lemma_interned_keeps(rest, want);
        lemma_contiguous_parts(dag, dtype, srcs, (n - 1) as nat);
        assert(srcs[n - 1] < dag.len());
        lemma_interned_wf(rest, want);
        lemma_put(rest, want);
        assert forall|k: int| 0 <= k < n implies (#[trigger] list[k]) < more.len()
            && more[list[k] as int] == (NodeView {
            op: Op::Contiguous,
            dtype,
            srcs: seq![srcs[k]],
        }) by {
            if k < n - 1 {
                assert(list[k] == before[k]);
            }
        }
    }
}

proof fn lemma_collective_params(dag: Seq<NodeView>, dtype: DType, n: nat)
    requires
        dag_wf(dag),
        n <= usize::MAX,
        collective_params(dag, dtype, n).0.len() <= usize::MAX,
    ensures
        ({
            let (more, list) = collective_params(dag, dtype, n);
            &&& dag_wf(more)
            &&& extends(dag, more)
            &&& dag.len() <= more.len()
            &&& list.len() == n
            &&& forall|k: int|
                0 <= k < n ==> (#[trigger] list[k]) < more.len() && more[list[k] as int] == (
                NodeView {
                    op: Op::Param { slot: k as usize, addrspace: None },
                    dtype,
                    srcs: Seq::empty(),
                })
        }),
    decreases n,
{
    if n > 0 {
        let (rest, before) = collective_params(dag, dtype, (n - 1) as nat);
        let (more, list) = collective_params(dag, dtype, n);
        let want = NodeView {
            op: Op::Param { slot: (n - 1) as usize, addrspace: None },
            dtype,
            srcs: Seq::empty(),
        };
        lemma_interned_keeps(rest, want);
        lemma_collective_params(dag, dtype, (n - 1) as nat);
        lemma_interned_wf(rest, want);
        lemma_put(rest, want);
        assert forall|k: int| 0 <= k < n implies (#[trigger] list[k]) < more.len()
            && more[list[k] as int] == (NodeView {
            op: Op::Param { slot: k as usize, addrspace: None },
            dtype,
            srcs: Seq::empty(),
        }) by {
            if k < n - 1 {
                assert(list[k] == before[k]);
            }
        }
    }
}

proof fn lemma_params_grow(dag: Seq<NodeView>, dtype: DType, n: nat)
    ensures
        dag.len() <= collective_params(dag, dtype, n).0.len(),
    decreases n,
{
    if n > 0 {
        lemma_params_grow(dag, dtype, (n - 1) as nat);
        let (rest, _) = collective_params(dag, dtype, (n - 1) as nat);
        lemma_interned_keeps(
            rest,
            NodeView {
                op: Op::Param { slot: (n - 1) as usize, addrspace: None },
                dtype,
                srcs: Seq::empty(),
            },
        );
    }
}

/// Whether a node is a call of the host's collective that reduces some parts into
/// the first of them: the body has a parameter for each argument, the first
/// argument is the first part, and behind it each part comes in turn, stored.
pub open spec fn collects(
    dag: Seq<NodeView>,
    id: usize,
    with: ReduceOp,
    dtype: DType,
    parts: Seq<usize>,
) -> bool {
    let call = dag[id as int];
    let body = dag[call.srcs[0] as int];
    &&& call.op is Call
    &&& call.srcs.len() == parts.len() + 2
    &&& body.op == Op::Collective(with)
    &&& body.srcs.len() == parts.len() + 1
    &&& forall|k: int|
        0 <= k < body.srcs.len() ==> dag[(#[trigger] body.srcs[k]) as int].op == (Op::Param {
            slot: k as usize,
            addrspace: None,
        })
    &&& call.srcs[1] == call.srcs[2]
    &&& forall|k: int|
        0 <= k < parts.len() ==> dag[(#[trigger] call.srcs[k + 2]) as int] == (NodeView {
            op: Op::Contiguous,
            dtype,
            srcs: seq![parts[k]],
        })
}

/// A reduction over all devices is the first part, once the host's collective has
/// reduced all parts into it.
#[verifier::spinoff_prover]
#[verifier::rlimit(50)]
pub proof fn lemma_collective_reduces_every_part(dag: Seq<NodeView>, id: usize, with: ReduceOp)
    requires
        dag_wf(dag),
        id < dag.len(),
        dag[id as int].op == Op::AllReduce(with),
        dag[dag[id as int].srcs[0] as int].op is MStack,
        dag[dag[id as int].srcs[0] as int].srcs.len() > 0,
        dag[dag[id as int].srcs[0] as int].srcs.len() < usize::MAX,
        lower_rule(dag, id).dag.len() <= usize::MAX,
    ensures
        ({
            let new = lower_rule(dag, id);
            let node = dag[id as int];
            let parts = dag[node.srcs[0] as int].srcs;
            let own = new.dag[new.id as int];
            &&& own.op is After
            &&& own.dtype == node.dtype
            &&& own.srcs.len() == 2
            &&& own.srcs[0] == new.dag[own.srcs[1] as int].srcs[1]
            &&& collects(new.dag, own.srcs[1], with, node.dtype, parts)
        }),
{
    let node = dag[id as int];
    lemma_arity(dag, id);
    assert(dag[id as int].srcs[0] < id);
    let at = node.srcs[0];
    let srcs = dag[at as int].srcs;
    assert forall|k: int| 0 <= k < srcs.len() implies (#[trigger] srcs[k]) < dag.len() by {
        assert(dag[at as int].srcs[k] < at);
    }
    let n = srcs.len();
    let (held, parts) = contiguous_parts(dag, node.dtype, srcs, n);
    let (more, params) = collective_params(held, node.dtype, (n + 1) as nat);
    let first = NodeView { op: Op::Collective(with), dtype: DType::Void, srcs: params };
    let body = put(more, first);
    let second = NodeView {
        op: Op::Call,
        dtype: DType::Void,
        srcs: seq![body.id, parts[0]] + parts,
    };
    let call = put(body.dag, second);
    let last = NodeView { op: Op::After, dtype: node.dtype, srcs: seq![parts[0], call.id] };
    let new = put(call.dag, last);
    assert(new == lower_rule(dag, id));
    lemma_interned_keeps(call.dag, last);
    lemma_interned_keeps(body.dag, second);
    lemma_interned_keeps(more, first);
    lemma_params_grow(held, node.dtype, (n + 1) as nat);
    lemma_contiguous_parts(dag, node.dtype, srcs, n);
    lemma_collective_params(held, node.dtype, (n + 1) as nat);
    lemma_put(more, first);
    lemma_put(body.dag, second);
    lemma_put(call.dag, last);
    assert(new.dag[new.id as int] == last);
    assert(new.dag[call.id as int] == second);
    assert(new.dag[body.id as int] == first);
    assert forall|k: int| 0 <= k < first.srcs.len() implies new.dag[(
    #[trigger] first.srcs[k]) as int].op == (Op::Param { slot: k as usize, addrspace: None }) by {
        assert(more[params[k] as int] == new.dag[params[k] as int]);
    }
    assert forall|k: int| 0 <= k < srcs.len() implies new.dag[(
    #[trigger] second.srcs[k + 2]) as int] == (NodeView {
        op: Op::Contiguous,
        dtype: node.dtype,
        srcs: seq![srcs[k]],
    }) by {
        assert(second.srcs[k + 2] == parts[k]);
        assert(held[parts[k] as int] == new.dag[parts[k] as int]);
    }
    assert(second.srcs[2] == parts[0]);
}

proof fn lemma_operand_error(dag: Seq<NodeView>, srcs: Seq<usize>, axis: usize, n: nat)
    requires
        n <= srcs.len(),
    ensures
        match operand_error(dag, srcs, axis, n) {
            None => forall|k: int| 0 <= k < n ==> fits_axis(dag, #[trigger] srcs[k], axis),
            Some(error) => exists|k: int|
                0 <= k < n && #[trigger] is_misfit(dag, srcs, axis, k) && error == misfit_error(
                    dag,
                    srcs[k],
                    axis,
                ),
        },
    decreases n,
{
    if n > 0 {
        lemma_operand_error(dag, srcs, axis, (n - 1) as nat);
        if operand_error(dag, srcs, axis, (n - 1) as nat) is None && !fits_axis(
            dag,
            srcs[n - 1],
            axis,
        ) {
            assert(is_misfit(dag, srcs, axis, n - 1));
        }
    }
}

/// Whether an operand is the first that does not go with values that are split
/// along an axis.
pub open spec fn is_misfit(dag: Seq<NodeView>, srcs: Seq<usize>, axis: usize, k: int) -> bool {
    &&& !fits_axis(dag, srcs[k], axis)
    &&& forall|j: int| 0 <= j < k ==> fits_axis(dag, #[trigger] srcs[j], axis)
}

/// What is wrong with an operand that is split along another axis, or not at all.
pub open spec fn misfit_error(dag: Seq<NodeView>, id: usize, axis: usize) -> MultiError {
    match dag[id as int].op {
        Op::Multi(other) => MultiError::AxisMismatch { left: axis, right: other },
        _ => MultiError::LayoutMissing { axis },
    }
}

proof fn lemma_first_split(dag: Seq<NodeView>, srcs: Seq<usize>, n: nat)
    requires
        n <= srcs.len(),
    ensures
        match first_axis(dag, srcs, n) {
            None => forall|k: int| 0 <= k < n ==> !(dag[(#[trigger] srcs[k]) as int].op is Multi),
            Some(axis) => exists|k: int|
                0 <= k < n && dag[(#[trigger] srcs[k]) as int].op == Op::Multi(axis) && forall|j: int|
                    0 <= j < k ==> !(dag[(#[trigger] srcs[j]) as int].op is Multi),
        },
    decreases n,
{
    if n > 0 {
        lemma_first_split(dag, srcs, (n - 1) as nat);
        if first_axis(dag, srcs, (n - 1) as nat) is None && first_axis(dag, srcs, n) is Some {
            assert(dag[srcs[n - 1] as int].op is Multi);
        }
    }
}

/// An element-by-element operation is rejected exactly where one of its operands
/// does not go with the first that is split, and for the first such operand: with
/// both axes where it is split along another one, and for want of a layout where
/// it is not split and no scalar.
pub proof fn lemma_first_misfit_is_reported(dag: Seq<NodeView>, id: usize, axis: usize, first: int)
    requires
        dag_wf(dag),
        id < dag.len(),
        dag[id as int].op is Unary || dag[id as int].op is Binary || dag[id as int].op is Ternary,
        0 <= first < dag[id as int].srcs.len(),
        dag[dag[id as int].srcs[first] as int].op == Op::Multi(axis),
        forall|j: int|
            0 <= j < first ==> !(dag[(#[trigger] dag[id as int].srcs[j]) as int].op is Multi),
    ensures
        ({
            let srcs = dag[id as int].srcs;
            match node_error(dag, id) {
                None => forall|k: int|
                    0 <= k < srcs.len() ==> fits_axis(dag, #[trigger] srcs[k], axis),
                Some(error) => exists|k: int|
                    0 <= k < srcs.len() && #[trigger] is_misfit(dag, srcs, axis, k) && error
                        == misfit_error(dag, srcs[k], axis),
            }
        }),
{
    let srcs = dag[id as int].srcs;
    lemma_first_split(dag, srcs, srcs.len());
    match first_axis(dag, srcs, srcs.len()) {
        None => {
            assert(!(dag[srcs[first] as int].op is Multi));
        },
        Some(found) => {
            let k = choose|k: int|
                0 <= k < srcs.len() && dag[(#[trigger] srcs[k]) as int].op == Op::Multi(found)
                    && forall|j: int|
                    0 <= j < k ==> !(dag[(#[trigger] srcs[j]) as int].op is Multi);
            if k < first {
                assert(!(dag[dag[id as int].srcs[k] as int].op is Multi));
            } else if first < k {
                assert(!(dag[srcs[first] as int].op is Multi));
            }
            assert(found == axis);
        },
    }
    lemma_operand_error(dag, srcs, axis, srcs.len());
}

/// A movement of a split value is either computed device by device or rejected,
/// by its name and with the axis of the split; a reshape is always rejected.
pub proof fn lemma_movement_is_split_or_rejected(dag: Seq<NodeView>, id: usize, axis: usize)
    requires
        dag_wf(dag),
        id < dag.len(),
        dag[dag[id as int].srcs[0] as int].op == Op::Multi(axis),
        multi_rule(dag, id).dag.len() <= usize::MAX,
    ensures
        dag[id as int].op is Reshape ==> node_error(dag, id) == Some(
            MultiError::MovementUnsupported { operation: Operation::Reshape, axis },
        ),
        dag[id as int].op is Permute ==> if multi_rule(dag, id).id == id {
            node_error(dag, id) == Some(
                MultiError::MovementUnsupported { operation: Operation::Permute, axis },
            )
        } else {
            node_error(dag, id) is None
        },
        dag[id as int].op is Flip ==> if multi_rule(dag, id).id == id {
            node_error(dag, id) == Some(
                MultiError::MovementUnsupported { operation: Operation::Flip, axis },
            )
        } else {
            node_error(dag, id) is None
        },
        dag[id as int].op is Pad ==> if multi_rule(dag, id).id == id {
            node_error(dag, id) == Some(
                MultiError::MovementUnsupported { operation: Operation::Pad, axis },
            )
        } else {
            node_error(dag, id) is None
        },
{
    let node = dag[id as int];
    lemma_arity(dag, id);
    if node.op is Permute || node.op is Flip || node.op is Pad {
        if let Some(to) = moved_axis(dag, node, axis) {
            let local = over_part(dag, node);
            let part = put(dag, local);
            let want = NodeView { op: Op::Multi(to), dtype: local.dtype, srcs: seq![part.id] };
            let new = put(part.dag, want);
            lemma_interned_keeps(part.dag, want);
            lemma_put(dag, local);
            lemma_put(part.dag, want);
            assert(new.dag[new.id as int] == want);
            assert(new.dag[id as int] == node);
        }
    }
}

} // verus!
