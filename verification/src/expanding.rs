//! Which elements an expanded product multiplies.

use vstd::prelude::*;

use crate::algebra::elements;
use crate::builders::{lemma_interned_keeps, put};
use crate::expand::{
    contracted, extents, leading, lemma_remaining_prefix, lemma_slots_are_places,
    lemma_untaken_grows, place_of, places, product_shape, remaining, slots, untaken,
};
use crate::graph::{dag_wf, lemma_interned_wf, AxisId, DType, NodeView, Op, WmmaMetadata};
use crate::fragmenting::{is_within, lemma_outer};
use crate::lanes::{
    element, lane_dims, lemma_lane_dims_extend, lemma_shape_extends, lemma_sizes_extend,
    viewed_index, Element,
};
use crate::movement::{
    is_inside, is_order, lemma_digits_of_offset, lemma_offset_bound, lemma_order_covers, offset,
    place_in, volume,
};
use crate::passes::{extends, lemma_put};
use crate::product::{
    are_indices, as_indices, axes_at, back_order, contracted_value, expanded_wmma, free_places,
    inner_product, is_writable, listed_axes, product_plan, reshaped, Plan,
};
use crate::coordinates::reordered;
use crate::product_shape::{
    lemma_all_taken, lemma_contracted_grows, lemma_contracted_value,
    lemma_reordered, lemma_reordered_grows, lemma_reshaped, lemma_reshaped_grows,
};
use crate::shape::{dims, permuted, shape_of, size_of, sizes_of};
use crate::tracing::{lemma_source_extends, shown_dims, shown_index, source_of};

verus! {

/// The coordinates among the first `n` that are not at some places, in order.
pub open spec fn without(index: Seq<usize>, taken: Seq<usize>, n: nat) -> Seq<usize>
    decreases n,
{
    if n == 0 {
        Seq::empty()
    } else if taken.contains((n - 1) as usize) {
        without(index, taken, (n - 1) as nat)
    } else {
        without(index, taken, (n - 1) as nat).push(index[n - 1])
    }
}

/// The coordinates at some places.
pub open spec fn at_places(index: Seq<usize>, taken: Seq<usize>) -> Seq<usize> {
    Seq::new(taken.len(), |k: int| index[taken[k] as int])
}

/// Whether some places are those at which axes are named first, each another.
pub open spec fn are_places_of(
    map: Seq<AxisId>,
    axes: Seq<(AxisId, usize)>,
    taken: Seq<usize>,
) -> bool {
    &&& taken.len() == axes.len()
    &&& taken.no_duplicates()
    &&& forall|k: int|
        0 <= k < axes.len() ==> (#[trigger] taken[k]) < map.len() && map[taken[k] as int]
            == axes[k].0 && forall|j: int|
            0 <= j < taken[k] ==> #[trigger] map[j] != axes[k].0
}

proof fn lemma_offset_joined(
    a: Seq<usize>,
    b: Seq<usize>,
    i: Seq<usize>,
    j: Seq<usize>,
    n: nat,
)
    requires
        i.len() == a.len(),
        j.len() == b.len(),
        n <= b.len(),
    ensures
        offset(a + b, i + j, a.len() + n) == offset(a, i, a.len()) * volume(b, n) + offset(b, j, n),
        volume(a + b, a.len() + n) == volume(a, a.len()) * volume(b, n),
    decreases n,
{
    let m = a.len();
    if n == 0 {
        lemma_offset_prefix(a, a + b, i, i + j, m);
        assert(offset(a, i, m) * 1 + 0 == offset(a, i, m));
        assert(volume(a, m) * 1 == volume(a, m));
    } else {
        lemma_offset_joined(a, b, i, j, (n - 1) as nat);
        let k = (n - 1) as nat;
        assert((a + b)[(m + n - 1) as int] == b[n - 1]);
        assert((i + j)[(m + n - 1) as int] == j[n - 1]);
        let (x, v, y, d, e) = (
            offset(a, i, m),
            volume(b, k),
            offset(b, j, k),
            b[n - 1] as nat,
            j[n - 1] as nat,
        );
        let w = volume(a, m);
        assert((m + n - 1) as nat == m + k);
        assert(offset(a + b, i + j, m + n) == (x * v + y) * d + e);
        assert((x * v + y) * d + e == x * (v * d) + (y * d + e)) by (nonlinear_arith);
        assert((w * v) * d == w * (v * d)) by (nonlinear_arith);
    }
}

proof fn lemma_offset_prefix(
    a: Seq<usize>,
    b: Seq<usize>,
    i: Seq<usize>,
    j: Seq<usize>,
    n: nat,
)
    requires
        n <= a.len(),
        n <= b.len(),
        n <= i.len(),
        n <= j.len(),
        forall|k: int| 0 <= k < n ==> a[k] == #[trigger] b[k],
        forall|k: int| 0 <= k < n ==> i[k] == #[trigger] j[k],
    ensures
        offset(a, i, n) == offset(b, j, n),
        volume(a, n) == volume(b, n),
    decreases n,
{
    if n > 0 {
        lemma_offset_prefix(a, b, i, j, (n - 1) as nat);
        assert(a[n - 1] == b[n - 1]);
        assert(i[n - 1] == j[n - 1]);
    }
}

pub(crate) proof fn lemma_elements(shape: Seq<usize>)
    ensures
        elements(shape) == volume(shape, shape.len()),
    decreases shape.len(),
{
    if shape.len() > 0 {
        let rest = shape.drop_last();
        lemma_elements(rest);
        lemma_offset_prefix(rest, shape, rest, shape, rest.len());
    }
}

/// Coordinates in two groups, and with those of the second as one.
proof fn lemma_as_one(a: Seq<usize>, b: Seq<usize>, i: Seq<usize>, j: Seq<usize>, lanes: usize)
    requires
        is_inside(a, i),
        is_inside(b, j),
        volume(b, b.len()) == lanes,
    ensures
        ({
            let e = offset(b, j, b.len()) as usize;
            &&& e == offset(b, j, b.len())
            &&& is_inside(a.push(lanes), i.push(e))
            &&& is_inside(a + b, i + j)
            &&& offset(a.push(lanes), i.push(e), a.len() + 1) == offset(
                a + b,
                i + j,
                a.len() + b.len(),
            )
            &&& volume(a.push(lanes), a.len() + 1) == volume(a + b, a.len() + b.len())
        }),
{
    let e = offset(b, j, b.len()) as usize;
    let (one, at) = (a.push(lanes), i.push(e));
    lemma_offset_bound(b, j, b.len());
    lemma_offset_joined(a, b, i, j, b.len());
    lemma_offset_prefix(a, one, i, at, a.len());
    assert(one[a.len() as int] == lanes && at[a.len() as int] == e);
}

/// A value with its axes in another order shows at coordinates in that order
/// what it has at the coordinates.
pub(crate) proof fn lemma_turned(dag: Seq<NodeView>, id: usize, order: Seq<usize>, index: Seq<usize>)
    requires
        dag[id as int].op is Permute,
        dag[id as int].srcs.len() == order.len() + 1,
        sizes_of(dag, dag[id as int].srcs.skip(1), order.len()) == Some(order),
        is_order(order),
        index.len() == order.len(),
    ensures
        shown_index(dag, dag[id as int], at_places(index, order)) == Some(index),
{
    let found = Seq::new(order.len(), |k: int| at_places(index, order)[place_in(order, k)]);
    assert forall|k: int| 0 <= k < order.len() implies found[k] == index[k] by {
        lemma_order_covers(order, k);
    }
    assert(found =~= index);
}

pub(crate) proof fn lemma_free(index: Seq<usize>, taken: Seq<usize>, n: nat)
    requires
        n <= index.len() <= usize::MAX,
    ensures
        without(index, taken, n) == at_places(index, free_places(taken, n)),
        free_places(taken, n).len() == untaken(taken, n),
        forall|k: int|
            0 <= k < free_places(taken, n).len() ==> (#[trigger] free_places(taken, n)[k]) < n
                && !taken.contains(free_places(taken, n)[k]),
        free_places(taken, n).no_duplicates(),
    decreases n,
{
    if n > 0 {
        lemma_free(index, taken, (n - 1) as nat);
        let rest = free_places(taken, (n - 1) as nat);
        if !taken.contains((n - 1) as usize) {
            assert(at_places(index, rest.push((n - 1) as usize)) =~= at_places(index, rest).push(
                index[n - 1],
            ));
        }
    } else {
        assert(at_places(index, Seq::empty()) =~= Seq::empty());
    }
}

/// Places in front and those that are taken behind name every place once.
proof fn lemma_free_order(taken: Seq<usize>, n: nat)
    requires
        n <= usize::MAX,
        taken.no_duplicates(),
        forall|k: int| 0 <= k < taken.len() ==> (#[trigger] taken[k]) < n,
    ensures
        is_order(free_places(taken, n) + taken),
        free_places(taken, n).len() + taken.len() == n,
{
    let dummy = Seq::new(n, |k: int| 0usize);
    lemma_free(dummy, taken, n);
    lemma_all_taken(taken, n);
    let order = free_places(taken, n) + taken;
    let m = free_places(taken, n).len();
    assert forall|i: int| 0 <= i < order.len() implies (#[trigger] order[i]) < order.len() by {
        if i >= m {
            assert(order[i] == taken[i - m]);
        }
    }
    assert forall|i: int, j: int| 0 <= i < j < order.len() implies (#[trigger] order[i]) != (
    #[trigger] order[j]) by {
        if i < m && j >= m {
            assert(order[j] == taken[j - m]);
            assert(taken.contains(order[j]));
        } else if i >= m {
            assert(order[i] == taken[i - m] && order[j] == taken[j - m]);
        }
    }
}

/// An axis has the coordinate at which it is named first.
proof fn lemma_place(map: Seq<AxisId>, axis: AxisId, at: usize, n: nat)
    requires
        at < map.len() <= usize::MAX,
        n <= map.len(),
        map[at as int] == axis,
        forall|j: int| 0 <= j < at ==> #[trigger] map[j] != axis,
    ensures
        place_of(map, axis, n) == if at < n {
            Some(at)
        } else {
            None
        },
    decreases n,
{
    if n > 0 {
        lemma_place(map, axis, at, (n - 1) as nat);
    }
}

proof fn lemma_slots(
    map: Seq<AxisId>,
    shape: Seq<usize>,
    axes: Seq<(AxisId, usize)>,
    taken: Seq<usize>,
    n: nat,
)
    requires
        map.len() <= usize::MAX,
        are_places_of(map, axes, taken),
        slots(map, shape, axes, axes.len()) is Some,
        n <= axes.len(),
    ensures
        slots(map, shape, axes, n) == Some(taken.take(n as int)),
    decreases axes.len() - n,
{
    let m = axes.len();
    lemma_slots_some(map, shape, axes, n, m);
    lemma_slots_prefix(map, shape, axes, taken, n);
}

proof fn lemma_slots_some(
    map: Seq<AxisId>,
    shape: Seq<usize>,
    axes: Seq<(AxisId, usize)>,
    n: nat,
    m: nat,
)
    requires
        n <= m,
        slots(map, shape, axes, m) is Some,
    ensures
        slots(map, shape, axes, n) is Some,
    decreases m,
{
    if n < m {
        lemma_slots_some(map, shape, axes, n, (m - 1) as nat);
    }
}

proof fn lemma_slots_prefix(
    map: Seq<AxisId>,
    shape: Seq<usize>,
    axes: Seq<(AxisId, usize)>,
    taken: Seq<usize>,
    n: nat,
)
    requires
        map.len() <= usize::MAX,
        are_places_of(map, axes, taken),
        n <= axes.len(),
        slots(map, shape, axes, n) is Some,
    ensures
        slots(map, shape, axes, n)->0 == taken.take(n as int),
    decreases n,
{
    if n > 0 {
        lemma_slots_prefix(map, shape, axes, taken, (n - 1) as nat);
        lemma_place(map, axes[n - 1].0, taken[n - 1], map.len());
        assert(taken.take(n as int) =~= taken.take(n - 1).push(taken[n - 1]));
    } else {
        assert(taken.take(0) =~= Seq::empty());
    }
}

proof fn lemma_sizes_left(shape: Seq<usize>, taken: Seq<usize>, n: nat)
    requires
        n <= shape.len() <= usize::MAX,
    ensures
        remaining(shape, taken, n) == without(shape, taken, n),
    decreases n,
{
    if n > 0 {
        lemma_sizes_left(shape, taken, (n - 1) as nat);
    }
}

/// An operand that is contracted along axes has its other coordinates in front,
/// in order, and the places along the axes as one behind, the last of them
/// counted first; at each place it has the element that the operand has there.
pub proof fn lemma_contracted_operand_shows(
    dag: Seq<NodeView>,
    value: usize,
    map: Seq<AxisId>,
    shape: Seq<usize>,
    axes: Seq<(AxisId, usize)>,
    taken: Seq<usize>,
    index: Seq<usize>,
)
    requires
        dag_wf(dag),
        value < dag.len(),
        map.len() <= usize::MAX,
        lane_dims(dag, value) == Some(shape),
        contracted(map, shape, axes) is Some,
        are_places_of(map, axes, taken),
        is_inside(shape, index),
        are_indices(contracted(map, shape, axes)->0),
        map.len() <= i64::MAX,
        contracted_value(
            dag,
            value,
            free_places(taken, map.len()) + taken,
            contracted(map, shape, axes)->0,
        ).dag.len() <= usize::MAX,
    ensures
        ({
            let new = contracted_value(
                dag,
                value,
                free_places(taken, map.len()) + taken,
                contracted(map, shape, axes)->0,
            );
            let lane = offset(at_places(shape, taken), at_places(index, taken), taken.len());
            &&& lane <= usize::MAX
            &&& source_of(
                new.dag,
                new.id,
                without(index, taken, index.len()).push(lane as usize),
                value,
            ) == Some(index)
        }),
{
    let n = map.len();
    let to = contracted(map, shape, axes)->0;
    lemma_slots(map, shape, axes, taken, axes.len());
    assert(taken.take(taken.len() as int) =~= taken);
    lemma_slots_are_places(map, shape, axes, axes.len());
    let free = free_places(taken, n);
    let order = free + taken;
    lemma_free_order(taken, n);
    lemma_free(index, taken, n);
    lemma_free(shape, taken, n);
    lemma_sizes_left(shape, taken, n);
    let (front, behind) = (without(shape, taken, n), at_places(shape, taken));
    let (i, j) = (without(index, taken, n), at_places(index, taken));
    assert(behind =~= extents(axes, axes.len()));
    lemma_elements(behind);
    assert(is_inside(front, i)) by {
        assert forall|k: int| 0 <= k < front.len() implies (#[trigger] i[k]) < front[k] by {
            assert(i[k] == index[free[k] as int] && front[k] == shape[free[k] as int]);
        }
    }
    assert(is_inside(behind, j)) by {
        assert forall|k: int| 0 <= k < behind.len() implies (#[trigger] j[k]) < behind[k] by {
            assert(taken[k] < shape.len());
        }
    }
    let lanes = to.last();
    lemma_as_one(front, behind, i, j, lanes);
    assert(to =~= front.push(lanes));
    let dtype = dag[value as int].dtype;
    let turned = reordered(dag, value, dtype, as_indices(order));
    let new = reshaped(turned.dag, turned.id, dtype, to);
    lemma_reshaped_grows(turned.dag, turned.id, dtype, to);
    assert(are_indices(order));
    lemma_reordered(dag, value, dtype, order);
    lemma_reshaped(turned.dag, turned.id, dtype, to);
    let e = offset(behind, j, behind.len()) as usize;
    let whole = i + j;
    assert(at_places(index, order) =~= whole);
    assert(at_places(shape, order) =~= front + behind);
    let node = turned.dag[turned.id as int];
    assert(new.dag[turned.id as int] == node);
    let rest = node.srcs.skip(1);
    assert forall|k: int| 0 <= k < rest.len() implies (#[trigger] rest[k]) < turned.dag.len() by {
        assert(turned.dag[turned.id as int].srcs[k + 1] < turned.id);
    }
    lemma_sizes_extend(turned.dag, new.dag, rest, rest.len());
    lemma_lane_dims_extend(dag, new.dag, value);
    assert(permuted(shape, order)->0 =~= front + behind);
    assert(shown_dims(new.dag, turned.id) == Some(front + behind));
    lemma_digits_of_offset(front + behind, whole, front.len() + behind.len());
    assert(whole.take((front.len() + behind.len()) as int) =~= whole);
    assert(shown_index(new.dag, new.dag[new.id as int], i.push(e)) == Some(whole));
    lemma_turned(new.dag, turned.id, order, index);
    assert(turned.dag[turned.id as int].srcs[0] < turned.id);
    assert(new.dag[new.id as int].srcs[0] < new.id);
    reveal_with_fuel(source_of, 3);
}

/// Whether a node lists axes with their extents.
pub open spec fn lists(dag: Seq<NodeView>, id: usize, axes: Seq<(AxisId, usize)>) -> bool {
    let node = dag[id as int];
    &&& node.op is UpcastAxes
    &&& node.srcs.len() == axes.len()
    &&& forall|k: int|
        0 <= k < axes.len() ==> dag[(#[trigger] node.srcs[k]) as int].op == Op::UpcastAxis(
            axes[k].0,
        ) && size_of(dag, dag[node.srcs[k] as int].srcs[0]) == Some(axes[k].1)
}

proof fn lemma_listed(
    dag: Seq<NodeView>,
    ids: Seq<usize>,
    axes: Seq<(AxisId, usize)>,
    n: nat,
)
    requires
        ids.len() == axes.len(),
        n <= axes.len(),
        forall|k: int|
            0 <= k < axes.len() ==> dag[(#[trigger] ids[k]) as int].op == Op::UpcastAxis(axes[k].0)
                && size_of(dag, dag[ids[k] as int].srcs[0]) == Some(axes[k].1),
    ensures
        listed_axes(dag, ids, n) == Some(axes.take(n as int)),
    decreases n,
{
    if n > 0 {
        lemma_listed(dag, ids, axes, (n - 1) as nat);
        assert(dag[ids[n - 1] as int].op == Op::UpcastAxis(axes[n - 1].0));
        assert(axes.take(n as int) =~= axes.take(n - 1).push(axes[n - 1]));
    } else {
        assert(axes.take(0) =~= Seq::empty());
    }
}

/// Where the coordinates of a result stand before its axes are put in order:
/// those that are not taken in front, and those that are behind.
proof fn lemma_back(taken: Seq<usize>, index: Seq<usize>, n: nat)
    requires
        n == index.len(),
        n <= usize::MAX,
        taken.no_duplicates(),
        forall|k: int| 0 <= k < taken.len() ==> (#[trigger] taken[k]) < n,
    ensures
        ({
            let order = back_order(taken, untaken(taken, n), n);
            let whole = without(index, taken, n) + at_places(index, taken);
            &&& is_order(order)
            &&& order.len() == n
            &&& whole.len() == n
            &&& forall|k: int| 0 <= k < n ==> whole[#[trigger] order[k] as int] == index[k]
        }),
{
    let outer = untaken(taken, n);
    let order = back_order(taken, outer, n);
    let front = without(index, taken, n);
    let whole = front + at_places(index, taken);
    lemma_free(index, taken, n);
    lemma_all_taken(taken, n);
    lemma_sizes_left(index, taken, n);
    assert forall|k: int| 0 <= k < n implies (#[trigger] order[k]) < n && whole[order[k] as int]
        == index[k] && (taken.contains(k as usize) <==> order[k] >= outer) by {
        if taken.contains(k as usize) {
            let j = taken.index_of(k as usize);
            assert(taken[j] == k as usize);
            assert(order[k] == outer + j);
        } else {
            lemma_remaining_prefix(index, taken, k as nat, n);
        }
    }
    assert forall|i: int, j: int| 0 <= i < j < order.len() implies (#[trigger] order[i]) != (
    #[trigger] order[j]) by {
        if taken.contains(i as usize) && taken.contains(j as usize) {
            assert(taken[taken.index_of(i as usize)] == i as usize);
            assert(taken[taken.index_of(j as usize)] == j as usize);
        } else if !taken.contains(i as usize) && !taken.contains(j as usize) {
            lemma_untaken_grows(taken, (i + 1) as nat, j as nat);
            lemma_remaining_prefix(index, taken, i as nat, (i + 1) as nat);
            lemma_remaining_prefix(index, taken, j as nat, n);
            lemma_remaining_prefix(index, taken, i as nat, n);
        }
    }
}

/// Coordinates with those at some places as one behind the others.
pub open spec fn as_lanes(shape: Seq<usize>, index: Seq<usize>, taken: Seq<usize>) -> Seq<usize> {
    without(index, taken, index.len()).push(
        offset(at_places(shape, taken), at_places(index, taken), taken.len()) as usize,
    )
}

/// Whether a value has the elements of another one, with the coordinates at some
/// places as one behind the others.
pub open spec fn shows_as_lanes(
    dag: Seq<NodeView>,
    id: usize,
    value: usize,
    shape: Seq<usize>,
    taken: Seq<usize>,
) -> bool {
    forall|index: Seq<usize>|
        is_inside(shape, index) ==> source_of(dag, id, #[trigger] as_lanes(shape, index, taken), value)
            == Some(index)
}

proof fn lemma_operand(
    dag: Seq<NodeView>,
    more: Seq<NodeView>,
    value: usize,
    map: Seq<AxisId>,
    shape: Seq<usize>,
    axes: Seq<(AxisId, usize)>,
    taken: Seq<usize>,
)
    requires
        dag_wf(dag),
        value < dag.len(),
        map.len() <= usize::MAX,
        lane_dims(dag, value) == Some(shape),
        contracted(map, shape, axes) is Some,
        are_places_of(map, axes, taken),
        are_indices(contracted(map, shape, axes)->0),
        map.len() <= i64::MAX,
        ({
            let new = contracted_value(
                dag,
                value,
                free_places(taken, map.len()) + taken,
                contracted(map, shape, axes)->0,
            );
            &&& dag_wf(new.dag)
            &&& new.id < new.dag.len()
            &&& new.dag.len() <= usize::MAX
            &&& extends(new.dag, more)
        }),
    ensures
        ({
            let new = contracted_value(
                dag,
                value,
                free_places(taken, map.len()) + taken,
                contracted(map, shape, axes)->0,
            );
            shows_as_lanes(more, new.id, value, shape, taken)
        }),
{
    let new = contracted_value(
        dag,
        value,
        free_places(taken, map.len()) + taken,
        contracted(map, shape, axes)->0,
    );
    assert forall|index: Seq<usize>| is_inside(shape, index) implies source_of(
        more,
        new.id,
        #[trigger] as_lanes(shape, index, taken),
        value,
    ) == Some(index) by {
        lemma_contracted_operand_shows(dag, value, map, shape, axes, taken, index);
        lemma_source_extends(new.dag, more, new.id, as_lanes(shape, index, taken), value);
    }
}

/// What an axis of the operands and the result of a product is called.
pub struct Named {
    pub axes: Seq<(AxisId, usize)>,
    pub taken: Seq<usize>,
}

/// Whether an operand of a product is contracted along the axes that a node
/// lists, at some places of the loops.
pub open spec fn is_named(dag: Seq<NodeView>, map: Seq<AxisId>, id: usize, named: Named) -> bool {
    &&& lists(dag, id, named.axes)
    &&& are_places_of(map, named.axes, named.taken)
}

/// Where an element of the result stands among the lanes of the product.
proof fn lemma_result(
    dag: Seq<NodeView>,
    id: usize,
    split: usize,
    product: usize,
    inner: Seq<usize>,
    c: Named,
    index: Seq<usize>,
)
    requires
        dag_wf(dag),
        id < dag.len(),
        dag[id as int].op is Permute,
        dag[id as int].srcs.len() == index.len() + 1,
        dag[id as int].srcs[0] == split,
        dag[split as int].op is Reshape,
        dag[split as int].srcs.len() == 2,
        dag[split as int].srcs[0] == product,
        dag[product as int].op is Wmma,
        lane_dims(dag, product) == Some(inner),
        inner.len() > 0,
        index.len() <= usize::MAX,
        c.taken.no_duplicates(),
        c.taken.len() == c.axes.len(),
        forall|k: int| 0 <= k < c.taken.len() ==> (#[trigger] c.taken[k]) < index.len(),
        inner.len() - 1 == untaken(c.taken, index.len()),
        volume(extents(c.axes, c.axes.len()), c.axes.len()) == inner.last(),
        shape_of(dag, dag[split as int].srcs[1]) == Some(
            inner.drop_last() + extents(c.axes, c.axes.len()),
        ),
        sizes_of(dag, dag[id as int].srcs.skip(1), index.len()) == Some(
            back_order(c.taken, (inner.len() - 1) as nat, index.len()),
        ),
        is_inside(inner.drop_last(), without(index, c.taken, index.len())),
        is_inside(extents(c.axes, c.axes.len()), at_places(index, c.taken)),
    ensures
        ({
            let sizes = extents(c.axes, c.axes.len());
            element(dag, id, index) == (Element {
                id: product,
                index: without(index, c.taken, index.len()).push(
                    offset(sizes, at_places(index, c.taken), sizes.len()) as usize,
                ),
            })
        }),
{
    let n = index.len();
    let outer = inner.drop_last();
    let sizes = extents(c.axes, c.axes.len());
    let order = back_order(c.taken, outer.len(), n);
    let (i, j) = (without(index, c.taken, n), at_places(index, c.taken));
    let whole = i + j;
    lemma_back(c.taken, index, n);
    let from = outer + sizes;
    assert(lane_dims(dag, split) == Some(from));
    lemma_all_taken(c.taken, n);
    let found = Seq::new(from.len(), |k: int| index[place_in(order, k)]);
    assert forall|k: int| 0 <= k < n implies found[k] == whole[k] by {
        lemma_order_covers(order, k);
        let at = place_in(order, k);
        assert(order[at] == k);
        assert(whole[order[at] as int] == index[at]);
    }
    assert(found =~= whole);
    assert(dag[id as int].srcs[0] < id);
    assert(dag[split as int].srcs[0] < split);
    assert(viewed_index(dag, dag[id as int], index) == Some(whole));
    lemma_as_one(outer, sizes, i, j, inner.last());
    let e = offset(sizes, j, sizes.len()) as usize;
    assert(inner =~= outer.push(inner.last()));
    lemma_digits_of_offset(inner, i.push(e), inner.len());
    assert(i.push(e).take(inner.len() as int) =~= i.push(e));
    assert(viewed_index(dag, dag[split as int], whole) == Some(i.push(e)));
    reveal_with_fuel(element, 3);
}

proof fn lemma_places_prefix(
    map: Seq<AxisId>,
    axes: Seq<(AxisId, usize)>,
    taken: Seq<usize>,
    n: nat,
)
    requires
        map.len() <= usize::MAX,
        are_places_of(map, axes, taken),
        n <= axes.len(),
    ensures
        places(map, axes, n) == Some(taken.take(n as int)),
    decreases n,
{
    if n > 0 {
        lemma_places_prefix(map, axes, taken, (n - 1) as nat);
        lemma_place(map, axes[n - 1].0, taken[n - 1], map.len());
        assert(taken.take(n as int) =~= taken.take(n - 1).push(taken[n - 1]));
        assert(!taken.take(n - 1).contains(taken[n - 1]));
    } else {
        assert(taken.take(0) =~= Seq::empty());
    }
}

proof fn lemma_axes_at(dag: Seq<NodeView>, id: usize, axes: Seq<(AxisId, usize)>)
    requires
        lists(dag, id, axes),
    ensures
        axes_at(dag, id) == Some(axes),
{
    lemma_listed(dag, dag[id as int].srcs, axes, axes.len());
    assert(axes.take(axes.len() as int) =~= axes);
}

/// The plan of an expanded product, along the axes that its sources list.
proof fn lemma_plan(
    dag: Seq<NodeView>,
    map: Seq<AxisId>,
    srcs: Seq<usize>,
    shapes: (Seq<usize>, Seq<usize>, Seq<usize>),
    a: Named,
    b: Named,
    c: Named,
)
    requires
        map.len() <= usize::MAX,
        srcs.len() == 6,
        product_plan(dag, map, srcs) is Some,
        lane_dims(dag, srcs[0]) == Some(shapes.0),
        lane_dims(dag, srcs[1]) == Some(shapes.1),
        lane_dims(dag, srcs[2]) == Some(shapes.2),
        is_named(dag, map, srcs[3], a),
        is_named(dag, map, srcs[4], b),
        is_named(dag, map, srcs[5], c),
    ensures
        ({
            let plan = product_plan(dag, map, srcs)->0;
            let n = map.len();
            let outer = plan.shapes.inner.drop_last();
            &&& is_writable(plan)
            &&& contracted(map, shapes.0, a.axes) == Some(plan.shapes.a)
            &&& contracted(map, shapes.1, b.axes) == Some(plan.shapes.b)
            &&& plan.left == free_places(a.taken, n) + a.taken
            &&& plan.right == free_places(b.taken, n) + b.taken
            &&& shapes.2.len() > 0
            &&& product_shape(plan.shapes.a, plan.shapes.b, shapes.2.last()) == Some(
                plan.shapes.inner,
            )
            &&& plan.shapes.inner.len() > 0
            &&& plan.shapes.inner.last() == elements(extents(c.axes, c.axes.len()))
            &&& plan.shapes.inner.len() - 1 == untaken(c.taken, n)
            &&& plan.split == outer + extents(c.axes, c.axes.len())
            &&& plan.back == back_order(c.taken, outer.len(), n)
        }),
{
    lemma_axes_at(dag, srcs[3], a.axes);
    lemma_axes_at(dag, srcs[4], b.axes);
    lemma_axes_at(dag, srcs[5], c.axes);
    lemma_slots(map, shapes.0, a.axes, a.taken, a.axes.len());
    lemma_slots(map, shapes.1, b.axes, b.taken, b.axes.len());
    lemma_places_prefix(map, c.axes, c.taken, c.axes.len());
    assert(a.taken.take(a.taken.len() as int) =~= a.taken);
    assert(b.taken.take(b.taken.len() as int) =~= b.taken);
    assert(c.taken.take(c.taken.len() as int) =~= c.taken);
}

/// A product that is expanded along axes multiplies the elements of its operands,
/// each with its coordinates along its own axes as lanes, and has the lanes of
/// the result as its coordinates along the axes of the result; all other
/// coordinates stay what they are.
#[verifier::spinoff_prover]
#[verifier::rlimit(60)]
pub proof fn lemma_expanded_product_multiplies_its_lanes(
    dag: Seq<NodeView>,
    map: Seq<AxisId>,
    form: WmmaMetadata,
    dtype: DType,
    srcs: Seq<usize>,
    shapes: (Seq<usize>, Seq<usize>, Seq<usize>),
    a: Named,
    b: Named,
    c: Named,
    index: Seq<usize>,
)
    requires
        dag_wf(dag),
        map.len() <= usize::MAX,
        map.len() <= i64::MAX,
        srcs.len() == 6,
        forall|k: int| 0 <= k < srcs.len() ==> (#[trigger] srcs[k]) < dag.len(),
        expanded_wmma(dag, map, form, dtype, srcs) is Some,
        expanded_wmma(dag, map, form, dtype, srcs)->0.dag.len() <= usize::MAX,
        lane_dims(dag, srcs[0]) == Some(shapes.0),
        lane_dims(dag, srcs[1]) == Some(shapes.1),
        lane_dims(dag, srcs[2]) == Some(shapes.2),
        is_named(dag, map, srcs[3], a),
        is_named(dag, map, srcs[4], b),
        is_named(dag, map, srcs[5], c),
        index.len() == map.len(),
        is_within(
            without(shapes.0, a.taken, map.len()),
            without(shapes.1, b.taken, map.len()),
            without(index, c.taken, map.len()),
        ),
        is_inside(extents(c.axes, c.axes.len()), at_places(index, c.taken)),
    ensures
        ({
            let new = expanded_wmma(dag, map, form, dtype, srcs)->0;
            let found = element(new.dag, new.id, index);
            let own = new.dag[found.id as int];
            let sizes = extents(c.axes, c.axes.len());
            &&& found.index == without(index, c.taken, map.len()).push(
                offset(sizes, at_places(index, c.taken), sizes.len()) as usize,
            )
            &&& own.op == Op::Wmma(form.flat())
            &&& own.dtype == dtype
            &&& own.srcs.len() == 3
            &&& own.srcs[2] == srcs[2]
            &&& shows_as_lanes(new.dag, own.srcs[0], srcs[0], shapes.0, a.taken)
            &&& shows_as_lanes(new.dag, own.srcs[1], srcs[1], shapes.1, b.taken)
        }),
{
    lemma_plan(dag, map, srcs, shapes, a, b, c);
    let plan = product_plan(dag, map, srcs)->0;
    let inner = plan.shapes.inner;
    let sizes = extents(c.axes, c.axes.len());
    let first = contracted_value(dag, srcs[0], plan.left, plan.shapes.a);
    let second = contracted_value(first.dag, srcs[1], plan.right, plan.shapes.b);
    let want = NodeView {
        op: Op::Wmma(form.flat()),
        dtype,
        srcs: seq![first.id, second.id, srcs[2]],
    };
    let product = put(second.dag, want);
    let new = expanded_wmma(dag, map, form, dtype, srcs)->0;
    assert(srcs[0] < dag.len() && srcs[1] < dag.len() && srcs[2] < dag.len());
    lemma_tail_grows(product.dag, product.id, dtype, plan);
    lemma_head(dag, form, dtype, srcs, plan);
    let split = lemma_tail(product.dag, product.id, dtype, plan);
    assert(extends(first.dag, new.dag));
    assert(extends(second.dag, new.dag));
    lemma_lane_dims_extend(dag, first.dag, srcs[1]);
    lemma_operand(dag, new.dag, srcs[0], map, shapes.0, a.axes, a.taken);
    lemma_operand(first.dag, new.dag, srcs[1], map, shapes.1, b.axes, b.taken);
    lemma_product_dims(first.dag, second.dag, new.dag, product.id, first.id, second.id, plan);
    lemma_lane_dims_extend(dag, new.dag, srcs[2]);
    assert(new.dag[product.id as int] == want);
    assert(lane_dims(new.dag, product.id) == Some(inner)) by {
        assert(new.dag[product.id as int].srcs[0] < product.id);
        assert(new.dag[product.id as int].srcs[1] < product.id);
        assert(new.dag[product.id as int].srcs[2] < product.id);
    }
    lemma_elements(sizes);
    lemma_places_below(map, c);
    lemma_index_inside(map, shapes, a, b, c, plan, index);
    lemma_result(new.dag, new.id, split, product.id, inner, c, index);
}

proof fn lemma_tail_grows(dag: Seq<NodeView>, product: usize, dtype: DType, plan: Plan)
    ensures
        ({
            let split = reshaped(dag, product, dtype, plan.split);
            let new = reordered(split.dag, split.id, dtype, as_indices(plan.back));
            dag.len() <= split.dag.len() <= new.dag.len()
        }),
{
    let split = reshaped(dag, product, dtype, plan.split);
    lemma_reordered_grows(split.dag, split.id, dtype, as_indices(plan.back));
    lemma_reshaped_grows(dag, product, dtype, plan.split);
}

proof fn lemma_tail(dag: Seq<NodeView>, product: usize, dtype: DType, plan: Plan) -> (at: usize)
    requires
        dag_wf(dag),
        product < dag.len(),
        is_writable(plan),
        ({
            let split = reshaped(dag, product, dtype, plan.split);
            reordered(split.dag, split.id, dtype, as_indices(plan.back)).dag.len() <= usize::MAX
        }),
    ensures
        ({
            let split = reshaped(dag, product, dtype, plan.split);
            let new = reordered(split.dag, split.id, dtype, as_indices(plan.back));
            &&& dag_wf(new.dag)
            &&& extends(dag, new.dag)
            &&& new.id < new.dag.len()
            &&& new.dag[new.id as int].op is Permute
            &&& new.dag[new.id as int].srcs.len() == plan.back.len() + 1
            &&& new.dag[new.id as int].srcs[0] == at
            &&& sizes_of(new.dag, new.dag[new.id as int].srcs.skip(1), plan.back.len()) == Some(
                plan.back,
            )
            &&& new.dag[at as int].op is Reshape
            &&& new.dag[at as int].srcs.len() == 2
            &&& new.dag[at as int].srcs[0] == product
            &&& shape_of(new.dag, new.dag[at as int].srcs[1]) == Some(plan.split)
        }),
{
    let split = reshaped(dag, product, dtype, plan.split);
    let new = reordered(split.dag, split.id, dtype, as_indices(plan.back));
    lemma_tail_grows(dag, product, dtype, plan);
    lemma_reshaped(dag, product, dtype, plan.split);
    lemma_reordered(split.dag, split.id, dtype, plan.back);
    assert(new.dag[split.id as int] == split.dag[split.id as int]);
    assert(split.dag[split.id as int].srcs[1] < split.id);
    lemma_shape_extends(split.dag, new.dag, new.dag[split.id as int].srcs[1]);
    split.id
}

proof fn lemma_head(
    dag: Seq<NodeView>,
    form: WmmaMetadata,
    dtype: DType,
    srcs: Seq<usize>,
    plan: Plan,
)
    requires
        dag_wf(dag),
        srcs.len() >= 3,
        srcs[0] < dag.len(),
        srcs[1] < dag.len(),
        srcs[2] < dag.len(),
        is_writable(plan),
        plan.shapes.a.len() > 0,
        plan.shapes.b.len() > 0,
        inner_product(dag, form, dtype, srcs, plan).dag.len() <= usize::MAX,
    ensures
        ({
            let first = contracted_value(dag, srcs[0], plan.left, plan.shapes.a);
            let second = contracted_value(first.dag, srcs[1], plan.right, plan.shapes.b);
            let want = NodeView {
                op: Op::Wmma(form.flat()),
                dtype,
                srcs: seq![first.id, second.id, srcs[2]],
            };
            let product = put(second.dag, want);
            &&& dag_wf(first.dag)
            &&& dag_wf(second.dag)
            &&& dag_wf(product.dag)
            &&& extends(dag, first.dag)
            &&& extends(first.dag, second.dag)
            &&& extends(second.dag, product.dag)
            &&& first.id < first.dag.len()
            &&& second.id < second.dag.len()
            &&& product.id < product.dag.len()
            &&& product.dag[product.id as int] == want
            &&& first.dag.len() <= second.dag.len() <= product.dag.len()
            &&& first.dag[first.id as int].op is Reshape
            &&& second.dag[second.id as int].op is Reshape
            &&& dims(first.dag, first.id) == Some(plan.shapes.a)
            &&& dims(second.dag, second.id) == Some(plan.shapes.b)
        }),
{
    let first = contracted_value(dag, srcs[0], plan.left, plan.shapes.a);
    let second = contracted_value(first.dag, srcs[1], plan.right, plan.shapes.b);
    let want = NodeView {
        op: Op::Wmma(form.flat()),
        dtype,
        srcs: seq![first.id, second.id, srcs[2]],
    };
    lemma_interned_keeps(second.dag, want);
    lemma_contracted_grows(first.dag, srcs[1], plan.right, plan.shapes.b);
    lemma_contracted_value(dag, srcs[0], plan.left, plan.shapes.a);
    lemma_contracted_value(first.dag, srcs[1], plan.right, plan.shapes.b);
    lemma_interned_wf(second.dag, want);
    lemma_put(second.dag, want);
}

proof fn lemma_places_below(map: Seq<AxisId>, c: Named)
    requires
        are_places_of(map, c.axes, c.taken),
    ensures
        forall|k: int| 0 <= k < c.taken.len() ==> (#[trigger] c.taken[k]) < map.len(),
{
}

proof fn lemma_product_dims(
    first: Seq<NodeView>,
    second: Seq<NodeView>,
    more: Seq<NodeView>,
    product: usize,
    a: usize,
    b: usize,
    plan: Plan,
)
    requires
        dag_wf(first),
        dag_wf(second),
        extends(first, more),
        extends(second, more),
        a < first.len(),
        b < second.len(),
        first[a as int].op is Reshape,
        second[b as int].op is Reshape,
        dims(first, a) == Some(plan.shapes.a),
        dims(second, b) == Some(plan.shapes.b),
    ensures
        lane_dims(more, a) == Some(plan.shapes.a),
        lane_dims(more, b) == Some(plan.shapes.b),
{
    lemma_lane_dims_extend(first, more, a);
    lemma_lane_dims_extend(second, more, b);
}

proof fn lemma_index_inside(
    map: Seq<AxisId>,
    shapes: (Seq<usize>, Seq<usize>, Seq<usize>),
    a: Named,
    b: Named,
    c: Named,
    plan: Plan,
    index: Seq<usize>,
)
    requires
        map.len() <= usize::MAX,
        are_places_of(map, a.axes, a.taken),
        are_places_of(map, b.axes, b.taken),
        contracted(map, shapes.0, a.axes) == Some(plan.shapes.a),
        contracted(map, shapes.1, b.axes) == Some(plan.shapes.b),
        product_shape(plan.shapes.a, plan.shapes.b, shapes.2.last()) == Some(plan.shapes.inner),
        index.len() == map.len(),
        is_within(
            without(shapes.0, a.taken, map.len()),
            without(shapes.1, b.taken, map.len()),
            without(index, c.taken, map.len()),
        ),
    ensures
        is_inside(plan.shapes.inner.drop_last(), without(index, c.taken, map.len())),
{
    let n = map.len();
    lemma_slots(map, shapes.0, a.axes, a.taken, a.axes.len());
    lemma_slots(map, shapes.1, b.axes, b.taken, b.axes.len());
    assert(a.taken.take(a.taken.len() as int) =~= a.taken);
    assert(b.taken.take(b.taken.len() as int) =~= b.taken);
    lemma_sizes_left(shapes.0, a.taken, n);
    lemma_sizes_left(shapes.1, b.taken, n);
    let (x, y) = (leading(plan.shapes.a), leading(plan.shapes.b));
    assert(x =~= without(shapes.0, a.taken, n));
    assert(y =~= without(shapes.1, b.taken, n));
    lemma_outer(plan.shapes.a, plan.shapes.b, shapes.2.last());
}

} // verus!
