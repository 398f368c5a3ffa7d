//! Which fragments a product that broadcasts multiplies.

use vstd::prelude::*;

use crate::algebra::elements;
use crate::broadcast::{
    are_pairs, broadcast_product, can_part, fragment_product, fragment_products, parted, parts_of, row_of,
    rows_of, Parts,
};
use crate::builders::{lemma_interned_keeps, put, Built};
use crate::coordinates::number_stack;
use crate::expand::{
    broadcast_dims, fragment, fragments, leading, lemma_broadcast_repeats, lemma_fragment,
    product_shape, repeats_to,
};
use crate::graph::{arity_ok, dag_wf, lemma_interned_wf, DType, NodeView, Op};
use crate::lanes::{element, lane_dims, lemma_lane_dims_extend, lemma_shape_extends, viewed_index, Element};
use crate::meaning::lemma_arity;
use crate::movement::{
    digits, is_inside, lemma_digits, lemma_digits_of_offset, lemma_offset_bound, offset, volume,
};
use crate::pad::Listed;
use crate::passes::{extends, lemma_put};
use crate::product::{are_indices, as_indices, reshaped};
use crate::product_shape::{
    lemma_number_stack, lemma_number_stack_grows, lemma_reshaped, lemma_reshaped_grows,
};
use crate::shape::shape_of;
use crate::tracing::{lemma_shown_dims, shown_index, source_of};

verus! {

/// The coordinates at which an operand is read for coordinates of a product: the
/// same along every axis that it is not repeated along, and the only one along
/// the others.
pub open spec fn repeated_at(lead: Seq<usize>, index: Seq<usize>) -> Seq<usize> {
    Seq::new(
        lead.len(),
        |k: int|
            if lead[k] == 1 {
                0usize
            } else {
                index[k]
            },
    )
}

/// Two shapes broadcast where along each axis they have one size, or one of them
/// has the size one, and the other's sizes are those of the result.
pub proof fn lemma_broadcast_sizes(a: Seq<usize>, b: Seq<usize>, n: nat)
    requires
        n <= a.len(),
        n <= b.len(),
    ensures
        broadcast_dims(a, b, n) is Some <==> forall|k: int|
            0 <= k < n ==> (#[trigger] a[k]) == b[k] || a[k] == 1 || b[k] == 1,
        broadcast_dims(a, b, n) matches Some(outer) ==> outer.len() == n && forall|k: int|
            0 <= k < n ==> #[trigger] outer[k] == if a[k] == 1 {
                b[k]
            } else {
                a[k]
            },
    decreases n,
{
    if n > 0 {
        lemma_broadcast_sizes(a, b, (n - 1) as nat);
        if broadcast_dims(a, b, n) is None && broadcast_dims(a, b, (n - 1) as nat) is Some {
            assert(!(a[n - 1] == b[n - 1] || a[n - 1] == 1 || b[n - 1] == 1));
        }
    }
}

proof fn lemma_elements_are_volume(shape: Seq<usize>, n: nat)
    requires
        n <= shape.len(),
    ensures
        elements(shape.take(n as int)) == volume(shape, n),
    decreases n,
{
    let part = shape.take(n as int);
    if n > 0 {
        lemma_elements_are_volume(shape, (n - 1) as nat);
        assert(part.drop_last() =~= shape.take(n - 1));
    }
}

proof fn lemma_fragment_at(lead: Seq<usize>, outer: Seq<usize>, index: Seq<usize>, n: nat)
    requires
        repeats_to(lead, outer),
        is_inside(outer, index),
        n <= outer.len(),
    ensures
        fragment(lead, outer, n, offset(outer, index, n) as int) == offset(
            lead,
            repeated_at(lead, index),
            n,
        ),
    decreases n,
{
    if n > 0 {
        lemma_fragment_at(lead, outer, index, (n - 1) as nat);
        let size = outer[n - 1] as int;
        let before = offset(outer, index, (n - 1) as nat) as int;
        let i = index[n - 1] as int;
        assert(index[n - 1] < outer[n - 1]);
        assert(lead[n - 1] == outer[n - 1] || lead[n - 1] == 1);
        assert((before * size + i) / size == before && (before * size + i) % size == i)
            by (nonlinear_arith)
            requires
                0 <= i < size,
                0 <= before,
        ;
        assert(repeated_at(lead, index)[n - 1] == if lead[n - 1] == 1 {
            0
        } else {
            index[n - 1]
        });
    }
}

/// For the product at some coordinates the fragments of the operands at the same
/// coordinates are multiplied, where an operand that is repeated along an axis
/// has its only coordinate there; the products come in row-major order.
pub proof fn lemma_fragments_are_at_their_coordinates(
    a: Seq<usize>,
    b: Seq<usize>,
    outer: Seq<usize>,
    index: Seq<usize>,
)
    requires
        repeats_to(leading(a), outer),
        repeats_to(leading(b), outer),
        is_inside(outer, index),
        volume(outer, outer.len()) <= usize::MAX,
    ensures
        ({
            let k = offset(outer, index, outer.len()) as int;
            let pairs = fragments(a, b, outer);
            &&& pairs.len() == volume(outer, outer.len())
            &&& 0 <= k < pairs.len()
            &&& pairs[k].0 == offset(
                leading(a),
                repeated_at(leading(a), index),
                leading(a).len(),
            )
            &&& pairs[k].1 == offset(
                leading(b),
                repeated_at(leading(b), index),
                leading(b).len(),
            )
        }),
{
    let n = outer.len();
    lemma_offset_bound(outer, index, n);
    lemma_elements_are_volume(outer, n);
    assert(outer.take(n as int) =~= outer);
    let k = offset(outer, index, n) as int;
    lemma_fragment(leading(a), outer, n, k);
    lemma_fragment(leading(b), outer, n, k);
    lemma_fragment_at(leading(a), outer, index, n);
    lemma_fragment_at(leading(b), outer, index, n);
}

/// Whether a node is a row of a value of two axes: a window of one row, as a
/// value of one axis.
pub open spec fn is_row(dag: Seq<NodeView>, id: usize, rows: usize, at: usize, len: usize) -> bool {
    let node = dag[id as int];
    let row = dag[node.srcs[0] as int];
    &&& node.op is Reshape
    &&& node.srcs.len() == 2
    &&& shape_of(dag, node.srcs[1]) == Some(seq![len])
    &&& row.op is Shrink
    &&& row.srcs.len() == 3
    &&& row.srcs[0] == rows
    &&& shape_of(dag, row.srcs[1]) == Some(seq![at, 0usize])
    &&& shape_of(dag, row.srcs[2]) == Some(seq![1usize, len])
}

proof fn lemma_row_grows(dag: Seq<NodeView>, rows: usize, dtype: DType, at: usize, len: usize)
    ensures
        dag.len() <= row_of(dag, rows, dtype, at, len).dag.len(),
{
    let starts = number_stack(dag, seq![at as i64, 0i64], DType::WeakInt);
    let sizes = number_stack(starts.dag, seq![1i64, len as i64], DType::WeakInt);
    let node = NodeView { op: Op::Shrink, dtype, srcs: seq![rows, starts.id, sizes.id] };
    let row = put(sizes.dag, node);
    lemma_number_stack_grows(dag, seq![at as i64, 0i64], DType::WeakInt);
    lemma_number_stack_grows(starts.dag, seq![1i64, len as i64], DType::WeakInt);
    lemma_interned_keeps(sizes.dag, node);
    lemma_reshaped_grows(row.dag, row.id, dtype, seq![len]);
}

proof fn lemma_row(dag: Seq<NodeView>, rows: usize, dtype: DType, at: usize, len: usize)
    requires
        dag_wf(dag),
        rows < dag.len(),
        at <= i64::MAX,
        len <= i64::MAX,
        row_of(dag, rows, dtype, at, len).dag.len() <= usize::MAX,
    ensures
        ({
            let new = row_of(dag, rows, dtype, at, len);
            &&& dag_wf(new.dag)
            &&& extends(dag, new.dag)
            &&& new.id < new.dag.len()
            &&& new.dag[new.id as int].dtype == dtype
            &&& is_row(new.dag, new.id, rows, at, len)
        }),
{
    let first = seq![at, 0usize];
    let second = seq![1usize, len];
    assert(as_indices(first) =~= seq![at as i64, 0i64]);
    assert(as_indices(second) =~= seq![1i64, len as i64]);
    let starts = number_stack(dag, as_indices(first), DType::WeakInt);
    let sizes = number_stack(starts.dag, as_indices(second), DType::WeakInt);
    let node = NodeView { op: Op::Shrink, dtype, srcs: seq![rows, starts.id, sizes.id] };
    let row = put(sizes.dag, node);
    let new = reshaped(row.dag, row.id, dtype, seq![len]);
    assert(new == row_of(dag, rows, dtype, at, len));
    lemma_reshaped_grows(row.dag, row.id, dtype, seq![len]);
    lemma_interned_keeps(sizes.dag, node);
    lemma_number_stack_grows(starts.dag, as_indices(second), DType::WeakInt);
    lemma_number_stack(dag, first, DType::WeakInt);
    lemma_number_stack(starts.dag, second, DType::WeakInt);
    lemma_interned_wf(sizes.dag, node);
    lemma_put(sizes.dag, node);
    lemma_reshaped(row.dag, row.id, dtype, seq![len]);
    assert(new.dag[row.id as int] == node);
    assert(extends(starts.dag, new.dag));
    assert(extends(sizes.dag, new.dag));
    lemma_shape_extends(starts.dag, new.dag, starts.id);
    lemma_shape_extends(sizes.dag, new.dag, sizes.id);
}

proof fn lemma_row_kept(
    dag: Seq<NodeView>,
    more: Seq<NodeView>,
    id: usize,
    rows: usize,
    at: usize,
    len: usize,
)
    requires
        dag_wf(dag),
        extends(dag, more),
        id < dag.len(),
        is_row(dag, id, rows, at, len),
    ensures
        is_row(more, id, rows, at, len),
{
    let node = dag[id as int];
    assert(more[id as int] == node);
    assert(dag[id as int].srcs[0] < id && dag[id as int].srcs[1] < id);
    let row = node.srcs[0];
    assert(more[row as int] == dag[row as int]);
    assert(dag[row as int].srcs[1] < row && dag[row as int].srcs[2] < row);
    lemma_shape_extends(dag, more, node.srcs[1]);
    lemma_shape_extends(dag, more, dag[row as int].srcs[1]);
    lemma_shape_extends(dag, more, dag[row as int].srcs[2]);
}

/// Whether a node is the product of a row of each of two values.
pub open spec fn is_product_of_rows(
    dag: Seq<NodeView>,
    id: usize,
    node: NodeView,
    rows: (usize, usize),
    lens: (usize, usize),
    pair: (usize, usize),
) -> bool {
    let own = dag[id as int];
    &&& own.op == node.op
    &&& own.dtype == node.dtype
    &&& own.srcs.len() == 3
    &&& own.srcs[2] == node.srcs[2]
    &&& is_row(dag, own.srcs[0], rows.0, pair.0, lens.0)
    &&& is_row(dag, own.srcs[1], rows.1, pair.1, lens.1)
}

proof fn lemma_product_kept(
    dag: Seq<NodeView>,
    more: Seq<NodeView>,
    id: usize,
    node: NodeView,
    rows: (usize, usize),
    lens: (usize, usize),
    pair: (usize, usize),
)
    requires
        dag_wf(dag),
        extends(dag, more),
        id < dag.len(),
        is_product_of_rows(dag, id, node, rows, lens, pair),
    ensures
        is_product_of_rows(more, id, node, rows, lens, pair),
{
    assert(more[id as int] == dag[id as int]);
    assert(dag[id as int].srcs[0] < id && dag[id as int].srcs[1] < id);
    lemma_row_kept(dag, more, dag[id as int].srcs[0], rows.0, pair.0, lens.0);
    lemma_row_kept(dag, more, dag[id as int].srcs[1], rows.1, pair.1, lens.1);
}

proof fn lemma_products_grow(
    dag: Seq<NodeView>,
    node: NodeView,
    rows: (usize, usize),
    lens: (usize, usize),
    pairs: Seq<(usize, usize)>,
    n: nat,
)
    ensures
        dag.len() <= fragment_products(
            dag,
            node.op,
            node.dtype,
            rows,
            lens,
            pairs,
            node.srcs[2],
            n,
        ).dag.len(),
    decreases n,
{
    if n > 0 {
        lemma_products_grow(dag, node, rows, lens, pairs, (n - 1) as nat);
        let rest = fragment_products(
            dag,
            node.op,
            node.dtype,
            rows,
            lens,
            pairs,
            node.srcs[2],
            (n - 1) as nat,
        );
        lemma_product_grows(rest.dag, node, rows, lens, pairs[n - 1]);
    }
}

proof fn lemma_product_grows(
    dag: Seq<NodeView>,
    node: NodeView,
    rows: (usize, usize),
    lens: (usize, usize),
    pair: (usize, usize),
)
    ensures
        dag.len() <= fragment_product(
            dag,
            node.op,
            node.dtype,
            rows,
            lens,
            pair,
            node.srcs[2],
        ).dag.len(),
{
    let a = row_of(dag, rows.0, dag[rows.0 as int].dtype, pair.0, lens.0);
    let b = row_of(a.dag, rows.1, a.dag[rows.1 as int].dtype, pair.1, lens.1);
    let want = NodeView { op: node.op, dtype: node.dtype, srcs: seq![a.id, b.id, node.srcs[2]] };
    lemma_row_grows(dag, rows.0, dag[rows.0 as int].dtype, pair.0, lens.0);
    lemma_row_grows(a.dag, rows.1, a.dag[rows.1 as int].dtype, pair.1, lens.1);
    lemma_interned_keeps(b.dag, want);
}

proof fn lemma_product(
    dag: Seq<NodeView>,
    node: NodeView,
    rows: (usize, usize),
    lens: (usize, usize),
    pair: (usize, usize),
)
    requires
        dag_wf(dag),
        rows.0 < dag.len(),
        rows.1 < dag.len(),
        node.srcs.len() == 3,
        node.srcs[2] < dag.len(),
        arity_ok(node.op, 3),
        lens.0 <= i64::MAX,
        lens.1 <= i64::MAX,
        pair.0 <= i64::MAX,
        pair.1 <= i64::MAX,
        fragment_product(
            dag,
            node.op,
            node.dtype,
            rows,
            lens,
            pair,
            node.srcs[2],
        ).dag.len() <= usize::MAX,
    ensures
        ({
            let new = fragment_product(
                dag,
                node.op,
                node.dtype,
                rows,
                lens,
                pair,
                node.srcs[2],
            );
            &&& dag_wf(new.dag)
            &&& extends(dag, new.dag)
            &&& new.id < new.dag.len()
            &&& is_product_of_rows(new.dag, new.id, node, rows, lens, pair)
        }),
{
    let a = row_of(dag, rows.0, dag[rows.0 as int].dtype, pair.0, lens.0);
    let b = row_of(a.dag, rows.1, a.dag[rows.1 as int].dtype, pair.1, lens.1);
    let want = NodeView { op: node.op, dtype: node.dtype, srcs: seq![a.id, b.id, node.srcs[2]] };
    let new = put(b.dag, want);
    lemma_interned_keeps(b.dag, want);
    lemma_row_grows(a.dag, rows.1, a.dag[rows.1 as int].dtype, pair.1, lens.1);
    lemma_row(dag, rows.0, dag[rows.0 as int].dtype, pair.0, lens.0);
    lemma_row(a.dag, rows.1, a.dag[rows.1 as int].dtype, pair.1, lens.1);
    lemma_interned_wf(b.dag, want);
    lemma_put(b.dag, want);
    assert(extends(a.dag, new.dag));
    lemma_row_kept(a.dag, new.dag, a.id, rows.0, pair.0, lens.0);
    lemma_row_kept(b.dag, new.dag, b.id, rows.1, pair.1, lens.1);
}

proof fn lemma_products(
    dag: Seq<NodeView>,
    node: NodeView,
    rows: (usize, usize),
    lens: (usize, usize),
    pairs: Seq<(usize, usize)>,
    n: nat,
)
    requires
        dag_wf(dag),
        rows.0 < dag.len(),
        rows.1 < dag.len(),
        node.srcs.len() == 3,
        node.srcs[2] < dag.len(),
        arity_ok(node.op, 3),
        lens.0 <= i64::MAX,
        lens.1 <= i64::MAX,
        n <= pairs.len(),
        forall|k: int|
            0 <= k < pairs.len() ==> (#[trigger] pairs[k]).0 <= i64::MAX && pairs[k].1 <= i64::MAX,
        fragment_products(
            dag,
            node.op,
            node.dtype,
            rows,
            lens,
            pairs,
            node.srcs[2],
            n,
        ).dag.len() <= usize::MAX,
    ensures
        ({
            let list = fragment_products(
                dag,
                node.op,
                node.dtype,
                rows,
                lens,
                pairs,
                node.srcs[2],
                n,
            );
            &&& dag_wf(list.dag)
            &&& extends(dag, list.dag)
            &&& list.srcs.len() == n
            &&& forall|k: int|
                0 <= k < n ==> (#[trigger] list.srcs[k]) < list.dag.len() && is_product_of_rows(
                    list.dag,
                    list.srcs[k],
                    node,
                    rows,
                    lens,
                    pairs[k],
                )
        }),
    decreases n,
{
    if n > 0 {
        let rest = fragment_products(
            dag,
            node.op,
            node.dtype,
            rows,
            lens,
            pairs,
            node.srcs[2],
            (n - 1) as nat,
        );
        let pair = pairs[n - 1];
        let new = fragment_product(
            rest.dag,
            node.op,
            node.dtype,
            rows,
            lens,
            pair,
            node.srcs[2],
        );
        lemma_product_grows(rest.dag, node, rows, lens, pair);
        lemma_products(dag, node, rows, lens, pairs, (n - 1) as nat);
        lemma_product(rest.dag, node, rows, lens, pair);
        let list = fragment_products(
            dag,
            node.op,
            node.dtype,
            rows,
            lens,
            pairs,
            node.srcs[2],
            n,
        );
        assert(list.dag == new.dag && list.srcs == rest.srcs.push(new.id));
        assert(is_product_of_rows(new.dag, new.id, node, rows, lens, pair));
        assert forall|k: int| 0 <= k < n implies (#[trigger] list.srcs[k]) < list.dag.len()
            && is_product_of_rows(list.dag, list.srcs[k], node, rows, lens, pairs[k]) by {
            if k < n - 1 {
                assert(list.srcs[k] == rest.srcs[k]);
                lemma_product_kept(
                    rest.dag,
                    new.dag,
                    rest.srcs[k],
                    node,
                    rows,
                    lens,
                    pairs[k],
                );
            }
        }
    }
}

/// A value in two axes, its fragments and their lanes, shows each element of a
/// fragment where the value has it.
proof fn lemma_rows_show(
    dag: Seq<NodeView>,
    rows: usize,
    base: usize,
    shape: Seq<usize>,
    at: Seq<usize>,
    e: usize,
)
    requires
        dag_wf(dag),
        rows < dag.len(),
        dag[rows as int].op is Reshape,
        dag[rows as int].srcs.len() == 2,
        dag[rows as int].srcs[0] == base,
        shape_of(dag, dag[rows as int].srcs[1]) == Some(rows_of(shape)),
        lane_dims(dag, base) == Some(shape),
        shape.len() > 0,
        elements(leading(shape)) <= usize::MAX,
        is_inside(leading(shape), at),
        e < shape.last(),
    ensures
        source_of(
            dag,
            rows,
            seq![offset(leading(shape), at, at.len()) as usize, e],
            base,
        ) == Some(at.push(e)),
{
    let lead = leading(shape);
    let n = lead.len();
    let to = rows_of(shape);
    let row = offset(lead, at, n);
    let index = seq![row as usize, e];
    let len = shape.last();
    lemma_offset_bound(lead, at, n);
    lemma_elements_are_volume(lead, n);
    assert(lead.take(n as int) =~= lead);
    assert(is_inside(to, index));
    lemma_two_axes(to[0], len, row as usize, e);
    lemma_same_prefix(lead, shape, at.push(e), at, n);
    assert(shape.len() == n + 1 && shape[n as int] == len);
    assert(volume(shape, n + 1) == volume(lead, n) * (len as nat));
    let whole = at.push(e);
    assert(is_inside(shape, whole));
    assert(offset(shape, whole, n + 1) == row * (len as nat) + (e as nat));
    lemma_digits_of_offset(shape, whole, n + 1);
    assert(whole.take(n as int + 1) =~= whole);
    assert(dag[rows as int].srcs[0] < rows);
    lemma_shown_dims(dag, base);
    assert(shown_index(dag, dag[rows as int], index) == Some(whole));
    reveal_with_fuel(source_of, 2);
}

proof fn lemma_same_prefix(
    part: Seq<usize>,
    shape: Seq<usize>,
    index: Seq<usize>,
    at: Seq<usize>,
    n: nat,
)
    requires
        n <= part.len(),
        n <= shape.len(),
        n <= index.len(),
        n <= at.len(),
        forall|k: int| 0 <= k < n ==> part[k] == #[trigger] shape[k],
        forall|k: int| 0 <= k < n ==> at[k] == #[trigger] index[k],
    ensures
        volume(part, n) == volume(shape, n),
        offset(part, at, n) == offset(shape, index, n),
    decreases n,
{
    if n > 0 {
        lemma_same_prefix(part, shape, index, at, (n - 1) as nat);
        assert(part[n - 1] == shape[n - 1]);
        assert(at[n - 1] == index[n - 1]);
    }
}

/// A row shows the elements of the fragment that it is a row for.
proof fn lemma_row_shows(
    dag: Seq<NodeView>,
    id: usize,
    rows: usize,
    base: usize,
    at: usize,
    len: usize,
    e: usize,
)
    requires
        dag_wf(dag),
        id < dag.len(),
        base <= rows,
        is_row(dag, id, rows, at, len),
        e < len,
    ensures
        source_of(dag, id, seq![e], base) == source_of(dag, rows, seq![at, e], base),
        lane_dims(dag, id) == Some(seq![len]),
{
    let node = dag[id as int];
    let row = node.srcs[0];
    assert(dag[id as int].srcs[0] < id);
    assert(dag[row as int].srcs[0] < row);
    let from = seq![1usize, len];
    reveal_with_fuel(offset, 3);
    reveal_with_fuel(volume, 3);
    reveal_with_fuel(digits, 3);
    assert(lane_dims(dag, row) == Some(from));
    assert(is_inside(seq![len], seq![e]));
    lemma_one_axis(len, e);
    let inner = seq![0usize, e];
    assert((e as nat) / (len as nat) == 0 && (e as nat) % (len as nat) == e) by (nonlinear_arith)
        requires
            0 <= e < len,
    ;
    assert(digits(from, e as nat, 2) =~= inner);
    assert(shown_index(dag, node, seq![e]) == Some(inner));
    assert(is_inside(from, inner));
    assert(shown_index(dag, dag[row as int], inner)->0 =~= seq![at, e]);
    reveal_with_fuel(source_of, 3);
}

proof fn lemma_two_axes(rows: usize, len: usize, at: usize, e: usize)
    ensures
        volume(seq![rows, len], 2) == rows as nat * len as nat,
        offset(seq![rows, len], seq![at, e], 2) == at as nat * len as nat + e as nat,
{
    let (two, index) = (seq![rows, len], seq![at, e]);
    assert(volume(two, 0) == 1 && offset(two, index, 0) == 0);
    assert(volume(two, 1) == 1 * (rows as nat));
    assert(volume(two, 2) == volume(two, 1) * (two[1] as nat));
    assert(offset(two, index, 1) == 0 * (rows as nat) + (at as nat));
    assert(offset(two, index, 2) == offset(two, index, 1) * (two[1] as nat) + (index[1] as nat));
}

proof fn lemma_one_axis(len: usize, e: usize)
    ensures
        volume(seq![len], 1) == len,
        volume(seq![1usize, len], 2) == len,
        offset(seq![len], seq![e], 1) == e,
{
    let (one, two) = (seq![len], seq![1usize, len]);
    assert(volume(one, 0) == 1 && volume(two, 0) == 1);
    assert(volume(two, 1) == volume(two, 0) * (two[0] as nat));
    assert(volume(two, 1) == 1);
    assert(volume(one, 1) == 1 * (len as nat));
    assert(volume(two, 2) == volume(two, 1) * (two[1] as nat));
    assert(offset(one, seq![e], 0) == 0);
    assert(offset(one, seq![e], 1) == 0 * (len as nat) + (e as nat));
}

/// Whether along each axis two shapes have one size, or one of them has the size
/// one.
pub open spec fn go_together(a: Seq<usize>, b: Seq<usize>) -> bool {
    &&& a.len() == b.len()
    &&& forall|k: int| 0 <= k < a.len() ==> (#[trigger] a[k]) == b[k] || a[k] == 1 || b[k] == 1
}

/// Whether coordinates lie inside the larger of two sizes along each axis.
pub open spec fn is_within(a: Seq<usize>, b: Seq<usize>, index: Seq<usize>) -> bool {
    &&& index.len() == a.len()
    &&& forall|k: int|
        0 <= k < a.len() ==> (#[trigger] index[k]) < if a[k] == 1 {
            b[k]
        } else {
            a[k]
        }
}

/// Whether a node is the product of the fragments of two values at some
/// coordinates, to which the lanes of a third are added.
pub open spec fn multiplies(
    dag: Seq<NodeView>,
    id: usize,
    node: NodeView,
    at: (Seq<usize>, Seq<usize>),
    lens: (usize, usize),
) -> bool {
    let own = dag[id as int];
    &&& own.op == node.op
    &&& own.dtype == node.dtype
    &&& own.srcs.len() == 3
    &&& own.srcs[2] == node.srcs[2]
    &&& lane_dims(dag, own.srcs[0]) == Some(seq![lens.0])
    &&& lane_dims(dag, own.srcs[1]) == Some(seq![lens.1])
    &&& forall|e: usize|
        e < lens.0 ==> #[trigger] source_of(dag, own.srcs[0], seq![e], node.srcs[0]) == Some(
            at.0.push(e),
        )
    &&& forall|e: usize|
        e < lens.1 ==> #[trigger] source_of(dag, own.srcs[1], seq![e], node.srcs[1]) == Some(
            at.1.push(e),
        )
}

/// The rows that the operands of a product are taken apart into, and the products
/// of them.
spec fn is_parted(
    dag: Seq<NodeView>,
    node: NodeView,
    parts: Parts,
    new: Built,
    rows: (usize, usize),
    stack: usize,
) -> bool {
    &&& dag_wf(new.dag)
    &&& extends(dag, new.dag)
    &&& new.id < new.dag.len()
    &&& stack < new.dag.len()
    &&& rows.0 < new.dag.len()
    &&& rows.1 < new.dag.len()
    &&& is_rows(new.dag, rows.0, node.srcs[0], parts.left)
    &&& is_rows(new.dag, rows.1, node.srcs[1], parts.right)
    &&& is_rows(new.dag, new.id, stack, parts.shape)
    &&& new.dag[stack as int].op is Stack
    &&& new.dag[stack as int].srcs.len() == parts.pairs.len()
    &&& forall|k: int|
        0 <= k < parts.pairs.len() ==> is_product_of_rows(
            new.dag,
            #[trigger] new.dag[stack as int].srcs[k],
            node,
            rows,
            (parts.left[1], parts.right[1]),
            parts.pairs[k],
        )
}

/// Whether a node is a value in a shape.
spec fn is_rows(dag: Seq<NodeView>, id: usize, value: usize, shape: Seq<usize>) -> bool {
    let node = dag[id as int];
    &&& node.op is Reshape
    &&& node.srcs.len() == 2
    &&& node.srcs[0] == value
    &&& shape_of(dag, node.srcs[1]) == Some(shape)
}

proof fn lemma_rows_kept(
    dag: Seq<NodeView>,
    more: Seq<NodeView>,
    id: usize,
    value: usize,
    shape: Seq<usize>,
)
    requires
        dag_wf(dag),
        extends(dag, more),
        id < dag.len(),
        is_rows(dag, id, value, shape),
    ensures
        is_rows(more, id, value, shape),
{
    assert(more[id as int] == dag[id as int]);
    assert(dag[id as int].srcs[1] < id);
    lemma_shape_extends(dag, more, dag[id as int].srcs[1]);
}

/// Whether a list holds the products of the fragments of two values.
spec fn holds_products(
    list: Listed,
    node: NodeView,
    parts: Parts,
    rows: (usize, usize),
) -> bool {
    &&& dag_wf(list.dag)
    &&& rows.0 < list.dag.len()
    &&& rows.1 < list.dag.len()
    &&& is_rows(list.dag, rows.0, node.srcs[0], parts.left)
    &&& is_rows(list.dag, rows.1, node.srcs[1], parts.right)
    &&& list.srcs.len() == parts.pairs.len()
    &&& forall|k: int|
        0 <= k < parts.pairs.len() ==> (#[trigger] list.srcs[k]) < list.dag.len()
            && is_product_of_rows(
            list.dag,
            list.srcs[k],
            node,
            rows,
            (parts.left[1], parts.right[1]),
            parts.pairs[k],
        )
}

proof fn lemma_stacked(
    dag: Seq<NodeView>,
    list: Listed,
    node: NodeView,
    parts: Parts,
    rows: (usize, usize),
) -> (at: usize)
    requires
        holds_products(list, node, parts, rows),
        extends(dag, list.dag),
        parts.shape.len() > 0,
        parts.pairs.len() > 0,
        are_indices(parts.shape),
        ({
            let stack = put(list.dag, NodeView { op: Op::Stack, dtype: node.dtype, srcs: list.srcs });
            reshaped(stack.dag, stack.id, node.dtype, parts.shape).dag.len() <= usize::MAX
        }),
    ensures
        ({
            let stack = put(list.dag, NodeView { op: Op::Stack, dtype: node.dtype, srcs: list.srcs });
            let new = reshaped(stack.dag, stack.id, node.dtype, parts.shape);
            is_parted(dag, node, parts, new, rows, at)
        }),
{
    let dtype = node.dtype;
    let want = NodeView { op: Op::Stack, dtype, srcs: list.srcs };
    let stack = put(list.dag, want);
    let new = reshaped(stack.dag, stack.id, dtype, parts.shape);
    let lens = (parts.left[1], parts.right[1]);
    lemma_reshaped_grows(stack.dag, stack.id, dtype, parts.shape);
    lemma_interned_keeps(list.dag, want);
    lemma_interned_wf(list.dag, want);
    lemma_put(list.dag, want);
    lemma_reshaped(stack.dag, stack.id, dtype, parts.shape);
    assert(extends(list.dag, new.dag));
    lemma_rows_kept(list.dag, new.dag, rows.0, node.srcs[0], parts.left);
    lemma_rows_kept(list.dag, new.dag, rows.1, node.srcs[1], parts.right);
    assert(new.dag[stack.id as int] == want);
    assert forall|k: int| 0 <= k < parts.pairs.len() implies is_product_of_rows(
        new.dag,
        #[trigger] new.dag[stack.id as int].srcs[k],
        node,
        rows,
        lens,
        parts.pairs[k],
    ) by {
        assert(new.dag[stack.id as int].srcs[k] == list.srcs[k]);
        lemma_product_kept(list.dag, new.dag, list.srcs[k], node, rows, lens, parts.pairs[k]);
    }
    stack.id
}

proof fn lemma_parted(dag: Seq<NodeView>, node: NodeView, parts: Parts) -> (found: (
    (usize, usize),
    usize,
))
    requires
        dag_wf(dag),
        node.srcs.len() == 3,
        node.srcs[0] < dag.len(),
        node.srcs[1] < dag.len(),
        node.srcs[2] < dag.len(),
        arity_ok(node.op, 3),
        parts.left.len() == 2,
        parts.right.len() == 2,
        parts.shape.len() > 0,
        parts.pairs.len() > 0,
        are_indices(parts.left),
        are_indices(parts.right),
        are_indices(parts.shape),
        are_pairs(parts.pairs),
        parted(dag, node, parts).dag.len() <= usize::MAX,
    ensures
        is_parted(dag, node, parts, parted(dag, node, parts), found.0, found.1),
{
    let (op, dtype, srcs) = (node.op, node.dtype, node.srcs);
    let first = dag[srcs[0] as int].dtype;
    let a = reshaped(dag, srcs[0], first, parts.left);
    let second = a.dag[srcs[1] as int].dtype;
    let b = reshaped(a.dag, srcs[1], second, parts.right);
    let rows = (a.id, b.id);
    let lens = (parts.left[1], parts.right[1]);
    let n = parts.pairs.len();
    let list = fragment_products(b.dag, op, dtype, rows, lens, parts.pairs, srcs[2], n);
    let want = NodeView { op: Op::Stack, dtype, srcs: list.srcs };
    let stack = put(list.dag, want);
    lemma_reshaped_grows(stack.dag, stack.id, dtype, parts.shape);
    lemma_interned_keeps(list.dag, want);
    lemma_products_grow(b.dag, node, rows, lens, parts.pairs, n);
    lemma_reshaped_grows(a.dag, srcs[1], second, parts.right);
    lemma_reshaped(dag, srcs[0], first, parts.left);
    lemma_reshaped(a.dag, srcs[1], second, parts.right);
    assert(parts.left[1] <= i64::MAX && parts.right[1] <= i64::MAX);
    lemma_products(b.dag, node, rows, lens, parts.pairs, n);
    assert(extends(a.dag, list.dag));
    lemma_rows_kept(a.dag, list.dag, a.id, srcs[0], parts.left);
    lemma_rows_kept(b.dag, list.dag, b.id, srcs[1], parts.right);
    let at = lemma_stacked(dag, list, node, parts, rows);
    (rows, at)
}

/// The shape of a product whose operands go together.
pub(crate) proof fn lemma_outer(a: Seq<usize>, b: Seq<usize>, lanes: usize)
    requires
        a.len() > 0,
        b.len() > 0,
        product_shape(a, b, lanes) is Some,
    ensures
        ({
            let shape = product_shape(a, b, lanes)->0;
            let outer = shape.drop_last();
            &&& shape =~= outer.push(lanes)
            &&& go_together(leading(a), leading(b))
            &&& outer.len() == leading(a).len()
            &&& repeats_to(leading(a), outer)
            &&& repeats_to(leading(b), outer)
            &&& forall|index: Seq<usize>|
                is_within(leading(a), leading(b), index) <==> #[trigger] is_inside(outer, index)
        }),
{
    let (x, y) = (leading(a), leading(b));
    let shape = product_shape(a, b, lanes)->0;
    let outer = shape.drop_last();
    assert(broadcast_dims(x, y, x.len())->0 =~= outer);
    lemma_broadcast_sizes(x, y, x.len());
    lemma_broadcast_repeats(x, y, x.len());
    assert(x.take(x.len() as int) =~= x);
    assert(y.take(y.len() as int) =~= y);
}

proof fn lemma_repeated_is_inside(lead: Seq<usize>, outer: Seq<usize>, index: Seq<usize>)
    requires
        repeats_to(lead, outer),
        is_inside(outer, index),
    ensures
        is_inside(lead, repeated_at(lead, index)),
{
    assert forall|k: int| 0 <= k < lead.len() implies (#[trigger] repeated_at(lead, index)[k])
        < lead[k] by {
        assert(index[k] < outer[k]);
        assert(lead[k] == outer[k] || lead[k] == 1);
    }
}

/// The element of a stack of values of one axis, in a shape.
proof fn lemma_stacked_element(
    dag: Seq<NodeView>,
    id: usize,
    stack: usize,
    shape: Seq<usize>,
    index: Seq<usize>,
    lane: usize,
)
    requires
        dag_wf(dag),
        id < dag.len(),
        stack < dag.len(),
        is_rows(dag, id, stack, shape),
        dag[stack as int].op is Stack,
        shape.len() > 0,
        volume(shape.drop_last(), (shape.len() - 1) as nat) == dag[stack as int].srcs.len(),
        dag[stack as int].srcs.len() <= usize::MAX,
        is_inside(shape.drop_last(), index),
        lane < shape.last(),
        lane_dims(dag, dag[stack as int].srcs[0]) == Some(seq![shape.last()]),
        dag[dag[stack as int].srcs[offset(
            shape.drop_last(),
            index,
            index.len(),
        ) as int] as int].op is Wmma,
    ensures
        element(dag, id, index.push(lane)) == (Element {
            id: dag[stack as int].srcs[offset(shape.drop_last(), index, index.len()) as int],
            index: seq![lane],
        }),
{
    let outer = shape.drop_last();
    let n = outer.len();
    let whole = index.push(lane);
    let k = offset(outer, index, n);
    let len = shape.last();
    lemma_offset_bound(outer, index, n);
    let srcs = dag[stack as int].srcs;
    let one = srcs[k as int];
    assert(dag[stack as int].srcs[k as int] < stack);
    assert(dag[stack as int].srcs[0] < stack);
    assert(dag[id as int].srcs[0] < id);
    let from = seq![srcs.len() as usize, len];
    assert(lane_dims(dag, stack)->0 =~= from);
    lemma_same_prefix(outer, shape, whole, index, n);
    assert(shape[n as int] == len);
    assert(offset(shape, whole, n + 1) == k * (len as nat) + (lane as nat));
    assert(volume(shape, n + 1) == volume(outer, n) * (len as nat));
    let inner = seq![k as usize, lane];
    assert(is_inside(from, inner));
    lemma_two_axes(srcs.len() as usize, len, k as usize, lane);
    lemma_digits_of_offset(from, inner, 2);
    assert(inner.take(2) =~= inner);
    assert(is_inside(shape, whole));
    assert(viewed_index(dag, dag[id as int], whole) == Some(inner));
    assert(inner.skip(1) =~= seq![lane]);
    reveal_with_fuel(element, 4);
}

/// A product whose operands broadcast is taken apart into products of single
/// fragments. An element of the result is the element of the product whose first
/// operand is the fragment of the first operand at the same coordinates, and
/// whose second operand is that of the second; an operand that has one fragment
/// along an axis has it at every coordinate. The lanes that are added to a
/// fragment are the same for all.
#[verifier::spinoff_prover]
#[verifier::rlimit(60)]
pub proof fn lemma_products_multiply_their_fragments(
    dag: Seq<NodeView>,
    id: usize,
    a: Seq<usize>,
    b: Seq<usize>,
    c: Seq<usize>,
    index: Seq<usize>,
    lane: usize,
)
    requires
        dag_wf(dag),
        id < dag.len(),
        broadcast_product(dag, id) is Some,
        broadcast_product(dag, id)->0.dag.len() <= usize::MAX,
        lane_dims(dag, dag[id as int].srcs[0]) == Some(a),
        lane_dims(dag, dag[id as int].srcs[1]) == Some(b),
        lane_dims(dag, dag[id as int].srcs[2]) == Some(c),
        is_within(leading(a), leading(b), index),
        lane < c[0],
    ensures
        ({
            let new = broadcast_product(dag, id)->0;
            let found = element(new.dag, new.id, index.push(lane));
            &&& found.index == seq![lane]
            &&& multiplies(
                new.dag,
                found.id,
                dag[id as int],
                (repeated_at(leading(a), index), repeated_at(leading(b), index)),
                (a.last(), b.last()),
            )
        }),
{
    let node = dag[id as int];
    lemma_arity(dag, id);
    let parts = parts_of(dag, id)->0;
    let new = parted(dag, node, parts);
    let outer = parts.shape.drop_last();
    let n = outer.len();
    lemma_outer(a, b, c[0]);
    assert(is_inside(outer, index));
    lemma_elements_are_volume(outer, n);
    assert(outer.take(n as int) =~= outer);
    assert(parts.shape.len() > 0 && parts.shape.last() == c[0]);
    assert(dag[id as int].srcs[0] < id && dag[id as int].srcs[1] < id && dag[id as int].srcs[2]
        < id);
    let (rows, stack) = lemma_parted(dag, node, parts);
    lemma_fragments_are_at_their_coordinates(a, b, outer, index);
    let k = offset(outer, index, n) as int;
    let one = new.dag[stack as int].srcs[k];
    let own = new.dag[one as int];
    let lens = (parts.left[1], parts.right[1]);
    let (x, y) = (repeated_at(leading(a), index), repeated_at(leading(b), index));
    lemma_repeated_is_inside(leading(a), outer, index);
    lemma_repeated_is_inside(leading(b), outer, index);
    assert(is_product_of_rows(new.dag, one, node, rows, lens, parts.pairs[k]));
    assert(new.dag[stack as int].srcs[k] < stack);
    assert(new.dag[one as int].srcs[0] < one && new.dag[one as int].srcs[1] < one);
    lemma_lane_dims_extend(dag, new.dag, node.srcs[0]);
    lemma_lane_dims_extend(dag, new.dag, node.srcs[1]);
    lemma_lane_dims_extend(dag, new.dag, node.srcs[2]);
    assert(new.dag[rows.0 as int].srcs[0] < rows.0);
    assert(new.dag[rows.1 as int].srcs[0] < rows.1);
    assert forall|e: usize| e < a.last() implies #[trigger] source_of(
        new.dag,
        own.srcs[0],
        seq![e],
        node.srcs[0],
    ) == Some(x.push(e)) by {
        lemma_rows_show(new.dag, rows.0, node.srcs[0], a, x, e);
        lemma_row_shows(
            new.dag,
            own.srcs[0],
            rows.0,
            node.srcs[0],
            parts.pairs[k].0,
            lens.0,
            e,
        );
    }
    assert forall|e: usize| e < b.last() implies #[trigger] source_of(
        new.dag,
        own.srcs[1],
        seq![e],
        node.srcs[1],
    ) == Some(y.push(e)) by {
        lemma_rows_show(new.dag, rows.1, node.srcs[1], b, y, e);
        lemma_row_shows(
            new.dag,
            own.srcs[1],
            rows.1,
            node.srcs[1],
            parts.pairs[k].1,
            lens.1,
            e,
        );
    }
    lemma_row_shape(new.dag, own.srcs[0], rows.0, parts.pairs[k].0, lens.0);
    lemma_row_shape(new.dag, own.srcs[1], rows.1, parts.pairs[k].1, lens.1);
    lemma_product_lanes(new.dag, stack, node, rows, lens, parts.pairs[0], c);
    lemma_stacked_element(new.dag, new.id, stack, parts.shape, index, lane);
}

proof fn lemma_row_shape(dag: Seq<NodeView>, id: usize, rows: usize, at: usize, len: usize)
    requires
        is_row(dag, id, rows, at, len),
    ensures
        lane_dims(dag, id) == Some(seq![len]),
{
}

proof fn lemma_product_lanes(
    dag: Seq<NodeView>,
    stack: usize,
    node: NodeView,
    rows: (usize, usize),
    lens: (usize, usize),
    pair: (usize, usize),
    c: Seq<usize>,
)
    requires
        dag_wf(dag),
        stack < dag.len(),
        dag[stack as int].srcs.len() > 0,
        is_product_of_rows(dag, dag[stack as int].srcs[0], node, rows, lens, pair),
        node.op is Wmma,
        node.srcs[2] < dag.len(),
        lane_dims(dag, node.srcs[2]) == Some(c),
        c.len() == 1,
    ensures
        lane_dims(dag, dag[stack as int].srcs[0]) == Some(seq![c[0]]),
{
    let one = dag[stack as int].srcs[0];
    assert(dag[stack as int].srcs[0] < stack);
    let own = dag[one as int];
    assert(dag[one as int].srcs[0] < one && dag[one as int].srcs[1] < one
        && dag[one as int].srcs[2] < one);
    lemma_row_shape(dag, own.srcs[0], rows.0, pair.0, lens.0);
    lemma_row_shape(dag, own.srcs[1], rows.1, pair.1, lens.1);
    assert(leading(seq![lens.0]).len() == 0 && leading(seq![lens.1]).len() == 0);
    assert(product_shape(seq![lens.0], seq![lens.1], c[0])->0 =~= seq![c[0]]);
    assert(c =~= seq![c[0]]);
}

/// The larger of two sizes along each axis.
pub open spec fn larger(a: Seq<usize>, b: Seq<usize>) -> Seq<usize> {
    Seq::new(
        a.len(),
        |k: int|
            if a[k] == 1 {
                b[k]
            } else {
                a[k]
            },
    )
}

/// A product is taken apart exactly where its operands have axes before their
/// lanes, and the same number of them, along each of which they have one size or
/// one of them has the size one, where lanes of one axis are added, and where
/// there is a fragment; as long as all numbers can be written.
pub proof fn lemma_broadcasting_product_is_taken_apart(
    dag: Seq<NodeView>,
    id: usize,
    a: Seq<usize>,
    b: Seq<usize>,
    c: Seq<usize>,
)
    requires
        dag_wf(dag),
        id < dag.len(),
        dag[id as int].op is Wmma,
        dag[id as int].srcs.len() == 3,
        lane_dims(dag, dag[id as int].srcs[0]) == Some(a),
        lane_dims(dag, dag[id as int].srcs[1]) == Some(b),
        lane_dims(dag, dag[id as int].srcs[2]) == Some(c),
        are_indices(a),
        are_indices(b),
        are_indices(c),
        volume(leading(a), leading(a).len()) <= i64::MAX,
        volume(leading(b), leading(b).len()) <= i64::MAX,
        volume(leading(a), leading(a).len()) <= usize::MAX,
        volume(leading(b), leading(b).len()) <= usize::MAX,
        volume(larger(leading(a), leading(b)), leading(a).len()) <= usize::MAX,
    ensures
        broadcast_product(dag, id) is Some <==> a.len() >= 2 && b.len() >= 2 && c.len() == 1
            && go_together(leading(a), leading(b)) && volume(
            larger(leading(a), leading(b)),
            leading(a).len(),
        ) > 0,
{
    let (x, y) = (leading(a), leading(b));
    let n = x.len();
    if a.len() >= 2 && b.len() >= 2 && c.len() == 1 && x.len() == y.len() {
        lemma_broadcast_sizes(x, y, n);
        if broadcast_dims(x, y, n) is Some {
            let shape = product_shape(a, b, c[0])->0;
            let outer = shape.drop_last();
            lemma_outer(a, b, c[0]);
            assert(outer =~= larger(x, y));
            lemma_elements_are_volume(outer, n);
            lemma_elements_are_volume(x, n);
            lemma_elements_are_volume(y, n);
            assert(outer.take(n as int) =~= outer);
            assert(x.take(n as int) =~= x);
            assert(y.take(n as int) =~= y);
            let parts = Parts {
                left: rows_of(a),
                right: rows_of(b),
                pairs: fragments(a, b, outer),
                shape,
            };
            assert forall|k: int| 0 <= k < parts.pairs.len() implies (#[trigger] parts.pairs[k]).0
                <= i64::MAX && parts.pairs[k].1 <= i64::MAX by {
                let index = digits(outer, k as nat, n);
                lemma_digits(outer, k as nat, n);
                assert(is_inside(outer, index));
                lemma_fragments_are_at_their_coordinates(a, b, outer, index);
                lemma_repeated_is_inside(x, outer, index);
                lemma_repeated_is_inside(y, outer, index);
                lemma_offset_bound(x, repeated_at(x, index), n);
                lemma_offset_bound(y, repeated_at(y, index), n);
            }
            assert forall|k: int| 0 <= k < shape.len() implies (#[trigger] shape[k]) <= i64::MAX by {
                if k < n {
                    assert(shape[k] == larger(x, y)[k]);
                    assert(x[k] == a[k] && y[k] == b[k]);
                } else {
                    assert(shape[k] == c[0]);
                }
            }
            assert(are_indices(parts.shape));
            assert(are_indices(parts.left));
            assert(are_indices(parts.right));
            assert(parts.pairs.len() == volume(outer, n));
            assert(can_part(a, b, parts) == (parts.pairs.len() > 0));
            assert(parts_of(dag, id) is Some == can_part(a, b, parts));
            assert(go_together(x, y));
        } else {
            assert(parts_of(dag, id) is None);
            assert(!go_together(x, y));
        }
    } else {
        assert(parts_of(dag, id) is None);
    }
}

} // verus!
