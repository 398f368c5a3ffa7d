//! Views folded into the addresses that read them: an address in a view becomes
//! an address in what it is a view of.

use vstd::prelude::*;

use crate::bounds::{admits, bounds, find_bounds, lemma_admits_extends, lemma_bounds_hold};
use crate::builders::{const_node, lemma_interned_keeps, put, Built};
use crate::dce::where_node;
use crate::fold::floored_div;
use crate::graph::{dag_wf, BinaryOp, ConstValue, DType, Graph, NodeView, Op};
use crate::indexing::{condition_of, idx_of};
use crate::late::{
    int_with, lemma_int_with, lemma_with_int, lemma_with_int_grows, made, pair_node, put_int,
    put_int_with, put_pair, put_with_int, with_int,
};
use crate::meaning::{lemma_arity, lemma_meaning_extends, lemma_put_meaning, meaning};
use crate::movement::{
    digits, find_place, is_inside, is_order, lemma_digits, lemma_offset_bound, lemma_order_covers,
    moved_dims, offset, place_in, source_index, takes,
    volume, Movement,
};
use crate::pad::{guarded, lemma_and_bits, lemma_guard_decides, put_guarded, Listed};
use crate::passes::{extends, grown, lemma_put, sources};
use crate::reduce::tail;
use crate::shape::{dims, find_dims, shape_at, shape_of, sizes_from, sizes_of};
use crate::views::{find_base, is_movement, moves, view_base};

verus! {

/// How the elements of a view are arranged over those of its source.
pub enum Layout {
    /// Other sizes for the same elements in the same order.
    Reshape { from: Seq<usize>, to: Seq<usize> },
    /// The axes in another order.
    Permute(Seq<usize>),
    /// Repeated elements.
    Expand { from: Seq<usize>, to: Seq<usize> },
    /// A window that starts at some offsets.
    Shrink { from: Seq<usize>, offsets: Seq<usize>, sizes: Seq<usize> },
    /// Axes that are read backwards.
    Flip { from: Seq<usize>, axes: Seq<bool> },
    /// Elements that are not there, before and after.
    Pad { from: Seq<usize>, begin: Seq<usize>, end: Seq<usize> },
}

/// Whether sizes can be constants of an index.
pub open spec fn are_small(list: Seq<usize>) -> bool {
    forall|i: int| 0 <= i < list.len() ==> (#[trigger] list[i]) <= i64::MAX
}

/// Whether the elements along the first axes can be counted, however many axes.
pub open spec fn is_countable(list: Seq<usize>) -> bool {
    forall|n: nat| n <= list.len() ==> #[trigger] volume(list, n) <= usize::MAX
}

/// The truth values that the first `n` nodes are, if all of them are.
pub open spec fn flags_of(dag: Seq<NodeView>, ids: Seq<usize>, n: nat) -> Option<Seq<bool>>
    decreases n,
{
    if n == 0 {
        Some(Seq::empty())
    } else {
        match (flags_of(dag, ids, (n - 1) as nat), dag[ids[n - 1] as int].op) {
            (Some(rest), Op::Const(ConstValue::Bool(flag))) => Some(rest.push(flag)),
            _ => None,
        }
    }
}

/// Whether two shapes have the same elements in the same order, and end with
/// the same sizes behind the first `k` axes of the second.
pub open spec fn reshapes(from: Seq<usize>, to: Seq<usize>, k: nat) -> bool {
    &&& k <= to.len()
    &&& to.len() - k <= from.len()
    &&& to.skip(k as int) == from.skip(from.len() - (to.len() - k))
    &&& is_countable(from.take(from.len() - (to.len() - k)))
    &&& is_countable(to.take(k as int))
    &&& volume(from.take(from.len() - (to.len() - k)), (from.len() - (to.len() - k)) as nat)
        == volume(to.take(k as int), k)
}

/// Whether a shape can be repeated to another one.
pub open spec fn expands(from: Seq<usize>, to: Seq<usize>) -> bool {
    from.len() <= to.len() && forall|i: int|
        0 <= i < from.len() ==> (#[trigger] from[i]) == 1 || from[i] == to[to.len() - from.len() + i]
}

/// Whether a window lies inside a shape.
pub open spec fn shrinks(from: Seq<usize>, offsets: Seq<usize>, sizes: Seq<usize>) -> bool {
    offsets.len() == from.len() && sizes.len() == from.len() && forall|i: int|
        0 <= i < from.len() ==> (#[trigger] offsets[i]) + sizes[i] <= from[i]
}

/// Whether a shape can be padded.
pub open spec fn pads(from: Seq<usize>, begin: Seq<usize>, end: Seq<usize>) -> bool {
    begin.len() == from.len() && end.len() == from.len() && forall|i: int|
        0 <= i < from.len() ==> (#[trigger] begin[i]) + from[i] + end[i] <= i64::MAX
}

/// The layout of a view that is read with `k` indices, where the view can be
/// folded into the address: its source has a known shape, which the view suits,
/// and there is an index for each axis. A reshape may have axes more that it
/// leaves as they are.
pub open spec fn layout_of(dag: Seq<NodeView>, view: usize, k: nat) -> Option<Layout> {
    let node = dag[view as int];
    let list = node.srcs.skip(1);
    let source = if node.srcs.len() > 0 {
        dims(dag, node.srcs[0])
    } else {
        None
    };
    match source {
        None => None,
        Some(from) => if !are_small(from) {
            None
        } else {
            match node.op {
                Op::Reshape => match shape_of(dag, node.srcs[1]) {
                    Some(to) => if are_small(to) && reshapes(from, to, k) {
                        Some(
                            Layout::Reshape {
                                from: from.take(from.len() - (to.len() - k)),
                                to: to.take(k as int),
                            },
                        )
                    } else {
                        None
                    },
                    None => None,
                },
                Op::Permute => match sizes_of(dag, list, list.len()) {
                    Some(order) => if order.len() == from.len() && order.len() == k && is_order(
                        order,
                    ) {
                        Some(Layout::Permute(order))
                    } else {
                        None
                    },
                    None => None,
                },
                Op::Expand => match shape_of(dag, node.srcs[1]) {
                    Some(to) => if to.len() == k && expands(from, to) {
                        Some(Layout::Expand { from, to })
                    } else {
                        None
                    },
                    None => None,
                },
                Op::Shrink => match (shape_of(dag, node.srcs[1]), shape_of(dag, node.srcs[2])) {
                    (Some(offsets), Some(sizes)) => if from.len() == k && shrinks(
                        from,
                        offsets,
                        sizes,
                    ) {
                        Some(Layout::Shrink { from, offsets, sizes })
                    } else {
                        None
                    },
                    _ => None,
                },
                Op::Flip => match flags_of(dag, list, list.len()) {
                    Some(axes) => if axes.len() == from.len() && axes.len() == k {
                        Some(Layout::Flip { from, axes })
                    } else {
                        None
                    },
                    None => None,
                },
                Op::Pad => match (shape_of(dag, node.srcs[1]), shape_of(dag, node.srcs[2])) {
                    (Some(begin), Some(end)) => if from.len() == k && pads(from, begin, end) {
                        Some(Layout::Pad { from, begin, end })
                    } else {
                        None
                    },
                    _ => None,
                },
                _ => None,
            }
        },
    }
}

/// The row-major offset of an index along the first `n` axes.
pub open spec fn flat(dag: Seq<NodeView>, sizes: Seq<usize>, index: Seq<usize>, n: nat) -> Built
    decreases n,
{
    if n == 0 {
        put(dag, const_node(ConstValue::Int(0), DType::WeakInt))
    } else if n == 1 {
        Built { dag, id: index[0] }
    } else {
        let rest = flat(dag, sizes, index, (n - 1) as nat);
        let dtype = rest.dag[rest.id as int].dtype;
        let rows = with_int(rest.dag, BinaryOp::Mul, dtype, rest.id, sizes[n - 1] as int, rest.id);
        put(rows.dag, pair_node(BinaryOp::Add, dtype, rows.id, index[n - 1]))
    }
}

/// The index along the first `n` axes that a row-major offset stands for.
pub open spec fn spread(dag: Seq<NodeView>, sizes: Seq<usize>, offset: usize, n: nat) -> Listed
    decreases n,
{
    if n == 0 {
        Listed { dag, srcs: Seq::empty() }
    } else if n == 1 {
        Listed { dag, srcs: seq![offset] }
    } else {
        let dtype = dag[offset as int].dtype;
        let size = sizes[n - 1] as int;
        let digit = with_int(dag, BinaryOp::FloorMod, dtype, offset, size, offset);
        let above = with_int(digit.dag, BinaryOp::FloorDiv, dtype, offset, size, offset);
        let rest = spread(above.dag, sizes, above.id, (n - 1) as nat);
        Listed { dag: rest.dag, srcs: rest.srcs.push(digit.id) }
    }
}

/// Whether the interval of an index leaves open that it is too low.
pub open spec fn may_be_below(dag: Seq<NodeView>, x: usize, begin: usize) -> bool {
    begin > 0 && !(bounds(dag, x) matches Some(ends) && begin <= ends.0)
}

/// Whether the interval of an index leaves open that it is too high.
pub open spec fn may_be_above(dag: Seq<NodeView>, x: usize, begin: usize, size: usize, end: usize) -> bool {
    end > 0 && !(bounds(dag, x) matches Some(ends) && ends.1 < begin + size)
}

/// Where an index is not in the padding; nothing where it never is.
pub open spec fn inside_of(
    dag: Seq<NodeView>,
    x: usize,
    begin: usize,
    size: usize,
    end: usize,
) -> Option<Built> {
    let low = int_with(dag, BinaryOp::Lt, DType::Bool, begin - 1, x, x);
    if may_be_below(dag, x, begin) {
        if may_be_above(dag, x, begin, size, end) {
            let high = with_int(low.dag, BinaryOp::Lt, DType::Bool, x, begin + size, x);
            Some(put(high.dag, pair_node(BinaryOp::And, DType::Bool, low.id, high.id)))
        } else {
            Some(low)
        }
    } else if may_be_above(dag, x, begin, size, end) {
        Some(with_int(dag, BinaryOp::Lt, DType::Bool, x, begin + size, x))
    } else {
        None
    }
}

/// An index without what is put before it.
pub open spec fn moved_back(dag: Seq<NodeView>, x: usize, begin: usize) -> Built {
    if begin == 0 {
        Built { dag, id: x }
    } else {
        with_int(dag, BinaryOp::Sub, dag[x as int].dtype, x, begin as int, x)
    }
}

/// What an index of a padded axis reads: it is invalid in the padding.
pub open spec fn padded_index(
    dag: Seq<NodeView>,
    x: usize,
    begin: usize,
    size: usize,
    end: usize,
) -> Built {
    let moved = moved_back(dag, x, begin);
    match inside_of(moved.dag, x, begin, size, end) {
        Some(valid) => guarded(valid.dag, moved.id, valid.id),
        None => moved,
    }
}

/// What an index of one axis reads of the source of a view.
pub open spec fn axis_index(dag: Seq<NodeView>, layout: Layout, i: int, x: usize) -> Built {
    let dtype = dag[x as int].dtype;
    match layout {
        Layout::Shrink { offsets, .. } => if offsets[i] == 0 {
            Built { dag, id: x }
        } else {
            with_int(dag, BinaryOp::Add, dtype, x, offsets[i] as int, x)
        },
        Layout::Flip { from, axes } => if axes[i] {
            int_with(dag, BinaryOp::Sub, dtype, from[i] - 1, x, x)
        } else {
            Built { dag, id: x }
        },
        Layout::Pad { from, begin, end } => padded_index(dag, x, begin[i], from[i], end[i]),
        _ => Built { dag, id: x },
    }
}

/// What the first `n` indices read, axis by axis.
pub open spec fn axis_indices(dag: Seq<NodeView>, layout: Layout, index: Seq<usize>, n: nat) -> Listed
    decreases n,
{
    if n == 0 {
        Listed { dag, srcs: Seq::empty() }
    } else {
        let rest = axis_indices(dag, layout, index, (n - 1) as nat);
        let last = axis_index(rest.dag, layout, n - 1, index[n - 1]);
        Listed { dag: last.dag, srcs: rest.srcs.push(last.id) }
    }
}

/// What indices of a view read of its source. An axis that the view puts in
/// front is read at zero.
pub open spec fn addressed(dag: Seq<NodeView>, layout: Layout, index: Seq<usize>) -> Listed {
    match layout {
        Layout::Reshape { from, to } => {
            let offset = flat(dag, to, index, to.len());
            spread(offset.dag, from, offset.id, from.len())
        },
        Layout::Permute(order) => Listed {
            dag,
            srcs: Seq::new(order.len(), |i: int| index[place_in(order, i)]),
        },
        Layout::Expand { from, to } => {
            let zero = put(dag, const_node(ConstValue::Int(0), DType::WeakInt));
            Listed {
                dag: zero.dag,
                srcs: Seq::new(
                    to.len(),
                    |i: int|
                        if i < to.len() - from.len() || from[i - (to.len() - from.len())] == 1 {
                            zero.id
                        } else {
                            index[i]
                        },
                ),
            }
        },
        _ => axis_indices(dag, layout, index, index.len()),
    }
}

/// The address in the source of a view that an address in the view is.
pub open spec fn folded_view(dag: Seq<NodeView>, id: usize) -> Option<Built> {
    let node = dag[id as int];
    if node.op is Index {
        let index = node.srcs.skip(1);
        match layout_of(dag, node.srcs[0], index.len()) {
            Some(layout) => {
                let new = addressed(dag, layout, index);
                Some(
                    put(
                        new.dag,
                        NodeView {
                            op: Op::Index,
                            dtype: node.dtype,
                            srcs: seq![dag[node.srcs[0] as int].srcs[0]] + new.srcs,
                        },
                    ),
                )
            },
            None => None,
        }
    } else {
        None
    }
}

/// The layout that a movement of elements of some sizes gives.
pub open spec fn layout(op: Movement, from: Seq<usize>) -> Layout {
    match op {
        Movement::Reshape(to) => Layout::Reshape { from, to: to@ },
        Movement::Permute(order) => Layout::Permute(order@),
        Movement::Expand(to) => Layout::Expand { from, to: to@ },
        Movement::Shrink { offsets, sizes } => Layout::Shrink {
            from,
            offsets: offsets@,
            sizes: sizes@,
        },
        Movement::Flip(axes) => Layout::Flip { from, axes: axes@ },
        Movement::Pad { begin, end } => Layout::Pad { from, begin: begin@, end: end@ },
    }
}

/// Whether a graph has grown to what was built, with the nodes that were
/// listed.
pub open spec fn listed(before: Seq<NodeView>, after: Graph, built: Listed, list: Seq<usize>) -> bool {
    &&& after.wf()
    &&& after@ == built.dag
    &&& list == built.srcs
    &&& forall|i: int| 0 <= i < list.len() ==> (#[trigger] list[i]) < after@.len()
    &&& extends(before, after@)
}

pub(crate) fn small(list: &Vec<usize>) -> (r: bool)
    ensures
        r == are_small(list@),
{
    let mut i: usize = 0;
    while i < list.len()
        invariant
            i <= list@.len(),
            forall|j: int| 0 <= j < i ==> (#[trigger] list@[j]) <= i64::MAX,
        decreases list@.len() - i,
    {
        if list[i] as u64 > i64::MAX as u64 {
            assert(!(list@[i as int] <= i64::MAX));
            return false;
        }
        i += 1;
    }
    true
}

fn count(list: &Vec<usize>, n: usize) -> (size: Option<usize>)
    requires
        n <= list@.len(),
    ensures
        is_countable(list@.take(n as int)) == (size is Some),
        size matches Some(c) ==> c == volume(list@.take(n as int), n as nat),
{
    let ghost sizes = list@.take(n as int);
    let mut size: usize = 1;
    let mut i: usize = 0;
    while i < n
        invariant
            i <= n <= list@.len(),
            sizes == list@.take(n as int),
            size == volume(sizes, i as nat),
            forall|k: nat| k <= i ==> #[trigger] volume(sizes, k) <= usize::MAX,
        decreases n - i,
    {
        assert(volume(sizes, (i + 1) as nat) == volume(sizes, i as nat) * (sizes[i as int] as nat));
        match size.checked_mul(list[i]) {
            Some(next) => {
                size = next;
            },
            None => {
                assert(!(volume(sizes, (i + 1) as nat) <= usize::MAX));
                return None;
            },
        }
        i += 1;
    }
    Some(size)
}

fn first(list: &Vec<usize>, n: usize) -> (part: Vec<usize>)
    requires
        n <= list@.len(),
    ensures
        part@ == list@.take(n as int),
{
    let mut part: Vec<usize> = Vec::new();
    let mut i: usize = 0;
    while i < n
        invariant
            i <= n <= list@.len(),
            part@ == list@.take(i as int),
        decreases n - i,
    {
        part.push(list[i]);
        i += 1;
        assert(part@ =~= list@.take(i as int));
    }
    part
}

fn same_tail(from: &Vec<usize>, to: &Vec<usize>, kept: usize, k: usize) -> (r: bool)
    requires
        k <= to@.len(),
        kept <= from@.len(),
        from@.len() - kept == to@.len() - k,
    ensures
        r == (to@.skip(k as int) == from@.skip(kept as int)),
{
    let rest: usize = to.len() - k;
    let mut i: usize = 0;
    while i < rest
        invariant
            i <= rest,
            k <= to@.len(),
            kept <= from@.len(),
            k + rest == to.len(),
            kept + rest == from.len(),
            forall|j: int| 0 <= j < i ==> to@.skip(k as int)[j] == from@.skip(kept as int)[j],
        decreases rest - i,
    {
        assert(to@.skip(k as int)[i as int] == to@[k + i]);
        assert(from@.skip(kept as int)[i as int] == from@[kept + i]);
        if to[k + i] != from[kept + i] {
            return false;
        }
        i += 1;
    }
    assert(to@.skip(k as int) =~= from@.skip(kept as int));
    true
}

fn is_permutation(order: &Vec<usize>) -> (r: bool)
    ensures
        r == is_order(order@),
{
    let mut i: usize = 0;
    while i < order.len()
        invariant
            i <= order@.len(),
            forall|a: int| 0 <= a < i ==> (#[trigger] order@[a]) < order@.len(),
            forall|a: int, b: int|
                0 <= a < b < i ==> (#[trigger] order@[a]) != (#[trigger] order@[b]),
        decreases order@.len() - i,
    {
        if order[i] >= order.len() {
            assert(!(order@[i as int] < order@.len()));
            return false;
        }
        let mut j: usize = 0;
        while j < i
            invariant
                j <= i < order@.len(),
                forall|a: int| 0 <= a < j ==> (#[trigger] order@[a]) != order@[i as int],
            decreases i - j,
        {
            if order[j] == order[i] {
                assert(order@[j as int] == order@[i as int]);
                return false;
            }
            j += 1;
        }
        i += 1;
    }
    true
}

fn can_expand(from: &Vec<usize>, to: &Vec<usize>) -> (r: bool)
    ensures
        r == expands(from@, to@),
{
    if from.len() > to.len() {
        return false;
    }
    let lead: usize = to.len() - from.len();
    let mut i: usize = 0;
    while i < from.len()
        invariant
            i <= from@.len(),
            lead + from.len() == to.len(),
            forall|a: int|
                0 <= a < i ==> (#[trigger] from@[a]) == 1 || from@[a] == to@[to@.len() - from@.len()
                    + a],
        decreases from@.len() - i,
    {
        if from[i] != 1 && from[i] != to[lead + i] {
            assert(from@[i as int] != to@[to@.len() - from@.len() + i]);
            return false;
        }
        i += 1;
    }
    true
}

fn can_shrink(from: &Vec<usize>, offsets: &Vec<usize>, sizes: &Vec<usize>) -> (r: bool)
    ensures
        r == shrinks(from@, offsets@, sizes@),
{
    if offsets.len() != from.len() || sizes.len() != from.len() {
        return false;
    }
    let mut i: usize = 0;
    while i < from.len()
        invariant
            i <= from@.len(),
            offsets@.len() == from@.len(),
            sizes@.len() == from@.len(),
            forall|a: int| 0 <= a < i ==> (#[trigger] offsets@[a]) + sizes@[a] <= from@[a],
        decreases from@.len() - i,
    {
        if offsets[i] > from[i] || sizes[i] > from[i] - offsets[i] {
            assert(!(offsets@[i as int] + sizes@[i as int] <= from@[i as int]));
            return false;
        }
        i += 1;
    }
    true
}

fn can_pad(from: &Vec<usize>, begin: &Vec<usize>, end: &Vec<usize>) -> (r: bool)
    ensures
        r == pads(from@, begin@, end@),
{
    if begin.len() != from.len() || end.len() != from.len() {
        return false;
    }
    let mut i: usize = 0;
    while i < from.len()
        invariant
            i <= from@.len(),
            begin@.len() == from@.len(),
            end@.len() == from@.len(),
            forall|a: int|
                0 <= a < i ==> (#[trigger] begin@[a]) + from@[a] + end@[a] <= i64::MAX,
        decreases from@.len() - i,
    {
        let sum: u128 = begin[i] as u128 + from[i] as u128 + end[i] as u128;
        if sum > i64::MAX as u128 {
            assert(!(begin@[i as int] + from@[i as int] + end@[i as int] <= i64::MAX));
            return false;
        }
        i += 1;
    }
    true
}

fn find_flags(graph: &Graph, id: usize) -> (found: Option<Vec<bool>>)
    requires
        graph.wf(),
        id < graph@.len(),
        graph@[id as int].srcs.len() > 0,
    ensures
        ({
            let list = graph@[id as int].srcs.skip(1);
            match found {
                Some(axes) => flags_of(graph@, list, list.len()) == Some(axes@),
                None => flags_of(graph@, list, list.len()) is None,
            }
        }),
{
    let ghost list = graph@[id as int].srcs.skip(1);
    let count: usize = graph.source_count(id);
    let mut axes: Vec<bool> = Vec::new();
    let mut n: usize = 0;
    while n < count - 1
        invariant
            graph.wf(),
            id < graph@.len(),
            count == graph@[id as int].srcs.len(),
            count > 0,
            n <= count - 1,
            list == graph@[id as int].srcs.skip(1),
            flags_of(graph@, list, n as nat) == Some(axes@),
        decreases count - 1 - n,
    {
        let src: usize = graph.source(id, n + 1);
        assert(list[n as int] == src);
        match graph.op(src) {
            Op::Const(ConstValue::Bool(flag)) => {
                axes.push(flag);
            },
            _ => {
                proof {
                    lemma_flags_missing(graph@, list, (n + 1) as nat, list.len());
                }
                return None;
            },
        }
        n += 1;
    }
    Some(axes)
}

proof fn lemma_flags_missing(dag: Seq<NodeView>, ids: Seq<usize>, k: nat, n: nat)
    requires
        k <= n,
        flags_of(dag, ids, k) is None,
    ensures
        flags_of(dag, ids, n) is None,
    decreases n,
{
    if k < n {
        lemma_flags_missing(dag, ids, k, (n - 1) as nat);
    }
}

/// The layout of a view, as a movement of elements of the sizes of its source.
fn find_layout(graph: &Graph, view: usize, k: usize) -> (found: Option<(Movement, Vec<usize>)>)
    requires
        graph.wf(),
        view < graph@.len(),
    ensures
        match found {
            Some((op, from)) => layout_of(graph@, view, k as nat) == Some(layout(op, from@)),
            None => layout_of(graph@, view, k as nat) is None,
        },
        found is Some ==> graph@[view as int].srcs.len() > 0,
{
    let ghost dag = graph@;
    proof {
        lemma_arity(dag, view);
    }
    if graph.source_count(view) == 0 {
        return None;
    }
    let source: usize = graph.source(view, 0);
    let from = match find_dims(graph, source) {
        Some(list) => list,
        None => {
            return None;
        },
    };
    if !small(&from) {
        return None;
    }
    match graph.op(view) {
        Op::Reshape => {
            let to = match shape_at(graph, graph.source(view, 1)) {
                Some(list) => list,
                None => {
                    return None;
                },
            };
            find_reshape(&from, &to, k)
        },
        Op::Permute => match sizes_from(graph, view, 1) {
            Some(order) => {
                if order.len() == from.len() && order.len() == k && is_permutation(&order) {
                    Some((Movement::Permute(order), from))
                } else {
                    None
                }
            },
            None => None,
        },
        Op::Expand => match shape_at(graph, graph.source(view, 1)) {
            Some(to) => {
                if to.len() == k && can_expand(&from, &to) {
                    Some((Movement::Expand(to), from))
                } else {
                    None
                }
            },
            None => None,
        },
        Op::Shrink => {
            let offsets = shape_at(graph, graph.source(view, 1));
            let sizes = shape_at(graph, graph.source(view, 2));
            match (offsets, sizes) {
                (Some(offsets), Some(sizes)) => {
                    if from.len() == k && can_shrink(&from, &offsets, &sizes) {
                        Some((Movement::Shrink { offsets, sizes }, from))
                    } else {
                        None
                    }
                },
                _ => None,
            }
        },
        Op::Flip => match find_flags(graph, view) {
            Some(axes) => {
                if axes.len() == from.len() && axes.len() == k {
                    Some((Movement::Flip(axes), from))
                } else {
                    None
                }
            },
            None => None,
        },
        Op::Pad => {
            let begin = shape_at(graph, graph.source(view, 1));
            let end = shape_at(graph, graph.source(view, 2));
            match (begin, end) {
                (Some(begin), Some(end)) => {
                    if from.len() == k && can_pad(&from, &begin, &end) {
                        Some((Movement::Pad { begin, end }, from))
                    } else {
                        None
                    }
                },
                _ => None,
            }
        },
        _ => None,
    }
}

fn find_reshape(from: &Vec<usize>, to: &Vec<usize>, k: usize) -> (found: Option<
    (Movement, Vec<usize>),
>)
    ensures
        found is Some == (are_small(to@) && reshapes(from@, to@, k as nat)),
        found matches Some((op, part)) ==> layout(op, part@) == (Layout::Reshape {
            from: from@.take(from@.len() - (to@.len() - k)),
            to: to@.take(k as int),
        }),
{
    if !small(to) || k > to.len() || to.len() - k > from.len() {
        return None;
    }
    let kept: usize = from.len() - (to.len() - k);
    if !same_tail(from, to, kept, k) {
        return None;
    }
    match (count(from, kept), count(to, k)) {
        (Some(before), Some(after)) => {
            if before == after {
                Some((Movement::Reshape(first(to, k)), first(from, kept)))
            } else {
                None
            }
        },
        _ => None,
    }
}

pub(crate) fn put_flat(graph: &mut Graph, sizes: &Vec<usize>, index: &Vec<usize>) -> (id: usize)
    requires
        old(graph).wf(),
        are_small(sizes@),
        index@.len() == sizes@.len(),
        forall|i: int| 0 <= i < index@.len() ==> (#[trigger] index@[i]) < old(graph)@.len(),
    ensures
        grown(old(graph)@, *final(graph), flat(old(graph)@, sizes@, index@, sizes@.len()), id),
{
    let ghost dag = graph@;
    if sizes.len() == 0 {
        return put_int(graph, 0, DType::WeakInt);
    }
    let mut id: usize = index[0];
    let mut n: usize = 1;
    while n < sizes.len()
        invariant
            dag == old(graph)@,
            are_small(sizes@),
            index@.len() == sizes@.len(),
            1 <= n <= sizes@.len(),
            forall|i: int| 0 <= i < index@.len() ==> (#[trigger] index@[i]) < dag.len(),
            grown(dag, *graph, flat(dag, sizes@, index@, n as nat), id),
        decreases sizes@.len() - n,
    {
        let dtype = graph.dtype(id);
        let size: usize = sizes[n];
        assert(sizes@[n as int] <= i64::MAX);
        let rows: usize = put_with_int(graph, BinaryOp::Mul, dtype, id, size as i64, id);
        assert(index@[n as int] < graph@.len());
        id = put_pair(graph, BinaryOp::Add, dtype, rows, index[n]);
        n += 1;
    }
    id
}

fn put_spread(graph: &mut Graph, sizes: &Vec<usize>, offset: usize, n: usize) -> (list: Vec<usize>)
    requires
        old(graph).wf(),
        are_small(sizes@),
        n <= sizes@.len(),
        offset < old(graph)@.len(),
    ensures
        listed(old(graph)@, *final(graph), spread(old(graph)@, sizes@, offset, n as nat), list@),
    decreases n,
{
    let ghost dag = graph@;
    let mut list: Vec<usize> = Vec::new();
    if n == 0 {
        return list;
    }
    if n == 1 {
        list.push(offset);
        assert(list@ =~= seq![offset]);
        return list;
    }
    let dtype = graph.dtype(offset);
    let size: usize = sizes[n - 1];
    assert(sizes@[n - 1] <= i64::MAX);
    let digit: usize = put_with_int(graph, BinaryOp::FloorMod, dtype, offset, size as i64, offset);
    let above: usize = put_with_int(graph, BinaryOp::FloorDiv, dtype, offset, size as i64, offset);
    let mut rest = put_spread(graph, sizes, above, n - 1);
    rest.push(digit);
    rest
}

fn below(graph: &Graph, x: usize, begin: usize) -> (r: bool)
    requires
        graph.wf(),
        x < graph@.len(),
    ensures
        r == may_be_below(graph@, x, begin),
{
    begin > 0 && match find_bounds(graph, x) {
        Some(ends) => (begin as i128) > ends.0 as i128,
        None => true,
    }
}

fn above(graph: &Graph, x: usize, begin: usize, size: usize, end: usize) -> (r: bool)
    requires
        graph.wf(),
        x < graph@.len(),
    ensures
        r == may_be_above(graph@, x, begin, size, end),
{
    end > 0 && match find_bounds(graph, x) {
        Some(ends) => ends.1 as i128 >= begin as i128 + size as i128,
        None => true,
    }
}

fn put_inside(graph: &mut Graph, x: usize, begin: usize, size: usize, end: usize) -> (id: Option<
    usize,
>)
    requires
        old(graph).wf(),
        x < old(graph)@.len(),
        begin + size + end <= i64::MAX,
    ensures
        made(old(graph)@, *final(graph), inside_of(old(graph)@, x, begin, size, end), id),
{
    let low_open = below(graph, x, begin);
    let high_open = above(graph, x, begin, size, end);
    if low_open {
        let low: usize = put_int_with(graph, BinaryOp::Lt, DType::Bool, begin as i64 - 1, x, x);
        if high_open {
            let high: usize = put_with_int(
                graph,
                BinaryOp::Lt,
                DType::Bool,
                x,
                begin as i64 + size as i64,
                x,
            );
            Some(put_pair(graph, BinaryOp::And, DType::Bool, low, high))
        } else {
            Some(low)
        }
    } else if high_open {
        Some(put_with_int(graph, BinaryOp::Lt, DType::Bool, x, begin as i64 + size as i64, x))
    } else {
        None
    }
}

/// Whether a movement is made axis by axis, with constants that an index can
/// have.
spec fn is_axial(op: Movement, from: Seq<usize>) -> bool {
    match op {
        Movement::Shrink { offsets, sizes } => are_small(from) && shrinks(from, offsets@, sizes@),
        Movement::Flip(axes) => are_small(from) && axes@.len() == from.len(),
        Movement::Pad { begin, end } => pads(from, begin@, end@),
        _ => false,
    }
}

fn put_axis(graph: &mut Graph, op: &Movement, from: &Vec<usize>, i: usize, x: usize) -> (id: usize)
    requires
        old(graph).wf(),
        x < old(graph)@.len(),
        is_axial(*op, from@),
        i < from@.len(),
    ensures
        grown(old(graph)@, *final(graph), axis_index(old(graph)@, layout(*op, from@), i as int, x), id),
{
    let dtype = graph.dtype(x);
    match op {
        Movement::Shrink { offsets, .. } => {
            let offset: usize = offsets[i];
            assert(offsets@[i as int] <= from@[i as int] && from@[i as int] <= i64::MAX);
            if offset == 0 {
                x
            } else {
                put_with_int(graph, BinaryOp::Add, dtype, x, offset as i64, x)
            }
        },
        Movement::Flip(axes) => {
            assert(from@[i as int] <= i64::MAX);
            if axes[i] {
                put_int_with(graph, BinaryOp::Sub, dtype, from[i] as i64 - 1, x, x)
            } else {
                x
            }
        },
        Movement::Pad { begin, end } => {
            assert(begin@[i as int] + from@[i as int] + end@[i as int] <= i64::MAX);
            let moved: usize = if begin[i] == 0 {
                x
            } else {
                put_with_int(graph, BinaryOp::Sub, dtype, x, begin[i] as i64, x)
            };
            match put_inside(graph, x, begin[i], from[i], end[i]) {
                Some(valid) => put_guarded(graph, moved, valid),
                None => moved,
            }
        },
        _ => x,
    }
}

fn put_axes(graph: &mut Graph, op: &Movement, from: &Vec<usize>, index: &Vec<usize>) -> (list: Vec<
    usize,
>)
    requires
        old(graph).wf(),
        is_axial(*op, from@),
        index@.len() == from@.len(),
        forall|i: int| 0 <= i < index@.len() ==> (#[trigger] index@[i]) < old(graph)@.len(),
    ensures
        listed(
            old(graph)@,
            *final(graph),
            axis_indices(old(graph)@, layout(*op, from@), index@, index@.len()),
            list@,
        ),
{
    let ghost dag = graph@;
    let mut list: Vec<usize> = Vec::new();
    let mut n: usize = 0;
    while n < index.len()
        invariant
            dag == old(graph)@,
            is_axial(*op, from@),
            index@.len() == from@.len(),
            n <= index@.len(),
            forall|i: int| 0 <= i < index@.len() ==> (#[trigger] index@[i]) < dag.len(),
            listed(dag, *graph, axis_indices(dag, layout(*op, from@), index@, n as nat), list@),
        decreases index@.len() - n,
    {
        assert(index@[n as int] < graph@.len());
        let id: usize = put_axis(graph, op, from, n, index[n]);
        list.push(id);
        n += 1;
    }
    list
}

fn put_expanded(graph: &mut Graph, from: &Vec<usize>, to: &Vec<usize>, index: &Vec<usize>) -> (list:
    Vec<usize>)
    requires
        old(graph).wf(),
        expands(from@, to@),
        index@.len() == to@.len(),
        forall|i: int| 0 <= i < index@.len() ==> (#[trigger] index@[i]) < old(graph)@.len(),
    ensures
        listed(
            old(graph)@,
            *final(graph),
            addressed(old(graph)@, (Layout::Expand { from: from@, to: to@ }), index@),
            list@,
        ),
{
    let ghost dag = graph@;
    let zero: usize = put_int(graph, 0, DType::WeakInt);
    let lead: usize = to.len() - from.len();
    let mut list: Vec<usize> = Vec::new();
    let ghost want = addressed(dag, (Layout::Expand { from: from@, to: to@ }), index@).srcs;
    let mut i: usize = 0;
    while i < to.len()
        invariant
            i <= to@.len(),
            lead + from.len() == to.len(),
            index@.len() == to@.len(),
            want.len() == to@.len(),
            want == addressed(dag, (Layout::Expand { from: from@, to: to@ }), index@).srcs,
            zero == put(dag, const_node(ConstValue::Int(0), DType::WeakInt)).id,
            zero < graph@.len(),
            dag.len() <= graph@.len(),
            forall|j: int| 0 <= j < index@.len() ==> (#[trigger] index@[j]) < dag.len(),
            list@.len() == i,
            forall|j: int| 0 <= j < i ==> #[trigger] list@[j] == want[j] && list@[j] < graph@.len(),
        decreases to@.len() - i,
    {
        if i < lead || from[i - lead] == 1 {
            list.push(zero);
        } else {
            assert(index@[i as int] < dag.len());
            list.push(index[i]);
        }
        i += 1;
    }
    assert(list@ =~= want);
    list
}

fn permuted_index(order: &Vec<usize>, index: &Vec<usize>) -> (list: Vec<usize>)
    requires
        is_order(order@),
        index@.len() == order@.len(),
    ensures
        list@ == Seq::new(order@.len(), |i: int| index@[place_in(order@, i)]),
        forall|i: int| 0 <= i < list@.len() ==> index@.contains(#[trigger] list@[i]),
{
    let mut list: Vec<usize> = Vec::new();
    let mut i: usize = 0;
    while i < order.len()
        invariant
            i <= order@.len(),
            is_order(order@),
            index@.len() == order@.len(),
            list@.len() == i,
            forall|j: int| 0 <= j < i ==> #[trigger] list@[j] == index@[place_in(order@, j)],
            forall|j: int| 0 <= j < i ==> index@.contains(#[trigger] list@[j]),
        decreases order@.len() - i,
    {
        let place: usize = find_place(order, i);
        assert(index@.contains(index@[place as int]));
        list.push(index[place]);
        i += 1;
    }
    assert(list@ =~= Seq::new(order@.len(), |i: int| index@[place_in(order@, i)]));
    list
}

/// Whether a movement suits some sizes and a number of indices, with constants
/// that an index can have.
spec fn suits(op: Movement, from: Seq<usize>, k: nat) -> bool {
    match op {
        Movement::Reshape(to) => are_small(from) && are_small(to@) && to@.len() == k,
        Movement::Permute(order) => is_order(order@) && order@.len() == k,
        Movement::Expand(to) => expands(from, to@) && to@.len() == k,
        _ => is_axial(op, from) && from.len() == k,
    }
}

fn put_addressed(graph: &mut Graph, op: &Movement, from: &Vec<usize>, index: &Vec<usize>) -> (list:
    Vec<usize>)
    requires
        old(graph).wf(),
        suits(*op, from@, index@.len()),
        forall|i: int| 0 <= i < index@.len() ==> (#[trigger] index@[i]) < old(graph)@.len(),
    ensures
        listed(
            old(graph)@,
            *final(graph),
            addressed(old(graph)@, layout(*op, from@), index@),
            list@,
        ),
{
    match op {
        Movement::Reshape(to) => {
            let offset: usize = put_flat(graph, to, index);
            put_spread(graph, from, offset, from.len())
        },
        Movement::Permute(order) => {
            let list = permuted_index(order, index);
            assert forall|i: int| 0 <= i < list@.len() implies (#[trigger] list@[i])
                < graph@.len() by {
                let j = choose|j: int| 0 <= j < index@.len() && index@[j] == list@[i];
                assert(index@[j] < graph@.len());
            }
            list
        },
        Movement::Expand(to) => put_expanded(graph, from, to, index),
        _ => put_axes(graph, op, from, index),
    }
}

/// Folds a view into the address that reads it; see `folded_view`.
pub fn fold_view(graph: &mut Graph, id: usize) -> (new: Option<usize>)
    requires
        old(graph).wf(),
        id < old(graph)@.len(),
    ensures
        made(old(graph)@, *final(graph), folded_view(old(graph)@, id), new),
{
    let ghost dag = graph@;
    proof {
        lemma_arity(dag, id);
    }
    match graph.op(id) {
        Op::Index => {},
        _ => {
            return None;
        },
    }
    let dtype = graph.dtype(id);
    let list = sources(graph, id);
    let view: usize = list[0];
    let index = tail(&list);
    assert(index@ == dag[id as int].srcs.skip(1));
    assert forall|i: int| 0 <= i < index@.len() implies (#[trigger] index@[i]) < dag.len() by {
        assert(index@[i] == list@[i + 1]);
    }
    match find_layout(graph, view, index.len()) {
        Some((op, from)) => {
            let source: usize = graph.source(view, 0);
            proof {
                lemma_layout_suits(dag, view, index@.len(), op, from@);
            }
            let new = put_addressed(graph, &op, &from, &index);
            let ghost held = graph@;
            let ghost node = NodeView { op: Op::Index, dtype, srcs: seq![source] + new@ };
            proof {
                lemma_interned_keeps(held, node);
            }
            Some(graph.led(Op::Index, dtype, source, new.as_slice()))
        },
        None => None,
    }
}

/// The address in the storage itself that an address in views of views is, as
/// far as the views can be folded.
pub open spec fn folded_views(dag: Seq<NodeView>, id: usize) -> Built
    decreases dag[id as int].srcs[0],
{
    match folded_view(dag, id) {
        Some(new) => if new.dag[new.id as int].srcs[0] < dag[id as int].srcs[0] {
            folded_views(new.dag, new.id)
        } else {
            new
        },
        None => Built { dag, id },
    }
}

/// Folds views into the address that reads them; see `folded_views`.
pub fn fold_views(graph: &mut Graph, id: usize) -> (new: usize)
    requires
        old(graph).wf(),
        id < old(graph)@.len(),
    ensures
        grown(old(graph)@, *final(graph), folded_views(old(graph)@, id), new),
{
    let ghost dag = graph@;
    let mut now: usize = id;
    loop
        invariant
            graph.wf(),
            now < graph@.len(),
            extends(dag, graph@),
            folded_views(dag, id) == folded_views(graph@, now),
        ensures
            grown(dag, *graph, folded_views(dag, id), now),
        decreases graph@[now as int].srcs[0],
    {
        let ghost held = graph@;
        match fold_view(graph, now) {
            Some(next) => {
                proof {
                    lemma_folded_view_descends(held, now);
                }
                now = next;
            },
            None => {
                break;
            },
        }
    }
    now
}

proof fn lemma_folded_view_descends(dag: Seq<NodeView>, id: usize)
    requires
        dag_wf(dag),
        id < dag.len(),
        folded_view(dag, id) is Some,
        folded_view(dag, id)->0.dag.len() <= usize::MAX,
    ensures
        ({
            let new = folded_view(dag, id)->0;
            new.dag[new.id as int].srcs[0] < dag[id as int].srcs[0]
        }),
{
    let node = dag[id as int];
    lemma_arity(dag, id);
    let view = node.srcs[0];
    assert(dag[id as int].srcs[0] < id);
    let index = node.srcs.skip(1);
    let shape = layout_of(dag, view, index.len())->0;
    let list = addressed(dag, shape, index);
    assert(dag[view as int].srcs.len() > 0);
    assert(dag[view as int].srcs[0] < view);
    lemma_put(
        list.dag,
        NodeView {
            op: Op::Index,
            dtype: node.dtype,
            srcs: seq![dag[view as int].srcs[0]] + list.srcs,
        },
    );
}

/// Loops that are closed around a view are closed around what it is a view of.
pub open spec fn ended_view(dag: Seq<NodeView>, id: usize) -> Option<Built> {
    let node = dag[id as int];
    if node.op is End && is_movement(dag[node.srcs[0] as int].op) {
        Some(
            put(
                dag,
                NodeView {
                    op: Op::End,
                    dtype: node.dtype,
                    srcs: seq![view_base(dag, node.srcs[0])] + node.srcs.skip(1),
                },
            ),
        )
    } else {
        None
    }
}

/// Closes loops around what a view is a view of; see `ended_view`.
pub fn end_view(graph: &mut Graph, id: usize) -> (new: Option<usize>)
    requires
        old(graph).wf(),
        id < old(graph)@.len(),
    ensures
        made(old(graph)@, *final(graph), ended_view(old(graph)@, id), new),
{
    let ghost dag = graph@;
    proof {
        lemma_arity(dag, id);
    }
    match graph.op(id) {
        Op::End => {},
        _ => {
            return None;
        },
    }
    let list = sources(graph, id);
    if !moves(graph.op(list[0])) {
        return None;
    }
    let dtype = graph.dtype(id);
    let (base, _) = find_base(graph, list[0]);
    let rest = tail(&list);
    assert forall|i: int| 0 <= i < rest@.len() implies (#[trigger] rest@[i]) < dag.len() by {
        assert(rest@[i] == list@[i + 1]);
    }
    proof {
        lemma_interned_keeps(
            dag,
            NodeView { op: Op::End, dtype, srcs: seq![base] + rest@ },
        );
    }
    Some(graph.led(Op::End, dtype, base, rest.as_slice()))
}

proof fn lemma_layout_suits(dag: Seq<NodeView>, view: usize, k: nat, op: Movement, from: Seq<usize>)
    requires
        layout_of(dag, view, k) == Some(layout(op, from)),
    ensures
        suits(op, from, k),
{
}

/// Whether nodes mean the numbers of a list.
pub open spec fn mean(
    dag: Seq<NodeView>,
    ids: Seq<usize>,
    values: Seq<usize>,
    at: spec_fn(Op) -> int,
) -> bool {
    &&& ids.len() == values.len()
    &&& forall|i: int|
        0 <= i < ids.len() ==> (#[trigger] ids[i]) < dag.len() && meaning(dag, ids[i], at) == Some(
            values[i] as int,
        )
}

/// The row-major offset of an index means the offset of its numbers.
pub proof fn lemma_flat(
    dag: Seq<NodeView>,
    sizes: Seq<usize>,
    index: Seq<usize>,
    values: Seq<usize>,
    n: nat,
    at: spec_fn(Op) -> int,
)
    requires
        dag_wf(dag),
        are_small(sizes),
        index.len() == sizes.len(),
        n <= sizes.len(),
        mean(dag, index, values, at),
        flat(dag, sizes, index, n).dag.len() <= usize::MAX,
    ensures
        ({
            let new = flat(dag, sizes, index, n);
            &&& dag_wf(new.dag)
            &&& extends(dag, new.dag)
            &&& new.id < new.dag.len()
            &&& meaning(new.dag, new.id, at) == Some(offset(sizes, values, n) as int)
        }),
    decreases n,
{
    if n == 0 {
        lemma_put_meaning(dag, const_node(ConstValue::Int(0), DType::WeakInt), at);
    } else if n == 1 {
        assert(index[0] < dag.len());
        assert(offset(sizes, values, 1) == offset(sizes, values, 0) * (sizes[0] as nat) + (
        values[0] as nat));
        assert(offset(sizes, values, 0) == 0);
        assert(0 * (sizes[0] as nat) == 0) by (nonlinear_arith);
    } else {
        let rest = flat(dag, sizes, index, (n - 1) as nat);
        let dtype = rest.dag[rest.id as int].dtype;
        let size = sizes[n - 1] as int;
        let rows = with_int(rest.dag, BinaryOp::Mul, dtype, rest.id, size, rest.id);
        let sum = pair_node(BinaryOp::Add, dtype, rows.id, index[n - 1]);
        lemma_interned_keeps(rows.dag, sum);
        lemma_with_int_grows(rest.dag, BinaryOp::Mul, dtype, rest.id, size, rest.id);
        lemma_flat(dag, sizes, index, values, (n - 1) as nat, at);
        assert(sizes[n - 1] <= i64::MAX);
        lemma_with_int(rest.dag, BinaryOp::Mul, dtype, rest.id, size, rest.id, at);
        assert(index[n - 1] < dag.len());
        lemma_meaning_extends(dag, rest.dag, index[n - 1], at);
        lemma_meaning_extends(rest.dag, rows.dag, index[n - 1], at);
        lemma_put_meaning(rows.dag, sum, at);
    }
}

proof fn lemma_spread_grows(dag: Seq<NodeView>, sizes: Seq<usize>, offset: usize, n: nat)
    ensures
        dag.len() <= spread(dag, sizes, offset, n).dag.len(),
    decreases n,
{
    if n > 1 {
        let dtype = dag[offset as int].dtype;
        let size = sizes[n - 1] as int;
        let digit = with_int(dag, BinaryOp::FloorMod, dtype, offset, size, offset);
        let above = with_int(digit.dag, BinaryOp::FloorDiv, dtype, offset, size, offset);
        lemma_with_int_grows(dag, BinaryOp::FloorMod, dtype, offset, size, offset);
        lemma_with_int_grows(digit.dag, BinaryOp::FloorDiv, dtype, offset, size, offset);
        lemma_spread_grows(above.dag, sizes, above.id, (n - 1) as nat);
    }
}

proof fn lemma_spread(
    dag: Seq<NodeView>,
    sizes: Seq<usize>,
    offset: usize,
    v: nat,
    n: nat,
    at: spec_fn(Op) -> int,
)
    requires
        dag_wf(dag),
        are_small(sizes),
        n <= sizes.len(),
        offset < dag.len(),
        meaning(dag, offset, at) == Some(v as int),
        v < volume(sizes, n),
        spread(dag, sizes, offset, n).dag.len() <= usize::MAX,
    ensures
        ({
            let new = spread(dag, sizes, offset, n);
            &&& dag_wf(new.dag)
            &&& extends(dag, new.dag)
            &&& mean(new.dag, new.srcs, digits(sizes, v, n), at)
        }),
    decreases n,
{
    let new = spread(dag, sizes, offset, n);
    if n == 0 {
    } else {
        let d = sizes[n - 1] as nat;
        let u = volume(sizes, (n - 1) as nat);
        assert(d > 0) by (nonlinear_arith)
            requires
                v < u * d,
        ;
        let q = v / d;
        let r = v % d;
        assert(q * d + r == v && r < d) by (nonlinear_arith)
            requires
                d > 0,
                q == v / d,
                r == v % d,
        ;
        if n == 1 {
            assert(volume(sizes, 0) == 1);
            assert(v < d) by (nonlinear_arith)
                requires
                    v < u * d,
                    u == 1,
            ;
            assert(v % d == v) by (nonlinear_arith)
                requires
                    v < d,
            ;
            assert(digits(sizes, q, 0) =~= Seq::<usize>::empty());
            assert(digits(sizes, v, 1) =~= seq![v as usize]);
        } else {
            assert(q < u) by (nonlinear_arith)
                requires
                    q * d + r == v,
                    v < u * d,
                    d > 0,
            ;
            let dtype = dag[offset as int].dtype;
            let size = sizes[n - 1] as int;
            let digit = with_int(dag, BinaryOp::FloorMod, dtype, offset, size, offset);
            let above = with_int(digit.dag, BinaryOp::FloorDiv, dtype, offset, size, offset);
            let rest = spread(above.dag, sizes, above.id, (n - 1) as nat);
            assert(sizes[n - 1] <= i64::MAX);
            lemma_with_int_grows(digit.dag, BinaryOp::FloorDiv, dtype, offset, size, offset);
            lemma_spread_grows(above.dag, sizes, above.id, (n - 1) as nat);
            lemma_with_int(dag, BinaryOp::FloorMod, dtype, offset, size, offset, at);
            lemma_meaning_extends(dag, digit.dag, offset, at);
            lemma_with_int(digit.dag, BinaryOp::FloorDiv, dtype, offset, size, offset, at);
            assert(floored_div(v as int, size) == q);
            assert(v - size * q == r) by (nonlinear_arith)
                requires
                    q * d + r == v,
                    size == d,
            ;
            lemma_meaning_extends(digit.dag, above.dag, digit.id, at);
            lemma_spread(above.dag, sizes, above.id, q, (n - 1) as nat, at);
            lemma_meaning_extends(above.dag, rest.dag, digit.id, at);
            lemma_digits(sizes, q, (n - 1) as nat);
            let list = digits(sizes, q, (n - 1) as nat);
            assert(digits(sizes, v, n) == list.push(r as usize));
            assert forall|i: int| 0 <= i < new.srcs.len() implies (#[trigger] new.srcs[i])
                < new.dag.len() && meaning(new.dag, new.srcs[i], at) == Some(
                digits(sizes, v, n)[i] as int,
            ) by {
                if i < n - 1 {
                    assert(new.srcs[i] == rest.srcs[i]);
                }
            }
        }
    }
}

proof fn lemma_inside_of_grows(dag: Seq<NodeView>, x: usize, begin: usize, size: usize, end: usize)
    ensures
        inside_of(dag, x, begin, size, end) matches Some(valid) ==> dag.len() <= valid.dag.len(),
{
    let low = int_with(dag, BinaryOp::Lt, DType::Bool, begin - 1, x, x);
    let high = with_int(low.dag, BinaryOp::Lt, DType::Bool, x, begin + size, x);
    lemma_with_int_grows(dag, BinaryOp::Lt, DType::Bool, x, begin - 1, x);
    lemma_with_int_grows(low.dag, BinaryOp::Lt, DType::Bool, x, begin + size, x);
    lemma_with_int_grows(dag, BinaryOp::Lt, DType::Bool, x, begin + size, x);
    lemma_interned_keeps(high.dag, pair_node(BinaryOp::And, DType::Bool, low.id, high.id));
}

/// Where an index is not in the padding, as a truth value.
proof fn lemma_inside_of(
    dag: Seq<NodeView>,
    x: usize,
    v: int,
    begin: usize,
    size: usize,
    end: usize,
    at: spec_fn(Op) -> int,
)
    requires
        dag_wf(dag),
        x < dag.len(),
        meaning(dag, x, at) == Some(v),
        admits(dag, x, at),
        0 <= v < begin + size + end <= i64::MAX,
        inside_of(dag, x, begin, size, end) matches Some(valid) ==> valid.dag.len() <= usize::MAX,
    ensures
        match inside_of(dag, x, begin, size, end) {
            Some(valid) => {
                &&& dag_wf(valid.dag)
                &&& extends(dag, valid.dag)
                &&& valid.id < valid.dag.len()
                &&& meaning(valid.dag, valid.id, at) == Some(
                    if begin <= v < begin + size {
                        1int
                    } else {
                        0int
                    },
                )
            },
            None => begin <= v < begin + size,
        },
{
    if bounds(dag, x) is Some {
        lemma_bounds_hold(dag, x, at);
    }
    let low = int_with(dag, BinaryOp::Lt, DType::Bool, begin - 1, x, x);
    let high = with_int(low.dag, BinaryOp::Lt, DType::Bool, x, begin + size, x);
    let both = pair_node(BinaryOp::And, DType::Bool, low.id, high.id);
    if may_be_below(dag, x, begin) {
        if may_be_above(dag, x, begin, size, end) {
            lemma_interned_keeps(high.dag, both);
            lemma_with_int_grows(low.dag, BinaryOp::Lt, DType::Bool, x, begin + size, x);
        }
        lemma_int_with(dag, BinaryOp::Lt, DType::Bool, begin - 1, x, x, at);
        if may_be_above(dag, x, begin, size, end) {
            lemma_meaning_extends(dag, low.dag, x, at);
            lemma_with_int(low.dag, BinaryOp::Lt, DType::Bool, x, begin + size, x, at);
            lemma_meaning_extends(low.dag, high.dag, low.id, at);
            lemma_put_meaning(high.dag, both, at);
            let a: int = if begin - 1 < v {
                1
            } else {
                0
            };
            let b: int = if v < begin + size {
                1
            } else {
                0
            };
            lemma_and_bits(a, b);
            assert(a * b == if a == 1 && b == 1 {
                1int
            } else {
                0int
            }) by (nonlinear_arith)
                requires
                    a == 0 || a == 1,
                    b == 0 || b == 1,
            ;
        }
    } else if may_be_above(dag, x, begin, size, end) {
        lemma_with_int(dag, BinaryOp::Lt, DType::Bool, x, begin + size, x, at);
    }
}

/// What an index of one axis reads, as a number; nothing in the padding.
pub open spec fn axis_source(layout: Layout, i: int, v: int) -> Option<int> {
    match layout {
        Layout::Shrink { offsets, .. } => Some(v + offsets[i]),
        Layout::Flip { from, axes } => Some(
            if axes[i] {
                from[i] - 1 - v
            } else {
                v
            },
        ),
        Layout::Pad { from, begin, .. } => if begin[i] <= v < begin[i] + from[i] {
            Some(v - begin[i])
        } else {
            None
        },
        _ => Some(v),
    }
}

/// Whether the condition of an index, if it has one, is a truth value.
pub open spec fn has_plain_condition(dag: Seq<NodeView>, x: usize, at: spec_fn(Op) -> int) -> bool {
    condition_of(dag, x) matches Some(c) ==> (meaning(dag, c, at) matches Some(n) ==> n == 0 || n
        == 1)
}

proof fn lemma_plain_condition_extends(
    dag: Seq<NodeView>,
    more: Seq<NodeView>,
    x: usize,
    at: spec_fn(Op) -> int,
)
    requires
        dag_wf(dag),
        dag_wf(more),
        extends(dag, more),
        x < dag.len(),
        has_plain_condition(dag, x, at),
    ensures
        has_plain_condition(more, x, at),
{
    lemma_arity(dag, x);
    assert(more[x as int] == dag[x as int]);
    if dag[x as int].srcs.len() == 3 {
        assert(dag[x as int].srcs[0] < x);
        assert(dag[x as int].srcs[2] < x);
        assert(more[dag[x as int].srcs[0] as int] == dag[dag[x as int].srcs[0] as int]);
        assert(more[dag[x as int].srcs[2] as int] == dag[dag[x as int].srcs[2] as int]);
        lemma_meaning_extends(dag, more, dag[x as int].srcs[0], at);
    }
}

proof fn lemma_padded_grows(dag: Seq<NodeView>, x: usize, begin: usize, size: usize, end: usize)
    ensures
        ({
            let moved = moved_back(dag, x, begin);
            &&& dag.len() <= moved.dag.len() <= padded_index(dag, x, begin, size, end).dag.len()
            &&& inside_of(moved.dag, x, begin, size, end) matches Some(valid) ==> valid.dag.len()
                <= padded_index(dag, x, begin, size, end).dag.len()
        }),
{
    let moved = moved_back(dag, x, begin);
    lemma_with_int_grows(dag, BinaryOp::Sub, dag[x as int].dtype, x, begin as int, x);
    lemma_inside_of_grows(moved.dag, x, begin, size, end);
    match inside_of(moved.dag, x, begin, size, end) {
        Some(valid) => {
            lemma_guarded_grows(valid.dag, moved.id, valid.id);
        },
        None => {},
    }
}

proof fn lemma_moved_back(
    dag: Seq<NodeView>,
    x: usize,
    v: usize,
    begin: usize,
    at: spec_fn(Op) -> int,
)
    requires
        dag_wf(dag),
        x < dag.len(),
        meaning(dag, x, at) == Some(v as int),
        has_plain_condition(dag, x, at),
        begin <= i64::MAX,
        moved_back(dag, x, begin).dag.len() <= usize::MAX,
    ensures
        ({
            let new = moved_back(dag, x, begin);
            &&& dag_wf(new.dag)
            &&& extends(dag, new.dag)
            &&& new.id < new.dag.len()
            &&& meaning(new.dag, new.id, at) == Some(v - begin)
            &&& has_plain_condition(new.dag, new.id, at)
        }),
{
    if begin != 0 {
        let dtype = dag[x as int].dtype;
        lemma_with_int(dag, BinaryOp::Sub, dtype, x, begin as int, x, at);
        lemma_with_int_op(dag, BinaryOp::Sub, dtype, x, begin as int, x);
    }
}

proof fn lemma_padded(
    dag: Seq<NodeView>,
    x: usize,
    v: usize,
    begin: usize,
    size: usize,
    end: usize,
    at: spec_fn(Op) -> int,
)
    requires
        dag_wf(dag),
        x < dag.len(),
        meaning(dag, x, at) == Some(v as int),
        admits(dag, x, at),
        has_plain_condition(dag, x, at),
        v < begin + size + end <= i64::MAX,
        padded_index(dag, x, begin, size, end).dag.len() <= usize::MAX,
    ensures
        ({
            let new = padded_index(dag, x, begin, size, end);
            &&& dag_wf(new.dag)
            &&& extends(dag, new.dag)
            &&& new.id < new.dag.len()
            &&& meaning(new.dag, new.id, at) == if begin <= v < begin + size {
                Some(v - begin)
            } else {
                None
            }
        }),
{
    let moved = moved_back(dag, x, begin);
    lemma_padded_grows(dag, x, begin, size, end);
    lemma_moved_back(dag, x, v, begin, at);
    lemma_meaning_extends(dag, moved.dag, x, at);
    lemma_admits_extends(dag, moved.dag, x, at);
    lemma_inside_of(moved.dag, x, v as int, begin, size, end, at);
    match inside_of(moved.dag, x, begin, size, end) {
        Some(valid) => {
            lemma_meaning_extends(moved.dag, valid.dag, moved.id, at);
            lemma_plain_condition_extends(moved.dag, valid.dag, moved.id, at);
            lemma_guard_decides(valid.dag, moved.id, valid.id, at);
        },
        None => {},
    }
}

proof fn lemma_axis_grows(dag: Seq<NodeView>, layout: Layout, i: int, x: usize)
    ensures
        dag.len() <= axis_index(dag, layout, i, x).dag.len(),
{
    let dtype = dag[x as int].dtype;
    match layout {
        Layout::Shrink { offsets, .. } => {
            lemma_with_int_grows(dag, BinaryOp::Add, dtype, x, offsets[i] as int, x);
        },
        Layout::Flip { from, .. } => {
            lemma_with_int_grows(dag, BinaryOp::Sub, dtype, x, from[i] - 1, x);
        },
        Layout::Pad { from, begin, end } => {
            lemma_padded_grows(dag, x, begin[i], from[i], end[i]);
        },
        _ => {},
    }
}

#[verifier::rlimit(60)]
#[verifier::spinoff_prover]
proof fn lemma_axis(
    dag: Seq<NodeView>,
    op: Movement,
    from: Seq<usize>,
    i: int,
    x: usize,
    v: usize,
    at: spec_fn(Op) -> int,
)
    requires
        dag_wf(dag),
        is_axial(op, from),
        0 <= i < from.len(),
        x < dag.len(),
        meaning(dag, x, at) == Some(v as int),
        admits(dag, x, at),
        has_plain_condition(dag, x, at),
        v < moved_dims(op, from)[i],
        axis_index(dag, layout(op, from), i, x).dag.len() <= usize::MAX,
    ensures
        ({
            let new = axis_index(dag, layout(op, from), i, x);
            &&& dag_wf(new.dag)
            &&& extends(dag, new.dag)
            &&& new.id < new.dag.len()
            &&& meaning(new.dag, new.id, at) == axis_source(layout(op, from), i, v as int)
        }),
{
    let dtype = dag[x as int].dtype;
    match op {
        Movement::Shrink { offsets, sizes } => {
            assert(offsets@[i] + sizes@[i] <= from[i] && from[i] <= i64::MAX);
            if offsets@[i] != 0 {
                lemma_with_int(dag, BinaryOp::Add, dtype, x, offsets@[i] as int, x, at);
            }
        },
        Movement::Flip(axes) => {
            assert(from[i] <= i64::MAX);
            if axes@[i] {
                lemma_int_with(dag, BinaryOp::Sub, dtype, from[i] - 1, x, x, at);
            }
        },
        Movement::Pad { begin, end } => {
            assert(begin@[i] + from[i] + end@[i] <= i64::MAX);
            lemma_padded(dag, x, v, begin@[i], from[i], end@[i], at);
        },
        _ => {},
    }
}

proof fn lemma_with_int_op(
    dag: Seq<NodeView>,
    op: BinaryOp,
    dtype: DType,
    a: usize,
    n: int,
    like: usize,
)
    requires
        dag_wf(dag),
        a < dag.len(),
        like < dag.len(),
        with_int(dag, op, dtype, a, n, like).dag.len() <= usize::MAX,
    ensures
        ({
            let new = with_int(dag, op, dtype, a, n, like);
            new.dag[new.id as int].op == Op::Binary(op)
        }),
{
    let constant = const_node(ConstValue::Int(n as i64), dag[like as int].dtype);
    let c = put(dag, constant);
    let whole = pair_node(op, dtype, a, c.id);
    lemma_interned_keeps(dag, constant);
    lemma_interned_keeps(c.dag, whole);
    lemma_put(dag, constant);
    lemma_put(c.dag, whole);
}

proof fn lemma_guarded_grows(dag: Seq<NodeView>, index: usize, valid: usize)
    ensures
        dag.len() <= guarded(dag, index, valid).dag.len(),
{
    let plain = idx_of(dag, index);
    let both = pair_node(BinaryOp::And, DType::Bool, valid, condition_of(dag, index)->0);
    let condition = match condition_of(dag, index) {
        Some(other) => put(dag, both),
        None => Built { dag, id: valid },
    };
    let none = const_node(ConstValue::Invalid, DType::WeakInt);
    let invalid = put(condition.dag, none);
    let last = where_node(dag[plain as int].dtype, condition.id, plain, invalid.id);
    lemma_interned_keeps(dag, both);
    lemma_interned_keeps(condition.dag, none);
    lemma_interned_keeps(invalid.dag, last);
}

proof fn lemma_axes_grow(dag: Seq<NodeView>, layout: Layout, index: Seq<usize>, n: nat)
    ensures
        dag.len() <= axis_indices(dag, layout, index, n).dag.len(),
    decreases n,
{
    if n > 0 {
        let rest = axis_indices(dag, layout, index, (n - 1) as nat);
        lemma_axes_grow(dag, layout, index, (n - 1) as nat);
        lemma_axis_grows(rest.dag, layout, n - 1, index[n - 1]);
    }
}

proof fn lemma_axes(
    dag: Seq<NodeView>,
    op: Movement,
    from: Seq<usize>,
    index: Seq<usize>,
    values: Seq<usize>,
    n: nat,
    at: spec_fn(Op) -> int,
)
    requires
        dag_wf(dag),
        is_axial(op, from),
        index.len() == from.len(),
        n <= from.len(),
        mean(dag, index, values, at),
        is_inside(moved_dims(op, from), values),
        forall|i: int|
            0 <= i < index.len() ==> admits(dag, #[trigger] index[i], at) && has_plain_condition(
                dag,
                index[i],
                at,
            ),
        axis_indices(dag, layout(op, from), index, n).dag.len() <= usize::MAX,
    ensures
        ({
            let new = axis_indices(dag, layout(op, from), index, n);
            &&& dag_wf(new.dag)
            &&& extends(dag, new.dag)
            &&& new.srcs.len() == n
            &&& forall|i: int|
                0 <= i < n ==> (#[trigger] new.srcs[i]) < new.dag.len() && meaning(
                    new.dag,
                    new.srcs[i],
                    at,
                ) == axis_source(layout(op, from), i, values[i] as int)
        }),
    decreases n,
{
    let shape = layout(op, from);
    let new = axis_indices(dag, shape, index, n);
    if n > 0 {
        let k = n - 1;
        let rest = axis_indices(dag, shape, index, k as nat);
        let last = axis_index(rest.dag, shape, k, index[k]);
        lemma_axis_grows(rest.dag, shape, k, index[k]);
        lemma_axes(dag, op, from, index, values, k as nat, at);
        assert(index[k] < dag.len());
        lemma_meaning_extends(dag, rest.dag, index[k], at);
        lemma_admits_extends(dag, rest.dag, index[k], at);
        lemma_plain_condition_extends(dag, rest.dag, index[k], at);
        assert(values[k] < moved_dims(op, from)[k]);
        lemma_axis(rest.dag, op, from, k, index[k], values[k], at);
        assert forall|i: int| 0 <= i < n implies (#[trigger] new.srcs[i]) < new.dag.len()
            && meaning(new.dag, new.srcs[i], at) == axis_source(shape, i, values[i] as int) by {
            if i < k {
                assert(new.srcs[i] == rest.srcs[i]);
                lemma_meaning_extends(rest.dag, last.dag, rest.srcs[i], at);
            }
        }
    }
}

/// Whether the sizes of a movement of elements can be constants of an index.
pub open spec fn is_small(op: Movement, from: Seq<usize>) -> bool {
    &&& are_small(from)
    &&& op matches Movement::Reshape(to) ==> are_small(to@)
    &&& op matches Movement::Pad { begin, end } ==> pads(from, begin@, end@)
}

/// The address that a view is folded to reads the element that the view shows:
/// the indices mean the numbers of that element, behind a zero for each axis
/// that the view puts in front. Where the view shows padding, some index is
/// invalid.
pub proof fn lemma_folded_view_reads(
    dag: Seq<NodeView>,
    op: Movement,
    from: Seq<usize>,
    index: Seq<usize>,
    values: Seq<usize>,
    at: spec_fn(Op) -> int,
)
    requires
        dag_wf(dag),
        takes(op, from),
        is_small(op, from),
        is_inside(moved_dims(op, from), values),
        mean(dag, index, values, at),
        forall|i: int|
            0 <= i < index.len() ==> admits(dag, #[trigger] index[i], at) && has_plain_condition(
                dag,
                index[i],
                at,
            ),
        addressed(dag, layout(op, from), index).dag.len() <= usize::MAX,
    ensures
        ({
            let new = addressed(dag, layout(op, from), index);
            match source_index(op, from, values) {
                Some(source) => {
                    let lead = new.srcs.len() - from.len();
                    &&& lead >= 0
                    &&& mean(new.dag, new.srcs.skip(lead), source, at)
                    &&& forall|i: int|
                        0 <= i < lead ==> meaning(new.dag, #[trigger] new.srcs[i], at) == Some(0int)
                },
                None => exists|i: int|
                    0 <= i < new.srcs.len() && meaning(new.dag, #[trigger] new.srcs[i], at) is None,
            }
        }),
{
    let new = addressed(dag, layout(op, from), index);
    match op {
        Movement::Reshape(to) => {
            let whole = offset(to@, values, to@.len());
            let flatly = flat(dag, to@, index, to@.len());
            lemma_spread_grows(flatly.dag, from, flatly.id, from.len());
            lemma_flat(dag, to@, index, values, to@.len(), at);
            lemma_offset_bound(to@, values, to@.len());
            lemma_spread(flatly.dag, from, flatly.id, whole, from.len(), at);
            lemma_digits(from, whole, from.len());
            assert(new.srcs.skip(0) =~= new.srcs);
        },
        Movement::Permute(order) => {
            assert(new.srcs.skip(0) =~= new.srcs);
            let source = source_index(op, from, values)->0;
            assert forall|i: int| 0 <= i < new.srcs.len() implies (#[trigger] new.srcs[i])
                < new.dag.len() && meaning(new.dag, new.srcs[i], at) == Some(source[i] as int) by {
                lemma_order_covers(order@, i);
                assert(new.srcs[i] == index[place_in(order@, i)]);
            }
        },
        Movement::Expand(to) => {
            let zero = const_node(ConstValue::Int(0), DType::WeakInt);
            lemma_put_meaning(dag, zero, at);
            let lead = to@.len() - from.len();
            let source = source_index(op, from, values)->0;
            let tail = new.srcs.skip(lead);
            assert forall|i: int| 0 <= i < tail.len() implies (#[trigger] tail[i]) < new.dag.len()
                && meaning(new.dag, tail[i], at) == Some(source[i] as int) by {
                assert(tail[i] == new.srcs[lead + i]);
                if from[i] != 1 {
                    assert(tail[i] == index[lead + i]);
                    lemma_meaning_extends(dag, new.dag, index[lead + i], at);
                }
            }
        },
        _ => {
            lemma_axes(dag, op, from, index, values, index.len(), at);
            assert(new.srcs.skip(0) =~= new.srcs);
            match op {
                Movement::Pad { begin, .. } => {
                    if source_index(op, from, values) is None {
                        let i = choose|i: int|
                            0 <= i < from.len() && !(begin@[i] <= #[trigger] values[i] < begin@[i]
                                + from[i]);
                        assert(meaning(new.dag, new.srcs[i], at) is None);
                    }
                },
                _ => {},
            }
        },
    }
}

} // verus!
