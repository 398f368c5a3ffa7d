//! Values of several elements taken apart: views of stacks become stacks, and
//! what is picked out of a stack is one of its sources.

use vstd::prelude::*;

use crate::builders::{extent_node, lemma_interned_keeps, put, Built};
use crate::expand::{product_shape, wmma_shape};
use crate::graph::{dag_wf, lemma_interned_wf, DType, Graph, NodeView, Op};
use crate::late::made;
use crate::meaning::lemma_arity;
use crate::movement::{
    digits, is_inside, lemma_digits, lemma_digits_of_offset, offset, place_in, volume,
};
use crate::passes::{extends, grown, lemma_put, sources, with_srcs};
use crate::shape::{
    dims, find_dims, is_shape, same_list, shape_at, shape_of, size_at, size_of, sizes_from,
    sizes_of,
};
use crate::views::{is_movement, moves};

verus! {

/// The shape of a value, where a stack has an axis for its sources. A product of
/// matrix fragments has the leading axes of its operands, and the lanes of what
/// it adds to.
pub open spec fn lane_dims(dag: Seq<NodeView>, id: usize) -> Option<Seq<usize>>
    decreases id,
{
    let node = dag[id as int];
    if node.op is Stack && node.srcs.len() > 0 && node.srcs[0] < id {
        match lane_dims(dag, node.srcs[0]) {
            Some(rest) => Some(seq![node.srcs.len() as usize] + rest),
            None => None,
        }
    } else if node.op is Wmma && node.srcs.len() >= 3 && node.srcs[0] < id && node.srcs[1] < id
        && node.srcs[2] < id {
        match (
            lane_dims(dag, node.srcs[0]),
            lane_dims(dag, node.srcs[1]),
            lane_dims(dag, node.srcs[2]),
        ) {
            (Some(a), Some(b), Some(c)) => if c.len() > 0 {
                product_shape(a, b, c.last())
            } else {
                None
            },
            _ => None,
        }
    } else {
        dims(dag, id)
    }
}

/// One element of a value.
pub struct Element {
    pub id: usize,
    pub index: Seq<usize>,
}

/// The element of its first source that an access takes at an index.
pub open spec fn picked_index(dag: Seq<NodeView>, srcs: Seq<usize>, index: Seq<usize>) -> Option<
    Seq<usize>,
> {
    if srcs.len() == 2 && dag[srcs[1] as int].op is Stack {
        let lanes = dag[srcs[1] as int].srcs;
        if index.len() > 0 && index[0] < lanes.len() {
            match size_of(dag, lanes[index[0] as int]) {
                Some(at) => Some(seq![at] + index.skip(1)),
                None => None,
            }
        } else {
            None
        }
    } else {
        match sizes_of(dag, srcs.skip(1), (srcs.len() - 1) as nat) {
            Some(at) => Some(at + index),
            None => None,
        }
    }
}

/// The element of its first source that a view shows at an index.
pub open spec fn viewed_index(dag: Seq<NodeView>, node: NodeView, index: Seq<usize>) -> Option<
    Seq<usize>,
> {
    match lane_dims(dag, node.srcs[0]) {
        None => None,
        Some(from) => match node.op {
            Op::Reshape => match shape_of(dag, node.srcs[1]) {
                Some(to) => Some(digits(from, offset(to, index, to.len()), from.len())),
                None => None,
            },
            Op::Expand => if from.len() <= index.len() {
                Some(
                    Seq::new(
                        from.len(),
                        |k: int|
                            if from[k] == 1 {
                                0
                            } else {
                                index[index.len() - from.len() + k]
                            },
                    ),
                )
            } else {
                None
            },
            Op::Permute => match sizes_of(dag, node.srcs.skip(1), (node.srcs.len() - 1) as nat) {
                Some(axes) => Some(Seq::new(from.len(), |k: int| index[place_in(axes, k)])),
                None => None,
            },
            _ => None,
        },
    }
}

/// Which element a value has at an index, as far as it can be told.
pub open spec fn element(dag: Seq<NodeView>, id: usize, index: Seq<usize>) -> Element
    decreases id,
{
    let node = dag[id as int];
    if node.op is Stack && index.len() > 0 && index[0] < node.srcs.len() && node.srcs[index[0] as int]
        < id {
        element(dag, node.srcs[index[0] as int], index.skip(1))
    } else if node.op is Index && node.srcs.len() > 0 && node.srcs[0] < id {
        match picked_index(dag, node.srcs, index) {
            Some(at) => element(dag, node.srcs[0], at),
            None => Element { id, index },
        }
    } else if is_movement(node.op) && node.srcs.len() > 0 && node.srcs[0] < id {
        match viewed_index(dag, node, index) {
            Some(at) => element(dag, node.srcs[0], at),
            None => Element { id, index },
        }
    } else {
        Element { id, index }
    }
}

/// Some sources of an access taken out of a stack.
pub open spec fn taken_out(dag: Seq<NodeView>, id: usize) -> Option<Built> {
    let node = dag[id as int];
    let stack = dag[node.srcs[0] as int];
    if node.op is Index && node.srcs.len() >= 2 && stack.op is Stack && (size_of(dag, node.srcs[1])
        matches Some(at) && at < stack.srcs.len()) {
        let one = stack.srcs[size_of(dag, node.srcs[1])->0 as int];
        if node.srcs.len() == 2 {
            Some(Built { dag, id: one })
        } else {
            Some(put(dag, with_srcs(node, seq![one] + node.srcs.skip(2))))
        }
    } else {
        None
    }
}

/// The first `n` accesses of what a stack of indices accesses.
pub open spec fn accesses_of(
    dag: Seq<NodeView>,
    dtype: DType,
    from: usize,
    lanes: Seq<usize>,
    n: nat,
) -> (Seq<NodeView>, Seq<usize>)
    decreases n,
{
    if n == 0 {
        (dag, Seq::empty())
    } else {
        let (before, list) = accesses_of(dag, dtype, from, lanes, (n - 1) as nat);
        let one = put(before, NodeView { op: Op::Index, dtype, srcs: seq![from, lanes[n - 1]] });
        (one.dag, list.push(one.id))
    }
}

/// An access by a stack of indices as a stack of accesses.
pub open spec fn spread_out(dag: Seq<NodeView>, id: usize) -> Option<Built> {
    let node = dag[id as int];
    let lanes = dag[node.srcs[1] as int].srcs;
    if node.op is Index && node.srcs.len() == 2 && dag[node.srcs[1] as int].op is Stack && !(
    dag[node.srcs[0] as int].op is Stack) && lanes.len() > 0 {
        let (more, list) = accesses_of(dag, node.dtype, node.srcs[0], lanes, lanes.len());
        Some(put(more, NodeView { op: Op::Stack, dtype: node.dtype, srcs: list }))
    } else {
        None
    }
}

/// A stack of copies of a value.
pub open spec fn copies(dag: Seq<NodeView>, dtype: DType, value: usize, count: nat) -> Built {
    put(dag, NodeView { op: Op::Stack, dtype, srcs: Seq::new(count, |k: int| value) })
}

/// A value that is repeated along a new axis, or along one of a single element,
/// as a stack.
pub open spec fn repeated_view(dag: Seq<NodeView>, id: usize) -> Option<Built> {
    let node = dag[id as int];
    let value = node.srcs[0];
    if !(node.op is Expand) {
        None
    } else {
        match shape_of(dag, node.srcs[1]) {
            Some(to) if to.len() > 0 && to[0] > 0 => if lane_dims(dag, value) == Some(to.skip(1)) {
                Some(copies(dag, node.dtype, value, to[0] as nat))
            } else if dag[value as int].op is Stack && dag[value as int].srcs.len() == 1 && lane_dims(
                dag,
                dag[value as int].srcs[0],
            ) == Some(to.skip(1)) {
                Some(copies(dag, node.dtype, dag[value as int].srcs[0], to[0] as nat))
            } else {
                None
            },
            _ => None,
        }
    }
}

/// A reshaped value without the reshape: the value where the shape is its own,
/// what it holds at zero where a first axis of one element goes, a stack of it
/// where such an axis comes; and a reshaped view reshaped at once.
pub open spec fn unshaped_view(dag: Seq<NodeView>, id: usize) -> Option<Built> {
    let node = dag[id as int];
    let value = node.srcs[0];
    if !(node.op is Reshape) {
        None
    } else {
        match (shape_of(dag, node.srcs[1]), lane_dims(dag, value)) {
            (Some(to), Some(from)) => if to == from {
                Some(Built { dag, id: value })
            } else if dag[value as int].op is Reshape {
                Some(put(dag, with_srcs(node, seq![dag[value as int].srcs[0], node.srcs[1]])))
            } else if from == seq![1usize] + to {
                let zero = put(dag, extent_node(0));
                Some(
                    put(
                        zero.dag,
                        NodeView { op: Op::Index, dtype: node.dtype, srcs: seq![value, zero.id] },
                    ),
                )
            } else if to == seq![1usize] + from {
                Some(copies(dag, node.dtype, value, 1))
            } else {
                None
            },
            _ => None,
        }
    }
}

/// Whether axes are in the order that they have.
pub open spec fn in_place(axes: Seq<usize>) -> bool {
    forall|k: int| 0 <= k < axes.len() ==> (#[trigger] axes[k]) == k
}

/// What a view or an access of lanes becomes, if it can be taken apart.
pub open spec fn lane_rule(dag: Seq<NodeView>, id: usize) -> Option<Built> {
    let node = dag[id as int];
    if is_movement(node.op) && node.dtype == DType::Void {
        Some(Built { dag, id: node.srcs[0] })
    } else if node.op is Index {
        match taken_out(dag, id) {
            Some(built) => Some(built),
            None => spread_out(dag, id),
        }
    } else if node.op is Expand {
        repeated_view(dag, id)
    } else if node.op is Reshape {
        unshaped_view(dag, id)
    } else if node.op is Permute {
        match sizes_of(dag, node.srcs.skip(1), (node.srcs.len() - 1) as nat) {
            Some(axes) if in_place(axes) => Some(Built { dag, id: node.srcs[0] }),
            _ => None,
        }
    } else {
        None
    }
}

/// The shape of a value, where a stack has an axis for its sources; see
/// `lane_dims`.
pub fn find_lanes(graph: &Graph, id: usize) -> (found: Option<Vec<usize>>)
    requires
        graph.wf(),
        id < graph@.len(),
    ensures
        is_shape(found, lane_dims(graph@, id)),
    decreases id,
{
    match graph.op(id) {
        Op::Stack => {
            let count: usize = graph.source_count(id);
            if count == 0 {
                return find_dims(graph, id);
            }
            let first: usize = graph.source(id, 0);
            match find_lanes(graph, first) {
                Some(rest) => {
                    let mut list: Vec<usize> = Vec::new();
                    list.push(count);
                    let mut k: usize = 0;
                    while k < rest.len()
                        invariant
                            k <= rest@.len(),
                            list@ == seq![count] + rest@.take(k as int),
                        decreases rest@.len() - k,
                    {
                        list.push(rest[k]);
                        k += 1;
                        assert(list@ =~= seq![count] + rest@.take(k as int));
                    }
                    assert(rest@.take(rest@.len() as int) =~= rest@);
                    Some(list)
                },
                None => None,
            }
        },
        Op::Wmma(_) => {
            proof {
                lemma_arity(graph@, id);
            }
            let a = find_lanes(graph, graph.source(id, 0));
            let b = find_lanes(graph, graph.source(id, 1));
            let c = find_lanes(graph, graph.source(id, 2));
            match (a, b, c) {
                (Some(a), Some(b), Some(c)) => {
                    let count: usize = c.len();
                    if count == 0 {
                        return None;
                    }
                    wmma_shape(&a, &b, c[count - 1])
                },
                _ => None,
            }
        },
        _ => find_dims(graph, id),
    }
}

fn take_out(graph: &mut Graph, id: usize) -> (new: Option<usize>)
    requires
        old(graph).wf(),
        id < old(graph)@.len(),
        old(graph)@[id as int].op is Index,
    ensures
        made(old(graph)@, *final(graph), taken_out(old(graph)@, id), new),
{
    let ghost dag = graph@;
    proof {
        lemma_arity(dag, id);
    }
    let count: usize = graph.source_count(id);
    if count < 2 {
        return None;
    }
    let stack: usize = graph.source(id, 0);
    match graph.op(stack) {
        Op::Stack => {},
        _ => {
            return None;
        },
    }
    let at: usize = match size_at(graph, graph.source(id, 1)) {
        Some(at) => at,
        None => {
            return None;
        },
    };
    if at >= graph.source_count(stack) {
        return None;
    }
    let one: usize = graph.source(stack, at);
    if count == 2 {
        return Some(one);
    }
    let dtype = graph.dtype(id);
    let mut list: Vec<usize> = Vec::new();
    list.push(one);
    let mut k: usize = 2;
    while k < count
        invariant
            graph.wf(),
            graph@ == dag,
            id < dag.len(),
            one < dag.len(),
            count == dag[id as int].srcs.len(),
            2 <= k <= count,
            list@ == seq![one] + dag[id as int].srcs.skip(2).take(k - 2),
            forall|j: int| 0 <= j < list@.len() ==> (#[trigger] list@[j]) < dag.len(),
        decreases count - k,
    {
        list.push(graph.source(id, k));
        k += 1;
        assert(list@ =~= seq![one] + dag[id as int].srcs.skip(2).take(k - 2));
    }
    assert(list@ =~= seq![one] + dag[id as int].srcs.skip(2));
    let new: usize = graph.node(Op::Index, dtype, list.as_slice());
    proof {
        lemma_interned_keeps(dag, with_srcs(dag[id as int], list@));
    }
    Some(new)
}

fn spread(graph: &mut Graph, id: usize) -> (new: Option<usize>)
    requires
        old(graph).wf(),
        id < old(graph)@.len(),
        old(graph)@[id as int].op is Index,
    ensures
        made(old(graph)@, *final(graph), spread_out(old(graph)@, id), new),
{
    let ghost dag = graph@;
    proof {
        lemma_arity(dag, id);
    }
    if graph.source_count(id) != 2 {
        return None;
    }
    let from: usize = graph.source(id, 0);
    let stack: usize = graph.source(id, 1);
    if matches!(graph.op(from), Op::Stack) || !matches!(graph.op(stack), Op::Stack) {
        return None;
    }
    let lanes = sources(graph, stack);
    if lanes.len() == 0 {
        return None;
    }
    let dtype = graph.dtype(id);
    let mut list: Vec<usize> = Vec::new();
    let mut k: usize = 0;
    while k < lanes.len()
        invariant
            graph.wf(),
            dag_wf(dag),
            extends(dag, graph@),
            from < dag.len(),
            stack < dag.len(),
            lanes@ == dag[stack as int].srcs,
            forall|j: int| 0 <= j < lanes@.len() ==> (#[trigger] lanes@[j]) < stack,
            k <= lanes@.len(),
            accesses_of(dag, dtype, from, lanes@, k as nat) == (graph@, list@),
            forall|j: int| 0 <= j < list@.len() ==> (#[trigger] list@[j]) < graph@.len(),
        decreases lanes@.len() - k,
    {
        assert(lanes@[k as int] < stack);
        let one: usize = graph.binary(Op::Index, dtype, from, lanes[k]);
        list.push(one);
        k += 1;
    }
    let new: usize = graph.node(Op::Stack, dtype, list.as_slice());
    Some(new)
}

fn put_copies(graph: &mut Graph, dtype: DType, value: usize, count: usize) -> (id: usize)
    requires
        old(graph).wf(),
        value < old(graph)@.len(),
    ensures
        grown(old(graph)@, *final(graph), copies(old(graph)@, dtype, value, count as nat), id),
{
    let ghost dag = graph@;
    let mut list: Vec<usize> = Vec::new();
    let mut k: usize = 0;
    while k < count
        invariant
            k <= count,
            list@ == Seq::new(k as nat, |j: int| value),
        decreases count - k,
    {
        list.push(value);
        k += 1;
        assert(list@ =~= Seq::new(k as nat, |j: int| value));
    }
    let id: usize = graph.node(Op::Stack, dtype, list.as_slice());
    proof {
        lemma_interned_keeps(dag, NodeView { op: Op::Stack, dtype, srcs: list@ });
    }
    id
}

fn is_tail(to: &Vec<usize>, rest: &Vec<usize>) -> (r: bool)
    requires
        to@.len() > 0,
    ensures
        r == (rest@ == to@.skip(1)),
{
    if rest.len() != to.len() - 1 {
        return false;
    }
    let mut k: usize = 0;
    while k < rest.len()
        invariant
            rest@.len() == to@.len() - 1,
            k <= rest@.len(),
            forall|j: int| 0 <= j < k ==> rest@[j] == to@.skip(1)[j],
        decreases rest@.len() - k,
    {
        if rest[k] != to[k + 1] {
            assert(rest@[k as int] != to@.skip(1)[k as int]);
            return false;
        }
        k += 1;
    }
    assert(rest@ =~= to@.skip(1));
    true
}

fn repeat_view(graph: &mut Graph, id: usize) -> (new: Option<usize>)
    requires
        old(graph).wf(),
        id < old(graph)@.len(),
        old(graph)@[id as int].op is Expand,
    ensures
        made(old(graph)@, *final(graph), repeated_view(old(graph)@, id), new),
{
    proof {
        lemma_arity(graph@, id);
    }
    let value: usize = graph.source(id, 0);
    let to = match shape_at(graph, graph.source(id, 1)) {
        Some(to) => to,
        None => {
            return None;
        },
    };
    if to.len() == 0 || to[0] == 0 {
        return None;
    }
    let dtype = graph.dtype(id);
    let whole = match find_lanes(graph, value) {
        Some(rest) => is_tail(&to, &rest),
        None => false,
    };
    if whole {
        return Some(put_copies(graph, dtype, value, to[0]));
    }
    match graph.op(value) {
        Op::Stack => {},
        _ => {
            return None;
        },
    }
    if graph.source_count(value) != 1 {
        return None;
    }
    let one: usize = graph.source(value, 0);
    let single = match find_lanes(graph, one) {
        Some(rest) => is_tail(&to, &rest),
        None => false,
    };
    if single {
        Some(put_copies(graph, dtype, one, to[0]))
    } else {
        None
    }
}

fn unshape(graph: &mut Graph, id: usize) -> (new: Option<usize>)
    requires
        old(graph).wf(),
        id < old(graph)@.len(),
        old(graph)@[id as int].op is Reshape,
    ensures
        made(old(graph)@, *final(graph), unshaped_view(old(graph)@, id), new),
{
    let ghost dag = graph@;
    proof {
        lemma_arity(dag, id);
    }
    let value: usize = graph.source(id, 0);
    let shape: usize = graph.source(id, 1);
    let dtype = graph.dtype(id);
    let to = match shape_at(graph, shape) {
        Some(to) => to,
        None => {
            return None;
        },
    };
    let from = match find_lanes(graph, value) {
        Some(from) => from,
        None => {
            return None;
        },
    };
    if same_list(&to, &from) {
        return Some(value);
    }
    match graph.op(value) {
        Op::Reshape => {
            proof {
                lemma_arity(dag, value);
            }
            let inner: usize = graph.source(value, 0);
            let new: usize = graph.binary(Op::Reshape, dtype, inner, shape);
            proof {
                assert(with_srcs(dag[id as int], seq![inner, shape]).srcs =~= seq![inner, shape]);
            }
            return Some(new);
        },
        _ => {},
    }
    if from.len() > 0 && from[0] == 1 && is_tail(&from, &to) {
        assert(from@ =~= seq![1usize] + to@);
        let zero: usize = graph.index_const(0);
        return Some(graph.binary(Op::Index, dtype, value, zero));
    }
    assert(from@ != seq![1usize] + to@) by {
        if from@ == seq![1usize] + to@ {
            assert(from@.skip(1) =~= to@);
        }
    }
    if to.len() > 0 && to[0] == 1 && is_tail(&to, &from) {
        assert(to@ =~= seq![1usize] + from@);
        Some(put_copies(graph, dtype, value, 1))
    } else {
        assert(to@ != seq![1usize] + from@) by {
            if to@ == seq![1usize] + from@ {
                assert(to@.skip(1) =~= from@);
            }
        }
        None
    }
}

fn are_in_place(axes: &Vec<usize>) -> (r: bool)
    ensures
        r == in_place(axes@),
{
    let mut k: usize = 0;
    while k < axes.len()
        invariant
            k <= axes@.len(),
            forall|j: int| 0 <= j < k ==> (#[trigger] axes@[j]) == j,
        decreases axes@.len() - k,
    {
        if axes[k] != k {
            return false;
        }
        k += 1;
    }
    true
}

/// Takes a view or an access of lanes apart, if it can be.
pub fn take_apart(graph: &mut Graph, id: usize) -> (new: Option<usize>)
    requires
        old(graph).wf(),
        id < old(graph)@.len(),
    ensures
        made(old(graph)@, *final(graph), lane_rule(old(graph)@, id), new),
{
    proof {
        lemma_arity(graph@, id);
    }
    let op = graph.op(id);
    if moves(op) && graph.dtype(id) == DType::Void {
        return Some(graph.source(id, 0));
    }
    match op {
        Op::Index => match take_out(graph, id) {
            Some(new) => Some(new),
            None => spread(graph, id),
        },
        Op::Expand => repeat_view(graph, id),
        Op::Reshape => unshape(graph, id),
        Op::Permute => match sizes_from(graph, id, 1) {
            Some(axes) => if are_in_place(&axes) {
                Some(graph.source(id, 0))
            } else {
                None
            },
            None => None,
        },
        _ => None,
    }
}

pub(crate) proof fn lemma_sizes_extend(dag: Seq<NodeView>, more: Seq<NodeView>, ids: Seq<usize>, n: nat)
    requires
        extends(dag, more),
        n <= ids.len(),
        forall|k: int| 0 <= k < ids.len() ==> (#[trigger] ids[k]) < dag.len(),
    ensures
        sizes_of(more, ids, n) == sizes_of(dag, ids, n),
    decreases n,
{
    if n > 0 {
        lemma_sizes_extend(dag, more, ids, (n - 1) as nat);
        assert(ids[n - 1] < dag.len());
        assert(more[ids[n - 1] as int] == dag[ids[n - 1] as int]);
    }
}

pub(crate) proof fn lemma_shape_extends(dag: Seq<NodeView>, more: Seq<NodeView>, id: usize)
    requires
        dag_wf(dag),
        extends(dag, more),
        id < dag.len(),
    ensures
        shape_of(more, id) == shape_of(dag, id),
{
    assert(more[id as int] == dag[id as int]);
    let srcs = dag[id as int].srcs;
    assert forall|k: int| 0 <= k < srcs.len() implies (#[trigger] srcs[k]) < dag.len() by {
        assert(dag[id as int].srcs[k] < id);
    }
    lemma_sizes_extend(dag, more, srcs, srcs.len());
}

pub(crate) proof fn lemma_dims_extend(dag: Seq<NodeView>, more: Seq<NodeView>, id: usize)
    requires
        dag_wf(dag),
        extends(dag, more),
        id < dag.len(),
    ensures
        dims(more, id) == dims(dag, id),
    decreases id,
{
    let node = dag[id as int];
    assert(more[id as int] == node);
    lemma_arity(dag, id);
    assert forall|k: int| 0 <= k < node.srcs.len() implies (#[trigger] node.srcs[k]) < id
        && node.srcs[k] < dag.len() by {
        assert(dag[id as int].srcs[k] < id);
    }
    if node.srcs.len() > 0 {
        lemma_dims_extend(dag, more, node.srcs[0]);
        lemma_shape_extends(dag, more, node.srcs[0]);
        let rest = node.srcs.skip(1);
        assert forall|k: int| 0 <= k < rest.len() implies (#[trigger] rest[k]) < dag.len() by {
            assert(rest[k] == node.srcs[k + 1]);
        }
        lemma_sizes_extend(dag, more, rest, rest.len());
    }
    if node.srcs.len() > 1 {
        lemma_dims_extend(dag, more, node.srcs[1]);
        lemma_shape_extends(dag, more, node.srcs[1]);
    }
    if node.srcs.len() > 2 {
        lemma_shape_extends(dag, more, node.srcs[2]);
    }
}

pub(crate) proof fn lemma_lane_dims_extend(dag: Seq<NodeView>, more: Seq<NodeView>, id: usize)
    requires
        dag_wf(dag),
        extends(dag, more),
        id < dag.len(),
    ensures
        lane_dims(more, id) == lane_dims(dag, id),
    decreases id,
{
    let node = dag[id as int];
    assert(more[id as int] == node);
    lemma_dims_extend(dag, more, id);
    if node.op is Stack && node.srcs.len() > 0 && node.srcs[0] < id {
        lemma_lane_dims_extend(dag, more, node.srcs[0]);
    }
    if node.op is Wmma && node.srcs.len() >= 3 && node.srcs[0] < id && node.srcs[1] < id
        && node.srcs[2] < id {
        lemma_lane_dims_extend(dag, more, node.srcs[0]);
        lemma_lane_dims_extend(dag, more, node.srcs[1]);
        lemma_lane_dims_extend(dag, more, node.srcs[2]);
    }
}

proof fn lemma_picked_extends(
    dag: Seq<NodeView>,
    more: Seq<NodeView>,
    srcs: Seq<usize>,
    index: Seq<usize>,
)
    requires
        dag_wf(dag),
        extends(dag, more),
        srcs.len() > 0,
        forall|k: int| 0 <= k < srcs.len() ==> (#[trigger] srcs[k]) < dag.len(),
    ensures
        picked_index(more, srcs, index) == picked_index(dag, srcs, index),
{
    let rest = srcs.skip(1);
    assert forall|k: int| 0 <= k < rest.len() implies (#[trigger] rest[k]) < dag.len() by {
        assert(rest[k] == srcs[k + 1]);
    }
    lemma_sizes_extend(dag, more, rest, rest.len());
    if srcs.len() == 2 {
        assert(srcs[1] < dag.len());
        assert(more[srcs[1] as int] == dag[srcs[1] as int]);
        let lanes = dag[srcs[1] as int].srcs;
        if index.len() > 0 && index[0] < lanes.len() {
            assert(dag[srcs[1] as int].srcs[index[0] as int] < srcs[1]);
            assert(more[lanes[index[0] as int] as int] == dag[lanes[index[0] as int] as int]);
        }
    }
}

proof fn lemma_viewed_extends(
    dag: Seq<NodeView>,
    more: Seq<NodeView>,
    id: usize,
    index: Seq<usize>,
)
    requires
        dag_wf(dag),
        extends(dag, more),
        id < dag.len(),
        is_movement(dag[id as int].op),
    ensures
        viewed_index(more, dag[id as int], index) == viewed_index(dag, dag[id as int], index),
{
    let node = dag[id as int];
    lemma_arity(dag, id);
    assert(dag[id as int].srcs[0] < id);
    lemma_lane_dims_extend(dag, more, node.srcs[0]);
    if node.srcs.len() > 1 {
        assert(dag[id as int].srcs[1] < id);
        lemma_shape_extends(dag, more, node.srcs[1]);
    }
    let rest = node.srcs.skip(1);
    assert forall|k: int| 0 <= k < rest.len() implies (#[trigger] rest[k]) < dag.len() by {
        assert(rest[k] == node.srcs[k + 1]);
        assert(dag[id as int].srcs[k + 1] < id);
    }
    lemma_sizes_extend(dag, more, rest, rest.len());
}

/// A graph that grows keeps the elements of its values.
pub proof fn lemma_element_extends(
    dag: Seq<NodeView>,
    more: Seq<NodeView>,
    id: usize,
    index: Seq<usize>,
)
    requires
        dag_wf(dag),
        extends(dag, more),
        id < dag.len(),
    ensures
        element(more, id, index) == element(dag, id, index),
    decreases id,
{
    let node = dag[id as int];
    assert(more[id as int] == node);
    lemma_arity(dag, id);
    assert forall|k: int| 0 <= k < node.srcs.len() implies (#[trigger] node.srcs[k]) < id
        && node.srcs[k] < dag.len() by {
        assert(dag[id as int].srcs[k] < id);
    }
    if node.op is Stack && index.len() > 0 && index[0] < node.srcs.len() {
        lemma_element_extends(dag, more, node.srcs[index[0] as int], index.skip(1));
    } else if node.op is Index {
        lemma_picked_extends(dag, more, node.srcs, index);
        match picked_index(dag, node.srcs, index) {
            Some(at) => {
                lemma_element_extends(dag, more, node.srcs[0], at);
            },
            None => {},
        }
    } else if is_movement(node.op) {
        lemma_viewed_extends(dag, more, id, index);
        match viewed_index(dag, node, index) {
            Some(at) => {
                lemma_element_extends(dag, more, node.srcs[0], at);
            },
            None => {},
        }
    }
}

/// Whether an index is one of the elements of a view or an access whose places
/// are constants.
pub open spec fn is_traced(dag: Seq<NodeView>, id: usize, index: Seq<usize>) -> bool {
    let node = dag[id as int];
    match node.op {
        Op::Index => if node.srcs.len() == 2 && dag[node.srcs[1] as int].op is Stack {
            let lanes = dag[node.srcs[1] as int].srcs;
            &&& index.len() > 0
            &&& index[0] < lanes.len()
            &&& size_of(dag, lanes[index[0] as int]) is Some
        } else {
            sizes_of(dag, node.srcs.skip(1), (node.srcs.len() - 1) as nat) is Some
        },
        Op::Reshape => match (shape_of(dag, node.srcs[1]), lane_dims(dag, node.srcs[0])) {
            (Some(to), Some(from)) => {
                &&& is_inside(to, index)
                &&& volume(to, to.len()) == volume(from, from.len())
                &&& dag[node.srcs[0] as int].op is Reshape ==> lane_dims(
                    dag,
                    dag[node.srcs[0] as int].srcs[0],
                ) is Some
            },
            _ => false,
        },
        Op::Expand => match shape_of(dag, node.srcs[1]) {
            Some(to) => is_inside(to, index),
            None => false,
        },
        Op::Permute => match lane_dims(dag, node.srcs[0]) {
            Some(from) => from.len() == index.len() && node.srcs.len() == from.len() + 1,
            None => false,
        },
        _ => true,
    }
}

proof fn lemma_sizes_skip(dag: Seq<NodeView>, ids: Seq<usize>, n: nat)
    requires
        ids.len() > 0,
        0 < n <= ids.len(),
        sizes_of(dag, ids, n) is Some,
    ensures
        size_of(dag, ids[0]) is Some,
        sizes_of(dag, ids.skip(1), (n - 1) as nat) is Some,
        sizes_of(dag, ids, n)->0 == seq![size_of(dag, ids[0])->0] + sizes_of(
            dag,
            ids.skip(1),
            (n - 1) as nat,
        )->0,
    decreases n,
{
    if n == 1 {
        assert(sizes_of(dag, ids, 0) == Some(Seq::<usize>::empty()));
        assert(sizes_of(dag, ids, 1)->0 =~= seq![size_of(dag, ids[0])->0]);
        assert(sizes_of(dag, ids, n)->0 =~= seq![size_of(dag, ids[0])->0] + sizes_of(
            dag,
            ids.skip(1),
            0,
        )->0);
    } else {
        lemma_sizes_skip(dag, ids, (n - 1) as nat);
        assert(ids.skip(1)[n - 2] == ids[n - 1]);
        assert(sizes_of(dag, ids, n)->0 =~= seq![size_of(dag, ids[0])->0] + sizes_of(
            dag,
            ids.skip(1),
            (n - 1) as nat,
        )->0);
    }
}

proof fn lemma_taken_out(dag: Seq<NodeView>, id: usize, index: Seq<usize>)
    requires
        dag_wf(dag),
        id < dag.len(),
        taken_out(dag, id) is Some,
        taken_out(dag, id)->0.dag.len() <= usize::MAX,
        is_traced(dag, id, index),
    ensures
        element(taken_out(dag, id)->0.dag, taken_out(dag, id)->0.id, index) == element(
            dag,
            id,
            index,
        ),
{
    let node = dag[id as int];
    assert(dag[id as int].srcs[0] < id);
    assert(dag[id as int].srcs[1] < id);
    let stack = node.srcs[0];
    let places = node.srcs.skip(1);
    let n = places.len();
    lemma_sizes_skip(dag, places, n);
    let at = size_of(dag, node.srcs[1])->0;
    let one = dag[stack as int].srcs[at as int];
    assert(dag[stack as int].srcs[at as int] < stack);
    assert(places[0] == node.srcs[1]);
    let rest = sizes_of(dag, places.skip(1), (n - 1) as nat)->0;
    let whole = sizes_of(dag, places, n)->0 + index;
    assert(element(dag, id, index) == element(dag, stack, whole));
    assert(whole[0] == at);
    assert(whole.skip(1) =~= rest + index);
    assert(element(dag, stack, whole) == element(dag, one, rest + index));
    if node.srcs.len() == 2 {
        assert(rest =~= Seq::<usize>::empty());
        assert(rest + index =~= index);
    } else {
        let new = with_srcs(node, seq![one] + node.srcs.skip(2));
        let built = put(dag, new);
        lemma_interned_keeps(dag, new);
        assert forall|k: int| 0 <= k < new.srcs.len() implies (#[trigger] new.srcs[k]) < dag.len() by {
            if k > 0 {
                assert(new.srcs[k] == node.srcs[k + 1]);
                assert(dag[id as int].srcs[k + 1] < id);
            }
        }
        lemma_interned_wf(dag, new);
        lemma_put(dag, new);
        assert(new.srcs.skip(1) =~= places.skip(1));
        assert forall|k: int| 0 <= k < places.skip(1).len() implies (#[trigger] places.skip(1)[k])
            < dag.len() by {
            assert(places.skip(1)[k] == node.srcs[k + 2]);
            assert(dag[id as int].srcs[k + 2] < id);
        }
        lemma_sizes_extend(dag, built.dag, places.skip(1), (n - 1) as nat);
        lemma_element_extends(dag, built.dag, one, rest + index);
        assert(built.dag[built.id as int].srcs[0] < built.id);
        if new.srcs.len() == 2 {
            lemma_sizes_skip(dag, places.skip(1), (n - 1) as nat);
            assert(new.srcs[1] == places.skip(1)[0]);
            assert(built.dag[new.srcs[1] as int] == dag[new.srcs[1] as int]);
            assert(!(dag[new.srcs[1] as int].op is Stack));
        }
        assert(picked_index(built.dag, new.srcs, index) == Some(rest + index));
    }
}

proof fn lemma_accesses_grow(
    dag: Seq<NodeView>,
    dtype: DType,
    from: usize,
    lanes: Seq<usize>,
    n: nat,
)
    ensures
        extends(dag, accesses_of(dag, dtype, from, lanes, n).0),
        accesses_of(dag, dtype, from, lanes, n).1.len() == n,
    decreases n,
{
    if n > 0 {
        lemma_accesses_grow(dag, dtype, from, lanes, (n - 1) as nat);
        let (before, _list) = accesses_of(dag, dtype, from, lanes, (n - 1) as nat);
        lemma_interned_keeps(
            before,
            NodeView { op: Op::Index, dtype, srcs: seq![from, lanes[n - 1]] },
        );
    }
}

proof fn lemma_accesses(dag: Seq<NodeView>, dtype: DType, from: usize, lanes: Seq<usize>, n: nat)
    requires
        dag_wf(dag),
        from < dag.len(),
        n <= lanes.len(),
        forall|k: int| 0 <= k < lanes.len() ==> (#[trigger] lanes[k]) < dag.len(),
        accesses_of(dag, dtype, from, lanes, n).0.len() <= usize::MAX,
    ensures
        ({
            let (done, list) = accesses_of(dag, dtype, from, lanes, n);
            &&& dag_wf(done)
            &&& forall|k: int|
                0 <= k < n ==> (#[trigger] list[k]) < done.len() && done[list[k] as int] == (
                NodeView { op: Op::Index, dtype, srcs: seq![from, lanes[k]] })
        }),
    decreases n,
{
    if n > 0 {
        let (before, list) = accesses_of(dag, dtype, from, lanes, (n - 1) as nat);
        let node = NodeView { op: Op::Index, dtype, srcs: seq![from, lanes[n - 1]] };
        lemma_interned_keeps(before, node);
        lemma_accesses_grow(dag, dtype, from, lanes, (n - 1) as nat);
        lemma_accesses(dag, dtype, from, lanes, (n - 1) as nat);
        assert(lanes[n - 1] < dag.len());
        lemma_interned_wf(before, node);
        lemma_put(before, node);
        let (done, all) = accesses_of(dag, dtype, from, lanes, n);
        assert forall|k: int| 0 <= k < n implies (#[trigger] all[k]) < done.len()
            && done[all[k] as int] == (NodeView { op: Op::Index, dtype, srcs: seq![from, lanes[k]] }) by {
            if k < n - 1 {
                assert(all[k] == list[k]);
                assert(before[list[k] as int] == (NodeView {
                    op: Op::Index,
                    dtype,
                    srcs: seq![from, lanes[k]],
                }));
            }
        }
    }
}

proof fn lemma_spread_out(dag: Seq<NodeView>, id: usize, index: Seq<usize>)
    requires
        dag_wf(dag),
        id < dag.len(),
        spread_out(dag, id) is Some,
        spread_out(dag, id)->0.dag.len() <= usize::MAX,
        is_traced(dag, id, index),
    ensures
        element(spread_out(dag, id)->0.dag, spread_out(dag, id)->0.id, index) == element(
            dag,
            id,
            index,
        ),
{
    let node = dag[id as int];
    assert(dag[id as int].srcs[0] < id);
    assert(dag[id as int].srcs[1] < id);
    let from = node.srcs[0];
    let lanes = dag[node.srcs[1] as int].srcs;
    assert forall|k: int| 0 <= k < lanes.len() implies (#[trigger] lanes[k]) < dag.len() by {
        assert(dag[node.srcs[1] as int].srcs[k] < node.srcs[1]);
    }
    let (more, list) = accesses_of(dag, node.dtype, from, lanes, lanes.len());
    let stack = NodeView { op: Op::Stack, dtype: node.dtype, srcs: list };
    let built = put(more, stack);
    lemma_interned_keeps(more, stack);
    lemma_accesses_grow(dag, node.dtype, from, lanes, lanes.len());
    lemma_accesses(dag, node.dtype, from, lanes, lanes.len());
    assert forall|k: int| 0 <= k < stack.srcs.len() implies (#[trigger] stack.srcs[k]) < more.len() by {
        assert(list[k] < more.len());
    }
    lemma_interned_wf(more, stack);
    lemma_put(more, stack);
    let k = index[0] as int;
    let one = list[k];
    assert(list[k] < more.len());
    assert(built.dag[built.id as int].srcs[k] < built.id);
    let access = NodeView { op: Op::Index, dtype: node.dtype, srcs: seq![from, lanes[k]] };
    assert(built.dag[one as int] == access);
    let at = size_of(dag, lanes[k])->0;
    assert(element(dag, id, index) == element(dag, from, seq![at] + index.skip(1)));
    assert(element(built.dag, built.id, index) == element(built.dag, one, index.skip(1)));
    assert(extends(dag, built.dag)) by {
        assert forall|i: int| 0 <= i < dag.len() implies #[trigger] built.dag[i] == dag[i] by {
            assert(more[i] == dag[i]);
        }
    }
    assert(lanes[k] < dag.len());
    assert(built.dag[lanes[k] as int] == dag[lanes[k] as int]);
    assert(access.srcs.skip(1) =~= seq![lanes[k]]);
    let places = access.srcs.skip(1);
    assert(places[0] == lanes[k]);
    assert(sizes_of(built.dag, places, 0) == Some(Seq::<usize>::empty()));
    assert(sizes_of(built.dag, places, 1)->0 =~= seq![at]);
    assert(picked_index(built.dag, access.srcs, index.skip(1)) == Some(seq![at] + index.skip(1)));
    assert(built.dag[one as int].srcs[0] < one);
    lemma_element_extends(dag, built.dag, from, seq![at] + index.skip(1));
}

proof fn lemma_copies(
    dag: Seq<NodeView>,
    dtype: DType,
    value: usize,
    count: nat,
    index: Seq<usize>,
)
    requires
        dag_wf(dag),
        value < dag.len(),
        copies(dag, dtype, value, count).dag.len() <= usize::MAX,
        index.len() > 0,
        index[0] < count,
    ensures
        element(copies(dag, dtype, value, count).dag, copies(dag, dtype, value, count).id, index)
            == element(dag, value, index.skip(1)),
{
    let node = NodeView { op: Op::Stack, dtype, srcs: Seq::new(count, |k: int| value) };
    let built = put(dag, node);
    lemma_interned_keeps(dag, node);
    lemma_interned_wf(dag, node);
    lemma_put(dag, node);
    assert(built.dag[built.id as int].srcs[index[0] as int] < built.id);
    lemma_element_extends(dag, built.dag, value, index.skip(1));
}

proof fn lemma_repeated_view(dag: Seq<NodeView>, id: usize, index: Seq<usize>)
    requires
        dag_wf(dag),
        id < dag.len(),
        repeated_view(dag, id) is Some,
        repeated_view(dag, id)->0.dag.len() <= usize::MAX,
        is_traced(dag, id, index),
    ensures
        element(repeated_view(dag, id)->0.dag, repeated_view(dag, id)->0.id, index) == element(
            dag,
            id,
            index,
        ),
{
    let node = dag[id as int];
    lemma_arity(dag, id);
    assert(dag[id as int].srcs[0] < id);
    let value = node.srcs[0];
    let to = shape_of(dag, node.srcs[1])->0;
    assert(index[0] < to[0]);
    if lane_dims(dag, value) == Some(to.skip(1)) {
        lemma_copies(dag, node.dtype, value, to[0] as nat, index);
        let at = viewed_index(dag, node, index)->0;
        assert(at =~= index.skip(1)) by {
            assert forall|k: int| 0 <= k < at.len() implies at[k] == index.skip(1)[k] by {
                assert(index[k + 1] < to[k + 1]);
                assert(to.skip(1)[k] == to[k + 1]);
            }
        }
    } else {
        let one = dag[value as int].srcs[0];
        assert(dag[value as int].srcs[0] < value);
        lemma_copies(dag, node.dtype, one, to[0] as nat, index);
        let from = lane_dims(dag, value)->0;
        assert(from =~= seq![1usize] + to.skip(1));
        let at = viewed_index(dag, node, index)->0;
        assert(at[0] == 0);
        assert(at.skip(1) =~= index.skip(1)) by {
            assert forall|k: int| 0 <= k < at.skip(1).len() implies at.skip(1)[k]
                == index.skip(1)[k] by {
                assert(index[k + 1] < to[k + 1]);
                assert(from[k + 1] == to[k + 1]);
            }
        }
        assert(element(dag, value, at) == element(dag, one, at.skip(1)));
    }
}

proof fn lemma_leading_one(dims: Seq<usize>, index: Seq<usize>, n: nat)
    requires
        index.len() == dims.len(),
        n <= dims.len(),
    ensures
        offset(seq![1usize] + dims, seq![0usize] + index, (n + 1) as nat) == offset(dims, index, n),
    decreases n,
{
    let wide = seq![1usize] + dims;
    let long = seq![0usize] + index;
    if n == 0 {
        assert(offset(wide, long, 0) == 0);
        assert(wide[0] == 1 && long[0] == 0);
        assert(offset(wide, long, 1) == offset(wide, long, 0) * 1 + 0);
    } else {
        lemma_leading_one(dims, index, (n - 1) as nat);
        assert(wide[n as int] == dims[n - 1]);
        assert(long[n as int] == index[n - 1]);
    }
}

proof fn lemma_offset_below(dims: Seq<usize>, index: Seq<usize>, n: nat)
    requires
        is_inside(dims, index),
        n <= dims.len(),
    ensures
        offset(dims, index, n) < volume(dims, n),
    decreases n,
{
    if n > 0 {
        lemma_offset_below(dims, index, (n - 1) as nat);
        let a = offset(dims, index, (n - 1) as nat) as int;
        let v = volume(dims, (n - 1) as nat) as int;
        let d = dims[n - 1] as int;
        let i = index[n - 1] as int;
        assert(index[n - 1] < dims[n - 1]);
        assert(a * d + i < v * d) by (nonlinear_arith)
            requires
                0 <= a < v,
                0 <= i < d,
        ;
    }
}

proof fn lemma_reshaped_at_once(dag: Seq<NodeView>, id: usize, index: Seq<usize>)
    requires
        dag_wf(dag),
        id < dag.len(),
        dag[id as int].op is Reshape,
        unshaped_view(dag, id) is Some,
        unshaped_view(dag, id)->0.dag.len() <= usize::MAX,
        is_traced(dag, id, index),
        shape_of(dag, dag[id as int].srcs[1]) != lane_dims(dag, dag[id as int].srcs[0]),
        dag[dag[id as int].srcs[0] as int].op is Reshape,
    ensures
        element(unshaped_view(dag, id)->0.dag, unshaped_view(dag, id)->0.id, index) == element(
            dag,
            id,
            index,
        ),
{
    let node = dag[id as int];
    lemma_arity(dag, id);
    assert(dag[id as int].srcs[0] < id);
    assert(dag[id as int].srcs[1] < id);
    let value = node.srcs[0];
    let to = shape_of(dag, node.srcs[1])->0;
    let from = lane_dims(dag, value)->0;
    let at = viewed_index(dag, node, index)->0;
    lemma_arity(dag, value);
    assert(dag[value as int].srcs[0] < value);
    let inner = dag[value as int].srcs[0];
    let base = lane_dims(dag, inner)->0;
    let new = with_srcs(node, seq![inner, node.srcs[1]]);
    let built = put(dag, new);
    lemma_interned_keeps(dag, new);
    lemma_interned_wf(dag, new);
    lemma_put(dag, new);
    assert(built.dag[built.id as int].srcs[0] < built.id);
    lemma_lane_dims_extend(dag, built.dag, inner);
    lemma_shape_extends(dag, built.dag, node.srcs[1]);
    lemma_offset_below(to, index, to.len());
    lemma_digits(from, offset(to, index, to.len()), from.len());
    assert(shape_of(dag, dag[value as int].srcs[1]) == Some(from));
    let middle = viewed_index(dag, dag[value as int], at)->0;
    assert(middle == digits(base, offset(to, index, to.len()), base.len()));
    assert(element(dag, value, at) == element(dag, inner, middle));
    assert(viewed_index(built.dag, new, index) == Some(middle));
    lemma_element_extends(dag, built.dag, inner, middle);
}

proof fn lemma_first_axis_goes(dag: Seq<NodeView>, id: usize, index: Seq<usize>)
    requires
        dag_wf(dag),
        id < dag.len(),
        dag[id as int].op is Reshape,
        unshaped_view(dag, id) is Some,
        unshaped_view(dag, id)->0.dag.len() <= usize::MAX,
        is_traced(dag, id, index),
        !(dag[dag[id as int].srcs[0] as int].op is Reshape),
        shape_of(dag, dag[id as int].srcs[1]) matches Some(to) && lane_dims(
            dag,
            dag[id as int].srcs[0],
        ) == Some(seq![1usize] + to),
    ensures
        element(unshaped_view(dag, id)->0.dag, unshaped_view(dag, id)->0.id, index) == element(
            dag,
            id,
            index,
        ),
{
    let node = dag[id as int];
    lemma_arity(dag, id);
    assert(dag[id as int].srcs[0] < id);
    let value = node.srcs[0];
    let at = viewed_index(dag, node, index)->0;
    let zero_node = extent_node(0);
    let zero = put(dag, zero_node);
    let new = NodeView { op: Op::Index, dtype: node.dtype, srcs: seq![value, zero.id] };
    let built = put(zero.dag, new);
    lemma_interned_keeps(dag, zero_node);
    lemma_interned_keeps(zero.dag, new);
    lemma_interned_wf(dag, zero_node);
    lemma_put(dag, zero_node);
    lemma_interned_wf(zero.dag, new);
    lemma_put(zero.dag, new);
    assert(built.dag[built.id as int].srcs[0] < built.id);
    assert(built.dag[zero.id as int] == zero_node);
    let places = new.srcs.skip(1);
    assert(places.len() == 1 && places[0] == zero.id);
    assert(sizes_of(built.dag, places, 0) == Some(Seq::<usize>::empty()));
    assert(sizes_of(built.dag, places, 1)->0 =~= seq![0usize]);
    let to = shape_of(dag, node.srcs[1])->0;
    let from = seq![1usize] + to;
    let long = seq![0usize] + index;
    assert(from.len() == to.len() + 1);
    assert(from != to);
    lemma_leading_one(to, index, to.len());
    assert(is_inside(from, long)) by {
        assert forall|k: int| 0 <= k < from.len() implies (#[trigger] long[k]) < from[k] by {
            if k > 0 {
                assert(index[k - 1] < to[k - 1]);
            }
        }
    }
    lemma_digits_of_offset(from, long, from.len());
    assert(long.take(from.len() as int) =~= long);
    assert(at == long);
    assert(picked_index(built.dag, new.srcs, index) == Some(long));
    lemma_element_extends(dag, built.dag, value, at);
}

proof fn lemma_first_axis_comes(dag: Seq<NodeView>, id: usize, index: Seq<usize>)
    requires
        dag_wf(dag),
        id < dag.len(),
        dag[id as int].op is Reshape,
        unshaped_view(dag, id) is Some,
        unshaped_view(dag, id)->0.dag.len() <= usize::MAX,
        is_traced(dag, id, index),
        !(dag[dag[id as int].srcs[0] as int].op is Reshape),
        lane_dims(dag, dag[id as int].srcs[0]) matches Some(from) && shape_of(
            dag,
            dag[id as int].srcs[1],
        ) == Some(seq![1usize] + from),
    ensures
        element(unshaped_view(dag, id)->0.dag, unshaped_view(dag, id)->0.id, index) == element(
            dag,
            id,
            index,
        ),
{
    let node = dag[id as int];
    lemma_arity(dag, id);
    assert(dag[id as int].srcs[0] < id);
    let value = node.srcs[0];
    let from = lane_dims(dag, value)->0;
    let to = seq![1usize] + from;
    assert(to.len() == from.len() + 1);
    lemma_copies(dag, node.dtype, value, 1, index);
    let rest = index.skip(1);
    assert(index[0] < to[0]);
    assert(index =~= seq![0usize] + rest);
    lemma_leading_one(from, rest, from.len());
    assert(is_inside(from, rest)) by {
        assert forall|k: int| 0 <= k < from.len() implies (#[trigger] rest[k]) < from[k] by {
            assert(index[k + 1] < to[k + 1]);
        }
    }
    lemma_digits_of_offset(from, rest, from.len());
    assert(rest.take(from.len() as int) =~= rest);
}

proof fn lemma_unshaped_view(dag: Seq<NodeView>, id: usize, index: Seq<usize>)
    requires
        dag_wf(dag),
        id < dag.len(),
        dag[id as int].op is Reshape,
        unshaped_view(dag, id) is Some,
        unshaped_view(dag, id)->0.dag.len() <= usize::MAX,
        is_traced(dag, id, index),
    ensures
        element(unshaped_view(dag, id)->0.dag, unshaped_view(dag, id)->0.id, index) == element(
            dag,
            id,
            index,
        ),
{
    let node = dag[id as int];
    lemma_arity(dag, id);
    assert(dag[id as int].srcs[0] < id);
    let value = node.srcs[0];
    let to = shape_of(dag, node.srcs[1])->0;
    let from = lane_dims(dag, value)->0;
    if to == from {
        lemma_digits_of_offset(from, index, from.len());
        assert(index.take(from.len() as int) =~= index);
    } else if dag[value as int].op is Reshape {
        lemma_reshaped_at_once(dag, id, index);
    } else if from == seq![1usize] + to {
        lemma_first_axis_goes(dag, id, index);
    } else {
        lemma_first_axis_comes(dag, id, index);
    }
}

/// Taking a view or an access apart keeps every element.
pub proof fn lemma_same_elements(dag: Seq<NodeView>, id: usize, index: Seq<usize>)
    requires
        dag_wf(dag),
        id < dag.len(),
        dag[id as int].dtype != DType::Void,
        lane_rule(dag, id) is Some,
        lane_rule(dag, id)->0.dag.len() <= usize::MAX,
        is_traced(dag, id, index),
    ensures
        element(lane_rule(dag, id)->0.dag, lane_rule(dag, id)->0.id, index) == element(
            dag,
            id,
            index,
        ),
{
    let node = dag[id as int];
    lemma_arity(dag, id);
    match node.op {
        Op::Index => {
            if taken_out(dag, id) is Some {
                lemma_taken_out(dag, id, index);
            } else {
                lemma_spread_out(dag, id, index);
            }
        },
        Op::Expand => {
            lemma_repeated_view(dag, id, index);
        },
        Op::Reshape => {
            lemma_unshaped_view(dag, id, index);
        },
        _ => {
            assert(dag[id as int].srcs[0] < id);
            let axes = sizes_of(dag, node.srcs.skip(1), (node.srcs.len() - 1) as nat)->0;
            lemma_sizes_len(dag, node.srcs.skip(1), (node.srcs.len() - 1) as nat);
            let at = viewed_index(dag, node, index)->0;
            assert(at =~= index) by {
                assert forall|k: int| 0 <= k < at.len() implies at[k] == index[k] by {
                    assert(axes[k] == k);
                    let j = place_in(axes, k);
                    assert(0 <= j < axes.len() && axes[j] == k);
                }
            }
        },
    }
}

proof fn lemma_sizes_len(dag: Seq<NodeView>, ids: Seq<usize>, n: nat)
    requires
        sizes_of(dag, ids, n) is Some,
    ensures
        sizes_of(dag, ids, n)->0.len() == n,
    decreases n,
{
    if n > 0 {
        lemma_sizes_len(dag, ids, (n - 1) as nat);
    }
}

} // verus!
