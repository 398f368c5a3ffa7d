//! The shapes of values, as far as they are constants.

use vstd::prelude::*;

use crate::graph::{ConstValue, Graph, NodeView, Op};
use crate::meaning::lemma_arity;

verus! {

/// The number that a constant node holds, where it can be a size.
pub open spec fn size_of(dag: Seq<NodeView>, id: usize) -> Option<usize> {
    match dag[id as int].op {
        Op::Const(ConstValue::Int(n)) => if 0 <= n <= usize::MAX {
            Some(n as usize)
        } else {
            None
        },
        _ => None,
    }
}

/// The sizes that the first `n` nodes hold, if all of them do.
pub open spec fn sizes_of(dag: Seq<NodeView>, ids: Seq<usize>, n: nat) -> Option<Seq<usize>>
    decreases n,
{
    if n == 0 {
        Some(Seq::empty())
    } else {
        match (sizes_of(dag, ids, (n - 1) as nat), size_of(dag, ids[n - 1])) {
            (Some(rest), Some(size)) => Some(rest.push(size)),
            _ => None,
        }
    }
}

/// The shape that a node holds: one size, or a stack of them.
pub open spec fn shape_of(dag: Seq<NodeView>, id: usize) -> Option<Seq<usize>> {
    let node = dag[id as int];
    if node.op is Stack {
        sizes_of(dag, node.srcs, node.srcs.len())
    } else {
        match size_of(dag, id) {
            Some(size) => Some(seq![size]),
            None => None,
        }
    }
}

/// A shape with its axes in another order, if every axis named is one of them.
pub open spec fn permuted(dims: Seq<usize>, axes: Seq<usize>) -> Option<Seq<usize>> {
    if axes.len() == dims.len() && forall|k: int|
        0 <= k < axes.len() ==> (#[trigger] axes[k]) < dims.len() {
        Some(Seq::new(axes.len(), |k: int| dims[axes[k] as int]))
    } else {
        None
    }
}

/// A shape with elements put before and behind, if it has as many axes as they
/// are given for and its sizes are sizes still.
pub open spec fn padded_sizes(dims: Seq<usize>, begin: Seq<usize>, end: Seq<usize>) -> Option<
    Seq<usize>,
> {
    if begin.len() == dims.len() && end.len() == dims.len() && forall|k: int|
        0 <= k < dims.len() ==> (#[trigger] begin[k]) + dims[k] + end[k] <= usize::MAX {
        Some(Seq::new(dims.len(), |k: int| (begin[k] + dims[k] + end[k]) as usize))
    } else {
        None
    }
}

/// Whether a node has the shape of its first source.
pub open spec fn passes_shape(op: Op) -> bool {
    match op {
        Op::Cast
        | Op::BitCast
        | Op::Copy
        | Op::Contiguous
        | Op::MStack
        | Op::MSelect(_)
        | Op::Multi(_)
        | Op::Flip
        | Op::Detach
        | Op::ContiguousBackward
        | Op::Unary(_) => true,
        _ => false,
    }
}

/// The shape of a value, given those of the values before it. Of operands that
/// are combined element by element, one that is not a scalar has the shape.
pub open spec fn next_dims(
    dag: Seq<NodeView>,
    node: NodeView,
    of: spec_fn(usize) -> Option<Seq<usize>>,
) -> Option<Seq<usize>> {
    match node.op {
        Op::Const(_) => Some(Seq::empty()),
        Op::Buffer { size, .. } => Some(seq![size]),
        Op::Param { .. } => if node.srcs.len() == 1 {
            shape_of(dag, node.srcs[0])
        } else {
            None
        },
        Op::Reshape | Op::Expand => shape_of(dag, node.srcs[1]),
        Op::Shrink => shape_of(dag, node.srcs[2]),
        Op::Pad => match (
            of(node.srcs[0]),
            shape_of(dag, node.srcs[1]),
            shape_of(dag, node.srcs[2]),
        ) {
            (Some(dims), Some(begin), Some(end)) => padded_sizes(dims, begin, end),
            _ => None,
        },
        Op::Permute => match (
            of(node.srcs[0]),
            sizes_of(dag, node.srcs.skip(1), (node.srcs.len() - 1) as nat),
        ) {
            (Some(dims), Some(axes)) => permuted(dims, axes),
            _ => None,
        },
        Op::AxisReduce { count, .. } => match of(node.srcs[0]) {
            Some(dims) => if count <= dims.len() {
                Some(dims.skip(count as int))
            } else {
                None
            },
            None => None,
        },
        Op::Binary(_) => match (of(node.srcs[0]), of(node.srcs[1])) {
            (Some(a), Some(b)) => if a.len() > 0 {
                Some(a)
            } else {
                Some(b)
            },
            _ => None,
        },
        _ => if passes_shape(node.op) {
            of(node.srcs[0])
        } else {
            None
        },
    }
}

/// The shape of a value, as far as it is known.
pub open spec fn dims(dag: Seq<NodeView>, id: usize) -> Option<Seq<usize>>
    decreases id,
{
    next_dims(
        dag,
        dag[id as int],
        |src: usize|
            if src < id {
                dims(dag, src)
            } else {
                None
            },
    )
}

/// A shape as it is computed.
pub open spec fn is_shape(found: Option<Vec<usize>>, want: Option<Seq<usize>>) -> bool {
    match found {
        Some(list) => want == Some(list@),
        None => want is None,
    }
}

spec fn table_ok(dag: Seq<NodeView>, table: Seq<Option<Vec<usize>>>) -> bool {
    &&& table.len() <= dag.len()
    &&& forall|i: usize|
        #![trigger table[i as int]]
        i < table.len() ==> is_shape(table[i as int], dims(dag, i))
}

/// The number that a constant node holds, where it can be a size.
pub fn size_at(graph: &Graph, id: usize) -> (size: Option<usize>)
    requires
        id < graph@.len(),
    ensures
        size == size_of(graph@, id),
{
    match graph.op(id) {
        Op::Const(ConstValue::Int(n)) => {
            if n >= 0 && n as u64 <= usize::MAX as u64 {
                Some(n as usize)
            } else {
                None
            }
        },
        _ => None,
    }
}

/// The sizes that a node's sources hold, from `start` on.
pub fn sizes_from(graph: &Graph, id: usize, start: usize) -> (found: Option<Vec<usize>>)
    requires
        graph.wf(),
        id < graph@.len(),
        start <= graph@[id as int].srcs.len(),
    ensures
        is_shape(
            found,
            sizes_of(
                graph@,
                graph@[id as int].srcs.skip(start as int),
                (graph@[id as int].srcs.len() - start) as nat,
            ),
        ),
{
    let ghost ids = graph@[id as int].srcs.skip(start as int);
    let count: usize = graph.source_count(id);
    let mut list: Vec<usize> = Vec::new();
    let mut n: usize = 0;
    while n < count - start
        invariant
            graph.wf(),
            id < graph@.len(),
            count == graph@[id as int].srcs.len(),
            start <= count,
            n <= count - start,
            ids == graph@[id as int].srcs.skip(start as int),
            sizes_of(graph@, ids, n as nat) == Some(list@),
        decreases count - start - n,
    {
        let src: usize = graph.source(id, start + n);
        assert(ids[n as int] == src);
        match size_at(graph, src) {
            Some(size) => {
                list.push(size);
            },
            None => {
                proof {
                    lemma_sizes_missing(graph@, ids, (n + 1) as nat, ids.len());
                }
                return None;
            },
        }
        n += 1;
    }
    Some(list)
}

proof fn lemma_sizes_missing(dag: Seq<NodeView>, ids: Seq<usize>, k: nat, n: nat)
    requires
        k <= n,
        sizes_of(dag, ids, k) is None,
    ensures
        sizes_of(dag, ids, n) is None,
    decreases n,
{
    if k < n {
        lemma_sizes_missing(dag, ids, k, (n - 1) as nat);
    }
}

pub(crate) fn shape_at(graph: &Graph, id: usize) -> (found: Option<Vec<usize>>)
    requires
        graph.wf(),
        id < graph@.len(),
    ensures
        is_shape(found, shape_of(graph@, id)),
{
    match graph.op(id) {
        Op::Stack => {
            assert(graph@[id as int].srcs.skip(0) =~= graph@[id as int].srcs);
            sizes_from(graph, id, 0)
        },
        _ => match size_at(graph, id) {
            Some(size) => {
                let mut list: Vec<usize> = Vec::new();
                list.push(size);
                assert(list@ =~= seq![size]);
                Some(list)
            },
            None => None,
        },
    }
}

/// A list with the same elements.
pub(crate) fn copy_of(list: &Vec<usize>) -> (copy: Vec<usize>)
    ensures
        copy@ == list@,
{
    let mut copy: Vec<usize> = Vec::new();
    let mut k: usize = 0;
    while k < list.len()
        invariant
            k <= list@.len(),
            copy@ == list@.take(k as int),
        decreases list@.len() - k,
    {
        copy.push(list[k]);
        k += 1;
        assert(copy@ =~= list@.take(k as int));
    }
    assert(copy@ =~= list@);
    copy
}

fn permute(dims: &Vec<usize>, axes: &Vec<usize>) -> (found: Option<Vec<usize>>)
    ensures
        is_shape(found, permuted(dims@, axes@)),
{
    if axes.len() != dims.len() {
        return None;
    }
    let mut list: Vec<usize> = Vec::new();
    let mut k: usize = 0;
    while k < axes.len()
        invariant
            axes@.len() == dims@.len(),
            k <= axes@.len(),
            list@.len() == k,
            forall|j: int| 0 <= j < k ==> (#[trigger] axes@[j]) < dims@.len(),
            forall|j: int| 0 <= j < k ==> #[trigger] list@[j] == dims@[axes@[j] as int],
        decreases axes@.len() - k,
    {
        let axis: usize = axes[k];
        if axis >= dims.len() {
            assert(!((axes@[k as int]) < dims@.len()));
            return None;
        }
        list.push(dims[axis]);
        k += 1;
    }
    assert(list@ =~= Seq::new(axes@.len(), |k: int| dims@[axes@[k] as int]));
    Some(list)
}

fn pad_sizes(dims: &Vec<usize>, begin: &Vec<usize>, end: &Vec<usize>) -> (found: Option<Vec<usize>>)
    ensures
        is_shape(found, padded_sizes(dims@, begin@, end@)),
{
    if begin.len() != dims.len() || end.len() != dims.len() {
        return None;
    }
    let mut list: Vec<usize> = Vec::new();
    let mut k: usize = 0;
    while k < dims.len()
        invariant
            begin@.len() == dims@.len(),
            end@.len() == dims@.len(),
            k <= dims@.len(),
            list@.len() == k,
            forall|j: int|
                0 <= j < k ==> (#[trigger] begin@[j]) + dims@[j] + end@[j] <= usize::MAX,
            forall|j: int|
                0 <= j < k ==> #[trigger] list@[j] == begin@[j] + dims@[j] + end@[j],
        decreases dims@.len() - k,
    {
        let sum: u128 = begin[k] as u128 + dims[k] as u128 + end[k] as u128;
        if sum > usize::MAX as u128 {
            assert(!(begin@[k as int] + dims@[k as int] + end@[k as int] <= usize::MAX));
            return None;
        }
        list.push(sum as usize);
        k += 1;
    }
    assert(list@ =~= Seq::new(
        dims@.len(),
        |k: int| (begin@[k] + dims@[k] + end@[k]) as usize,
    ));
    Some(list)
}

fn copy_shape(found: &Option<Vec<usize>>) -> (copy: Option<Vec<usize>>)
    ensures
        match (found, copy) {
            (Some(a), Some(b)) => a@ == b@,
            (None, None) => true,
            _ => false,
        },
{
    match found {
        Some(list) => Some(copy_of(list)),
        None => None,
    }
}

fn compute_dims(graph: &Graph, id: usize, table: &Vec<Option<Vec<usize>>>) -> (found: Option<
    Vec<usize>,
>)
    requires
        graph.wf(),
        id < graph@.len(),
        id <= table@.len(),
        table_ok(graph@, table@),
    ensures
        is_shape(found, dims(graph@, id)),
{
    let ghost dag = graph@;
    proof {
        lemma_arity(dag, id);
    }
    match graph.op(id) {
        Op::Const(_) => {
            let none: Vec<usize> = Vec::new();
            assert(none@ =~= Seq::<usize>::empty());
            Some(none)
        },
        Op::Buffer { size, .. } => {
            let mut list: Vec<usize> = Vec::new();
            list.push(size);
            assert(list@ =~= seq![size]);
            Some(list)
        },
        Op::Param { .. } => {
            if graph.source_count(id) == 1 {
                shape_at(graph, graph.source(id, 0))
            } else {
                None
            }
        },
        Op::Reshape | Op::Expand => shape_at(graph, graph.source(id, 1)),
        Op::Shrink => shape_at(graph, graph.source(id, 2)),
        Op::Pad => {
            let src: usize = graph.source(id, 0);
            let begin = shape_at(graph, graph.source(id, 1));
            let end = shape_at(graph, graph.source(id, 2));
            match (&table[src], &begin, &end) {
                (Some(list), Some(begin), Some(end)) => pad_sizes(list, begin, end),
                _ => None,
            }
        },
        Op::Permute => {
            let src: usize = graph.source(id, 0);
            let axes = sizes_from(graph, id, 1);
            match (&table[src], &axes) {
                (Some(list), Some(axes)) => permute(list, axes),
                _ => None,
            }
        },
        Op::AxisReduce { count, .. } => {
            let src: usize = graph.source(id, 0);
            match &table[src] {
                Some(list) => {
                    if count > list.len() {
                        return None;
                    }
                    let mut rest: Vec<usize> = Vec::new();
                    let mut k: usize = count;
                    while k < list.len()
                        invariant
                            count <= k <= list@.len(),
                            rest@ == list@.subrange(count as int, k as int),
                        decreases list@.len() - k,
                    {
                        rest.push(list[k]);
                        k += 1;
                        assert(rest@ =~= list@.subrange(count as int, k as int));
                    }
                    assert(rest@ =~= list@.skip(count as int));
                    Some(rest)
                },
                None => None,
            }
        },
        Op::Binary(_) => {
            let left: usize = graph.source(id, 0);
            let right: usize = graph.source(id, 1);
            match (&table[left], &table[right]) {
                (Some(a), Some(b)) => {
                    if a.len() > 0 {
                        Some(copy_of(a))
                    } else {
                        Some(copy_of(b))
                    }
                },
                _ => None,
            }
        },
        Op::Cast
        | Op::BitCast
        | Op::Copy
        | Op::Contiguous
        | Op::MStack
        | Op::MSelect(_)
        | Op::Multi(_)
        | Op::Flip
        | Op::Detach
        | Op::ContiguousBackward
        | Op::Unary(_) => {
            let src: usize = graph.source(id, 0);
            copy_shape(&table[src])
        },
        _ => None,
    }
}

/// The shape of a value, as far as it is known; see `dims`.
pub fn find_dims(graph: &Graph, id: usize) -> (found: Option<Vec<usize>>)
    requires
        graph.wf(),
        id < graph@.len(),
    ensures
        is_shape(found, dims(graph@, id)),
{
    let mut table: Vec<Option<Vec<usize>>> = Vec::new();
    let mut at: usize = 0;
    while at < id
        invariant
            graph.wf(),
            at <= id < graph@.len(),
            table@.len() == at,
            table_ok(graph@, table@),
        decreases id - at,
    {
        let found = compute_dims(graph, at, &table);
        table.push(found);
        at += 1;
    }
    compute_dims(graph, id, &table)
}

/// Whether two lists are the same.
pub(crate) fn same_list(a: &Vec<usize>, b: &Vec<usize>) -> (r: bool)
    ensures
        r == (a@ == b@),
{
    if a.len() != b.len() {
        return false;
    }
    let mut k: usize = 0;
    while k < a.len()
        invariant
            a@.len() == b@.len(),
            k <= a@.len(),
            forall|j: int| 0 <= j < k ==> a@[j] == b@[j],
        decreases a@.len() - k,
    {
        if a[k] != b[k] {
            return false;
        }
        k += 1;
    }
    assert(a@ =~= b@);
    true
}

} // verus!
