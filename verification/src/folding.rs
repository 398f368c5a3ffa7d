//! Staged values that need no storage: constants, values that are read back
//! where they were written, and values that are cheaper to compute again.

use vstd::prelude::*;

use crate::address::{are_small, flat, put_flat, small};
use crate::builders::{put, Built};
use crate::early::always_runs;
use crate::graph::{ConstValue, Graph, NodeView, Op};
use crate::late::made;
use crate::limits::{argument_count, count_arguments};
use crate::local::{find_loop_sizes, loop_sizes};
use crate::meaning::lemma_arity;
use crate::passes::sources;
use crate::reduce::tail;
use crate::shape::same_list;
use crate::subst::{substitute, substituted};

verus! {

/// What a node that only moves a constant around folds to, or a read of a
/// staged value at the loop that it was written with.
pub open spec fn folded(dag: Seq<NodeView>, id: usize) -> Option<usize> {
    let node = dag[id as int];
    match node.op {
        Op::Stage { .. } | Op::Copy => if dag[node.srcs[0] as int].op is Const {
            Some(node.srcs[0])
        } else {
            None
        },
        Op::Index => {
            let source = dag[node.srcs[0] as int];
            if source.op is Const {
                Some(node.srcs[0])
            } else if source.op is MStack && dag[source.srcs[0] as int].op is Const {
                Some(source.srcs[0])
            } else if source.op is Stage && node.srcs.len() == 2 && source.srcs.len() == 2
                && node.srcs[1] == source.srcs[1] {
                Some(source.srcs[0])
            } else {
                None
            }
        },
        _ => None,
    }
}

/// What a node folds to, if it does.
pub fn fold_buffer(graph: &Graph, id: usize) -> (new: Option<usize>)
    requires
        graph.wf(),
        id < graph@.len(),
    ensures
        new == folded(graph@, id),
        new matches Some(n) ==> n < id,
{
    proof {
        lemma_arity(graph@, id);
    }
    match graph.op(id) {
        Op::Stage { .. } | Op::Copy => {
            let source: usize = graph.source(id, 0);
            if matches!(graph.op(source), Op::Const(_)) {
                Some(source)
            } else {
                None
            }
        },
        Op::Index => {
            let source: usize = graph.source(id, 0);
            proof {
                lemma_arity(graph@, source);
            }
            match graph.op(source) {
                Op::Const(_) => Some(source),
                Op::MStack => {
                    let first: usize = graph.source(source, 0);
                    if matches!(graph.op(first), Op::Const(_)) {
                        Some(first)
                    } else {
                        None
                    }
                },
                Op::Stage { .. } => if graph.source_count(id) == 2 && graph.source_count(source) == 2
                    && graph.source(id, 1) == graph.source(source, 1) {
                    Some(graph.source(source, 0))
                } else {
                    None
                },
                _ => None,
            }
        },
        _ => None,
    }
}

/// A read of a staged value at the loops that it was written with, where there
/// are several: the value is read at the row-major offset of the loops.
pub open spec fn relinearized(dag: Seq<NodeView>, id: usize) -> Option<Built> {
    let node = dag[id as int];
    let loops = node.srcs.skip(1);
    if node.op is Index && dag[node.srcs[0] as int].op is Stage && loops.len() > 1
        && dag[node.srcs[0] as int].srcs.skip(1) == loops {
        match loop_sizes(dag, loops, loops.len()) {
            Some(sizes) if are_small(sizes) => {
                let offset = flat(dag, sizes, loops, loops.len());
                Some(
                    put(
                        offset.dag,
                        NodeView {
                            op: Op::Index,
                            dtype: node.dtype,
                            srcs: seq![dag[node.srcs[0] as int].srcs[0], offset.id],
                        },
                    ),
                )
            },
            _ => None,
        }
    } else {
        None
    }
}

/// Reads a value where it was staged over several loops; see `relinearized`.
pub fn relinearize(graph: &mut Graph, id: usize) -> (new: Option<usize>)
    requires
        old(graph).wf(),
        id < old(graph)@.len(),
    ensures
        made(old(graph)@, *final(graph), relinearized(old(graph)@, id), new),
{
    let ghost dag = graph@;
    proof {
        lemma_arity(dag, id);
    }
    match graph.op(id) {
        Op::Index => {},
        _ => {
            return None;
        },
    }
    let list = sources(graph, id);
    let stage: usize = list[0];
    match graph.op(stage) {
        Op::Stage { .. } => {},
        _ => {
            return None;
        },
    }
    proof {
        lemma_arity(dag, stage);
    }
    let loops = tail(&list);
    let own = tail(&sources(graph, stage));
    if loops.len() <= 1 || !same_list(&own, &loops) {
        return None;
    }
    assert forall|i: int| 0 <= i < loops@.len() implies (#[trigger] loops@[i]) < dag.len() by {
        assert(loops@[i] == list@[i + 1]);
    }
    let sizes = match find_loop_sizes(graph, &loops) {
        Some(sizes) => sizes,
        None => {
            return None;
        },
    };
    if !small(&sizes) {
        return None;
    }
    proof {
        lemma_loop_count(dag, loops@, loops@.len());
    }
    let dtype = graph.dtype(id);
    let value: usize = graph.source(stage, 0);
    let offset: usize = put_flat(graph, &sizes, &loops);
    Some(graph.binary(Op::Index, dtype, value, offset))
}

proof fn lemma_loop_count(dag: Seq<NodeView>, loops: Seq<usize>, n: nat)
    requires
        loop_sizes(dag, loops, n) is Some,
    ensures
        loop_sizes(dag, loops, n)->0.len() == n,
    decreases n,
{
    if n > 0 {
        lemma_loop_count(dag, loops, (n - 1) as nat);
    }
}

/// Whether a value holds a reduction that reads storage, this side of what is
/// staged.
pub open spec fn reduces_storage(dag: Seq<NodeView>, id: usize) -> bool
    decreases id,
{
    let node = dag[id as int];
    match node.op {
        Op::Buffer { .. } | Op::Param { .. } | Op::Stage { .. } => false,
        Op::After => node.srcs.len() > 0 && node.srcs[0] < id && reduces_storage(
            dag,
            node.srcs[0],
        ),
        _ => {
            ||| node.op is Reduce && node.srcs.len() > 0 && argument_count(
                dag,
                node.srcs[0],
                dag.len(),
            ) > 0
            ||| exists|k: int|
                0 <= k < node.srcs.len() && (#[trigger] node.srcs[k]) < id && reduces_storage(
                    dag,
                    node.srcs[k],
                )
        },
    }
}

/// The most storages that a value may read to be computed again.
pub const MAX_ACCESSES: usize = 3;

/// Whether a value is computed again rather than staged: nothing else depends
/// on it being run, it reads little, and no reduction in it reads storage.
pub open spec fn is_cheap(dag: Seq<NodeView>, value: usize) -> bool {
    &&& !always_runs(dag[value as int].op)
    &&& argument_count(dag, value, dag.len()) <= MAX_ACCESSES
    &&& !reduces_storage(dag, value)
}

/// The loops among the first `n` that a value was staged over and that are read
/// elsewhere, with where they are read. A loop that is read nowhere stays.
pub open spec fn read_pairs(
    dag: Seq<NodeView>,
    loops: Seq<usize>,
    indices: Seq<usize>,
    n: nat,
) -> Seq<(usize, usize)>
    decreases n,
{
    if n == 0 {
        Seq::empty()
    } else {
        let rest = read_pairs(dag, loops, indices, (n - 1) as nat);
        if dag[loops[n - 1] as int].op is Range && dag[indices[n - 1] as int].op != Op::Const(
            ConstValue::Invalid,
        ) {
            rest.push((loops[n - 1], indices[n - 1]))
        } else {
            rest
        }
    }
}

/// Whether a read of a staged value has an index for each of its loops.
pub open spec fn is_staged_read(dag: Seq<NodeView>, id: usize) -> bool {
    let node = dag[id as int];
    &&& node.op is Index
    &&& dag[node.srcs[0] as int].op is Stage
    &&& dag[node.srcs[0] as int].srcs.len() == node.srcs.len()
}

/// A read of a staged value as the value itself, at the place that is read.
pub open spec fn inlined(dag: Seq<NodeView>, id: usize) -> Option<Built> {
    let node = dag[id as int];
    if is_staged_read(dag, id) && !(dag[node.srcs[0] as int].op matches Op::Stage {
        removable: false,
        ..
    }) && is_cheap(dag, dag[node.srcs[0] as int].srcs[0]) {
        let stage = dag[node.srcs[0] as int];
        let loops = stage.srcs.skip(1);
        let pairs = read_pairs(dag, loops, node.srcs.skip(1), loops.len());
        Some(substituted(dag, stage.srcs[0], pairs))
    } else {
        None
    }
}

/// Whether a node does nothing: it stores what already stands there, or closes
/// loops around nothing.
pub open spec fn does_nothing(dag: Seq<NodeView>, id: usize) -> bool {
    let node = dag[id as int];
    ||| node.op is Store && node.srcs[0] == node.srcs[1]
    ||| node.op is End && dag[node.srcs[0] as int].op is Noop
}

/// Whether a node does nothing.
pub fn is_noop(graph: &Graph, id: usize) -> (r: bool)
    requires
        graph.wf(),
        id < graph@.len(),
    ensures
        r == does_nothing(graph@, id),
{
    proof {
        lemma_arity(graph@, id);
    }
    match graph.op(id) {
        Op::Store => graph.source(id, 0) == graph.source(id, 1),
        Op::End => {
            let inner: usize = graph.source(id, 0);
            matches!(graph.op(inner), Op::Noop)
        },
        _ => false,
    }
}

fn find_reduces_storage(graph: &Graph, id: usize) -> (r: bool)
    requires
        graph.wf(),
        id < graph@.len(),
    ensures
        r == reduces_storage(graph@, id),
    decreases id,
{
    proof {
        lemma_arity(graph@, id);
    }
    match graph.op(id) {
        Op::Buffer { .. } | Op::Param { .. } | Op::Stage { .. } => false,
        Op::After => {
            let source: usize = graph.source(id, 0);
            find_reduces_storage(graph, source)
        },
        op => {
            if matches!(op, Op::Reduce(_)) {
                let body: usize = graph.source(id, 0);
                if count_arguments(graph, body) > 0 {
                    return true;
                }
            }
            let count: usize = graph.source_count(id);
            let mut k: usize = 0;
            while k < count
                invariant
                    graph.wf(),
                    id < graph@.len(),
                    count == graph@[id as int].srcs.len(),
                    k <= count,
                    forall|j: int|
                        0 <= j < k ==> (#[trigger] graph@[id as int].srcs[j]) < id
                            && !reduces_storage(graph@, graph@[id as int].srcs[j]),
                    op == graph@[id as int].op,
                    !(op is Buffer) && !(op is Param) && !(op is Stage) && !(op is After),
                decreases count - k,
            {
                let source: usize = graph.source(id, k);
                if find_reduces_storage(graph, source) {
                    assert(graph@[id as int].srcs[k as int] < id && reduces_storage(
                        graph@,
                        graph@[id as int].srcs[k as int],
                    ));
                    return true;
                }
                k += 1;
            }
            false
        },
    }
}

fn cheap(graph: &Graph, value: usize) -> (r: bool)
    requires
        graph.wf(),
        value < graph@.len(),
    ensures
        r == is_cheap(graph@, value),
{
    !matches!(graph.op(value), Op::Copy | Op::Contiguous | Op::Noop | Op::After)
        && count_arguments(graph, value) <= MAX_ACCESSES && !find_reduces_storage(graph, value)
}

/// Computes a staged value again where it is read, if that is cheap.
pub fn remove_bufferize(graph: &mut Graph, id: usize) -> (new: Option<usize>)
    requires
        old(graph).wf(),
        id < old(graph)@.len(),
    ensures
        made(old(graph)@, *final(graph), inlined(old(graph)@, id), new),
{
    proof {
        lemma_arity(graph@, id);
    }
    match graph.op(id) {
        Op::Index => {},
        _ => {
            return None;
        },
    }
    let ghost dag = graph@;
    let stage: usize = graph.source(id, 0);
    match graph.op(stage) {
        Op::Stage { removable: true, .. } => {},
        _ => {
            return None;
        },
    }
    proof {
        lemma_arity(graph@, stage);
    }
    let count: usize = graph.source_count(id);
    if graph.source_count(stage) != count {
        return None;
    }
    let value: usize = graph.source(stage, 0);
    if !cheap(graph, value) {
        return None;
    }
    let ghost loops = dag[stage as int].srcs.skip(1);
    let ghost indices = dag[id as int].srcs.skip(1);
    let mut pairs: Vec<(usize, usize)> = Vec::new();
    let mut k: usize = 1;
    while k < count
        invariant
            graph.wf(),
            graph@ == dag,
            id < dag.len(),
            stage < dag.len(),
            count == dag[id as int].srcs.len(),
            count == dag[stage as int].srcs.len(),
            1 <= k <= count,
            loops == dag[stage as int].srcs.skip(1),
            indices == dag[id as int].srcs.skip(1),
            pairs@ == read_pairs(dag, loops, indices, (k - 1) as nat),
            forall|i: int| 0 <= i < pairs@.len() ==> (#[trigger] pairs@[i]).1 < dag.len(),
        decreases count - k,
    {
        let range: usize = graph.source(stage, k);
        let index: usize = graph.source(id, k);
        assert(loops[k - 1] == range && indices[k - 1] == index);
        if matches!(graph.op(range), Op::Range { .. }) && !matches!(
            graph.op(index),
            Op::Const(ConstValue::Invalid)
        ) {
            pairs.push((range, index));
        }
        k += 1;
    }
    Some(substitute(graph, value, &pairs))
}

} // verus!
