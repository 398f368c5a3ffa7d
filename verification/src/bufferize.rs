//! Staged values as stores to storage, the storage that a kernel reads, and how
//! many arguments that takes.

use vstd::prelude::*;

use crate::bounds::{bounds, find_bounds};
use crate::builders::{end_node, extent_node, put, Built};
use crate::context::RangeifyBufferContext;
use crate::graph::{dag_wf, AddrSpace, DType, Graph, NodeView, Op};
use crate::meaning::lemma_arity;
use crate::passes::{extends, grown};
use crate::topo::{lemma_topo, topo};

verus! {

/// How many steps a loop takes at most, as far as that is known.
pub open spec fn most_steps(dag: Seq<NodeView>, range: usize) -> Option<usize> {
    match bounds(dag, dag[range as int].srcs[0]) {
        Some((_, high)) if 0 <= high <= usize::MAX => Some(high as usize),
        _ => None,
    }
}

/// A store into new storage: the value goes where the loop stands, or to the
/// only place where there is none, and the storage is read once the loop is
/// through.
pub open spec fn stored(
    dag: Seq<NodeView>,
    value: usize,
    range: Option<usize>,
    slot: usize,
    size: usize,
) -> Built {
    let dtype = dag[value as int].dtype;
    let buffer = put(
        dag,
        NodeView {
            op: Op::Buffer { slot, space: AddrSpace::Global, size },
            dtype,
            srcs: Seq::empty(),
        },
    );
    let place = match range {
        Some(r) => Built { dag: buffer.dag, id: r },
        None => put(buffer.dag, extent_node(0)),
    };
    let index = put(
        place.dag,
        NodeView { op: Op::Index, dtype, srcs: seq![buffer.id, place.id] },
    );
    let store = put(
        index.dag,
        NodeView { op: Op::Store, dtype: DType::Void, srcs: seq![index.id, value] },
    );
    let end = match range {
        Some(r) => put(store.dag, end_node(store.id, seq![r])),
        None => store,
    };
    put(end.dag, NodeView { op: Op::After, dtype, srcs: seq![buffer.id, end.id] })
}

/// Whether a node stores something other than what already stands there.
pub open spec fn is_proper_store(dag: Seq<NodeView>, id: usize) -> bool {
    dag[id as int].op is Store && dag[id as int].srcs[1] != dag[id as int].srcs[0]
}

/// The stores among the sources of a node from the second to the `n`-th, each
/// closed over some loops.
pub open spec fn closed_stores(
    dag: Seq<NodeView>,
    deps: Seq<usize>,
    loops: Seq<usize>,
    n: nat,
) -> (Seq<NodeView>, Seq<usize>)
    decreases n,
{
    if n == 0 {
        (dag, Seq::empty())
    } else {
        let (before, ends) = closed_stores(dag, deps, loops, (n - 1) as nat);
        if !is_proper_store(dag, deps[n - 1]) {
            (before, ends)
        } else if loops.len() == 0 {
            (before, ends.push(deps[n - 1]))
        } else {
            let end = put(before, end_node(deps[n - 1], loops));
            (end.dag, ends.push(end.id))
        }
    }
}

/// What is stored where a value waits for stores already: the storage itself,
/// behind those stores closed over the loops.
pub open spec fn reused(dag: Seq<NodeView>, after: usize, loops: Seq<usize>) -> Built {
    let node = dag[after as int];
    let deps = node.srcs.skip(1);
    let (all, ends) = closed_stores(dag, deps, loops, deps.len());
    if ends.len() == 0 {
        Built { dag: all, id: node.srcs[0] }
    } else {
        put(
            all,
            NodeView {
                op: Op::After,
                dtype: dag[node.srcs[0] as int].dtype,
                srcs: seq![node.srcs[0]] + ends,
            },
        )
    }
}

/// The loop that a staged value is walked by, if any.
pub open spec fn stage_loop(dag: Seq<NodeView>, id: usize) -> Option<usize> {
    if dag[id as int].srcs.len() > 1 {
        Some(dag[id as int].srcs[1])
    } else {
        None
    }
}

/// How much storage a staged value takes.
pub open spec fn stage_size(dag: Seq<NodeView>, id: usize) -> Option<usize> {
    match stage_loop(dag, id) {
        Some(range) => most_steps(dag, range),
        None => Some(1),
    }
}

/// Whether a node is a value that is staged outside of kernels.
pub open spec fn is_global_stage(op: Op) -> bool {
    op matches Op::Stage { space: AddrSpace::Global, .. }
}

/// A staged value as a store. Nothing but a value that is staged outside of
/// kernels becomes one, and none whose loop has no known extent.
pub open spec fn bufferized(dag: Seq<NodeView>, id: usize, slot: usize) -> Option<Built> {
    let node = dag[id as int];
    if !is_global_stage(node.op) {
        None
    } else if dag[node.srcs[0] as int].op is After {
        Some(reused(dag, node.srcs[0], node.srcs.skip(1)))
    } else {
        match stage_size(dag, id) {
            Some(size) => Some(stored(dag, node.srcs[0], stage_loop(dag, id), slot, size)),
            None => None,
        }
    }
}

/// Whether storage is new for a staged value.
pub open spec fn takes_storage(dag: Seq<NodeView>, id: usize) -> bool {
    let node = dag[id as int];
    is_global_stage(node.op) && !(dag[node.srcs[0] as int].op is After) && stage_size(dag, id) is Some
}

/// Whether a staged value is walked by at most one loop, which takes a step.
pub open spec fn has_one_loop(dag: Seq<NodeView>, id: usize) -> bool {
    let node = dag[id as int];
    is_global_stage(node.op) && !(dag[node.srcs[0] as int].op is After) ==> node.srcs.len() <= 2 && (
    stage_loop(dag, id) matches Some(range) ==> dag[range as int].op is Range && most_steps(
        dag,
        range,
    ) != Some(0usize))
}

pub(crate) fn find_most_steps(graph: &Graph, range: usize) -> (size: Option<usize>)
    requires
        graph.wf(),
        range < graph@.len(),
        graph@[range as int].op is Range,
    ensures
        size == most_steps(graph@, range),
{
    proof {
        lemma_arity(graph@, range);
    }
    let end: usize = graph.source(range, 0);
    match find_bounds(graph, end) {
        Some((_low, high)) => if high >= 0 && high as u64 <= usize::MAX as u64 {
            Some(high as usize)
        } else {
            None
        },
        None => None,
    }
}

fn put_stored(
    graph: &mut Graph,
    value: usize,
    range: Option<usize>,
    slot: usize,
    size: usize,
) -> (id: usize)
    requires
        old(graph).wf(),
        value < old(graph)@.len(),
        range matches Some(r) ==> r < old(graph)@.len(),
    ensures
        grown(old(graph)@, *final(graph), stored(old(graph)@, value, range, slot, size), id),
{
    let dtype = graph.dtype(value);
    let buffer: usize = graph.leaf(Op::Buffer { slot, space: AddrSpace::Global, size }, dtype);
    let place: usize = match range {
        Some(r) => r,
        None => graph.index_const(0),
    };
    let index: usize = graph.binary(Op::Index, dtype, buffer, place);
    let store: usize = graph.binary(Op::Store, DType::Void, index, value);
    let end: usize = match range {
        Some(r) => {
            let loops: [usize; 1] = [r];
            assert(loops@ =~= seq![r]);
            graph.end(store, &loops)
        },
        None => store,
    };
    graph.binary(Op::After, dtype, buffer, end)
}

fn put_reused(graph: &mut Graph, after: usize, loops: &Vec<usize>) -> (id: usize)
    requires
        old(graph).wf(),
        after < old(graph)@.len(),
        old(graph)@[after as int].op is After,
        forall|i: int| 0 <= i < loops@.len() ==> (#[trigger] loops@[i]) < old(graph)@.len(),
    ensures
        grown(old(graph)@, *final(graph), reused(old(graph)@, after, loops@), id),
{
    proof {
        lemma_arity(graph@, after);
    }
    let ghost dag = graph@;
    let ghost deps = dag[after as int].srcs.skip(1);
    let storage: usize = graph.source(after, 0);
    let count: usize = graph.source_count(after);
    let mut ends: Vec<usize> = Vec::new();
    let mut k: usize = 1;
    while k < count
        invariant
            graph.wf(),
            dag_wf(dag),
            extends(dag, graph@),
            after < dag.len(),
            count == dag[after as int].srcs.len(),
            1 <= k <= count,
            deps == dag[after as int].srcs.skip(1),
            forall|i: int| 0 <= i < loops@.len() ==> (#[trigger] loops@[i]) < dag.len(),
            closed_stores(dag, deps, loops@, (k - 1) as nat) == (graph@, ends@),
            forall|i: int| 0 <= i < ends@.len() ==> (#[trigger] ends@[i]) < graph@.len(),
        decreases count - k,
    {
        assert(graph@[after as int] == dag[after as int]);
        let dep: usize = graph.source(after, k);
        proof {
            assert(deps[k - 1] == dep);
            assert(dep < dag.len());
            assert(graph@[dep as int] == dag[dep as int]);
            lemma_arity(dag, dep);
        }
        let proper = match graph.op(dep) {
            Op::Store => graph.source(dep, 1) != graph.source(dep, 0),
            _ => false,
        };
        if proper {
            let end: usize = graph.end(dep, loops.as_slice());
            ends.push(end);
        }
        k += 1;
    }
    if ends.len() == 0 {
        storage
    } else {
        assert(graph@[storage as int] == dag[storage as int]);
        graph.after(storage, ends.as_slice())
    }
}

/// Turns a staged value into a store, and lets what reads the storage stand for
/// it. A value that waits for stores keeps its storage, and one that was turned
/// into a store before keeps that store.
pub fn bufferize_to_store(graph: &mut Graph, id: usize, ctx: &mut RangeifyBufferContext) -> (new:
    Option<usize>)
    requires
        old(graph).wf(),
        old(ctx).wf(),
        id < old(graph)@.len(),
        has_one_loop(old(graph)@, id),
        old(ctx).lunique_counter < usize::MAX,
    ensures
        final(graph).wf(),
        final(ctx).wf(),
        final(ctx).global_counter == old(ctx).global_counter,
        final(ctx).local_counter == old(ctx).local_counter,
        final(ctx).range_counter == old(ctx).range_counter,
        final(ctx).vars@ == old(ctx).vars@,
        old(ctx).buffers().contains_key(id) ==> {
            &&& new == Some(old(ctx).buffers()[id])
            &&& final(graph)@ == old(graph)@
            &&& final(ctx).buffers() == old(ctx).buffers()
            &&& final(ctx).lunique_counter == old(ctx).lunique_counter
        },
        !old(ctx).buffers().contains_key(id) ==> {
            &&& final(ctx).lunique_counter == old(ctx).lunique_counter + (if takes_storage(
                old(graph)@,
                id,
            ) {
                1int
            } else {
                0int
            })
            &&& match bufferized(old(graph)@, id, old(ctx).lunique_counter) {
                Some(built) => {
                    &&& new is Some
                    &&& grown(old(graph)@, *final(graph), built, new->0)
                    &&& final(ctx).buffers() == old(ctx).buffers().insert(id, new->0)
                },
                None => {
                    &&& new is None
                    &&& final(graph)@ == old(graph)@
                    &&& final(ctx).buffers() == old(ctx).buffers()
                },
            }
        },
{
    match ctx.get_buffer(id) {
        Some(found) => {
            return Some(found);
        },
        None => {},
    }
    proof {
        lemma_arity(graph@, id);
    }
    match graph.op(id) {
        Op::Stage { space: AddrSpace::Global, .. } => {},
        _ => {
            return None;
        },
    }
    let value: usize = graph.source(id, 0);
    let made: usize = match graph.op(value) {
        Op::After => {
            let ghost dag = graph@;
            let mut loops: Vec<usize> = Vec::new();
            let count: usize = graph.source_count(id);
            let mut k: usize = 1;
            while k < count
                invariant
                    graph.wf(),
                    graph@ == dag,
                    id < dag.len(),
                    count == dag[id as int].srcs.len(),
                    1 <= k <= count,
                    loops@.len() == k - 1,
                    forall|i: int|
                        0 <= i < k - 1 ==> #[trigger] loops@[i] == dag[id as int].srcs[i + 1]
                            && loops@[i] < dag.len(),
                decreases count - k,
            {
                loops.push(graph.source(id, k));
                k += 1;
            }
            assert(loops@ =~= dag[id as int].srcs.skip(1));
            put_reused(graph, value, &loops)
        },
        _ => {
            let range: Option<usize> = if graph.source_count(id) > 1 {
                Some(graph.source(id, 1))
            } else {
                None
            };
            let size: Option<usize> = match range {
                Some(r) => find_most_steps(graph, r),
                None => Some(1),
            };
            match size {
                None => {
                    return None;
                },
                Some(size) => {
                    let slot: usize = ctx.next_lunique();
                    put_stored(graph, value, range, slot, size)
                },
            }
        },
    };
    ctx.map_buffer(id, made);
    Some(made)
}

/// Whether an operation gives a view of the storage of its first source.
pub open spec fn is_view(op: Op) -> bool {
    op is After || op is MSelect || op is Reshape || op is Expand || op is Permute || op is Flip
        || op is Pad || op is Shrink
}

/// The storage that a node is a view of.
pub open spec fn storage(dag: Seq<NodeView>, id: usize) -> usize
    decreases id,
{
    let node = dag[id as int];
    if is_view(node.op) && node.srcs.len() > 0 && node.srcs[0] < id {
        storage(dag, node.srcs[0])
    } else {
        id
    }
}

/// What the storage of an access is reached through.
#[derive(Clone, Copy, Debug, PartialEq, Eq, Structural)]
pub enum Route {
    Buffer,
    Param,
    After,
    Select,
    Stack,
    Stage,
    Movement,
    Value,
}

/// What kind of node an access is made to.
pub open spec fn route_of(op: Op) -> Route {
    match op {
        Op::Buffer { .. } => Route::Buffer,
        Op::Param { .. } => Route::Param,
        Op::After => Route::After,
        Op::MSelect(_) => Route::Select,
        Op::MStack => Route::Stack,
        Op::Stage { .. } => Route::Stage,
        Op::Reshape | Op::Expand | Op::Permute | Op::Flip | Op::Pad | Op::Shrink => Route::Movement,
        _ => Route::Value,
    }
}

/// Whether two accesses reach one storage by different routes.
pub open spec fn routes_differ(dag: Seq<NodeView>, a: usize, b: usize) -> bool {
    &&& dag[a as int].op is Index
    &&& dag[b as int].op is Index
    &&& storage(dag, dag[a as int].srcs[0]) == storage(dag, dag[b as int].srcs[0])
    &&& dag[storage(dag, dag[a as int].srcs[0]) as int].op is Buffer
    &&& route_of(dag[dag[a as int].srcs[0] as int].op) != route_of(
        dag[dag[b as int].srcs[0] as int].op,
    )
}

/// Whether the accesses below a node reach every storage by one route.
pub open spec fn routes_agree(dag: Seq<NodeView>, root: usize) -> bool {
    forall|i: int, j: int|
        0 <= i < topo(dag, root).len() && 0 <= j < topo(dag, root).len() ==> !routes_differ(
            dag,
            #[trigger] topo(dag, root)[i],
            #[trigger] topo(dag, root)[j],
        )
}

/// Storage that is reached by two routes.
#[derive(Clone, Copy, Debug, PartialEq, Eq, Structural)]
pub struct IndexCycle {
    pub buffer: usize,
}

/// The storage that a node is a view of.
pub fn find_storage(graph: &Graph, id: usize) -> (found: usize)
    requires
        graph.wf(),
        id < graph@.len(),
    ensures
        found == storage(graph@, id),
        found <= id,
{
    let mut at: usize = id;
    while viewed(graph.op(at))
        invariant
            graph.wf(),
            at <= id < graph@.len(),
            storage(graph@, at) == storage(graph@, id),
        decreases at,
    {
        proof {
            lemma_arity(graph@, at);
        }
        at = graph.source(at, 0);
    }
    at
}

fn viewed(op: Op) -> (r: bool)
    ensures
        r == is_view(op),
{
    matches!(
        op,
        Op::After
        | Op::MSelect(_)
        | Op::Reshape
        | Op::Expand
        | Op::Permute
        | Op::Flip
        | Op::Pad
        | Op::Shrink
    )
}

fn find_route(op: Op) -> (route: Route)
    ensures
        route == route_of(op),
{
    match op {
        Op::Buffer { .. } => Route::Buffer,
        Op::Param { .. } => Route::Param,
        Op::After => Route::After,
        Op::MSelect(_) => Route::Select,
        Op::MStack => Route::Stack,
        Op::Stage { .. } => Route::Stage,
        Op::Reshape | Op::Expand | Op::Permute | Op::Flip | Op::Pad | Op::Shrink => Route::Movement,
        _ => Route::Value,
    }
}

fn differ(graph: &Graph, a: usize, b: usize) -> (r: bool)
    requires
        graph.wf(),
        a < graph@.len(),
        b < graph@.len(),
    ensures
        r == routes_differ(graph@, a, b),
{
    proof {
        lemma_arity(graph@, a);
        lemma_arity(graph@, b);
    }
    if !matches!(graph.op(a), Op::Index) || !matches!(graph.op(b), Op::Index) {
        return false;
    }
    let x: usize = graph.source(a, 0);
    let y: usize = graph.source(b, 0);
    let base: usize = find_storage(graph, x);
    base == find_storage(graph, y) && matches!(graph.op(base), Op::Buffer { .. }) && find_route(
        graph.op(x),
    ) != find_route(graph.op(y))
}

/// Checks that the accesses below a node reach every storage by one route; the
/// accesses come back.
pub fn find_bufs(graph: &Graph, root: usize) -> (found: Result<Vec<usize>, IndexCycle>)
    requires
        graph.wf(),
        root < graph@.len(),
    ensures
        match found {
            Ok(list) => routes_agree(graph@, root) && list@ == accesses(
                graph@,
                topo(graph@, root),
                topo(graph@, root).len(),
            ),
            Err(cycle) => !routes_agree(graph@, root) && exists|i: int, j: int|
                0 <= i < topo(graph@, root).len() && 0 <= j < topo(graph@, root).len()
                    && routes_differ(
                    graph@,
                    #[trigger] topo(graph@, root)[i],
                    #[trigger] topo(graph@, root)[j],
                ) && cycle.buffer == storage(graph@, graph@[topo(graph@, root)[i] as int].srcs[0]),
        },
{
    let walk = graph.toposort(root);
    proof {
        lemma_topo(graph@, root);
    }
    let mut list: Vec<usize> = Vec::new();
    let mut i: usize = 0;
    while i < walk.len()
        invariant
            graph.wf(),
            walk@ == topo(graph@, root),
            forall|k: int| 0 <= k < walk@.len() ==> (#[trigger] walk@[k]) < graph@.len(),
            i <= walk@.len(),
            list@ == accesses(graph@, walk@, i as nat),
            forall|a: int, b: int|
                0 <= a < i && 0 <= b < walk@.len() ==> !routes_differ(
                    graph@,
                    #[trigger] walk@[a],
                    #[trigger] walk@[b],
                ),
        decreases walk@.len() - i,
    {
        let mut j: usize = 0;
        while j < walk.len()
            invariant
                graph.wf(),
                walk@ == topo(graph@, root),
                forall|k: int| 0 <= k < walk@.len() ==> (#[trigger] walk@[k]) < graph@.len(),
                i < walk@.len(),
                j <= walk@.len(),
                forall|b: int|
                    0 <= b < j ==> !routes_differ(graph@, walk@[i as int], #[trigger] walk@[b]),
            decreases walk@.len() - j,
        {
            if differ(graph, walk[i], walk[j]) {
                proof {
                    lemma_arity(graph@, walk@[i as int]);
                    assert(routes_differ(
                        graph@,
                        topo(graph@, root)[i as int],
                        topo(graph@, root)[j as int],
                    ));
                }
                let target: usize = graph.source(walk[i], 0);
                return Err(IndexCycle { buffer: find_storage(graph, target) });
            }
            j += 1;
        }
        if matches!(graph.op(walk[i]), Op::Index) {
            list.push(walk[i]);
        }
        i += 1;
    }
    Ok(list)
}

/// The accesses among the first `n` nodes of a walk.
pub open spec fn accesses(dag: Seq<NodeView>, walk: Seq<usize>, n: nat) -> Seq<usize>
    decreases n,
{
    if n == 0 {
        Seq::empty()
    } else {
        let rest = accesses(dag, walk, (n - 1) as nat);
        if dag[walk[n - 1] as int].op is Index {
            rest.push(walk[n - 1])
        } else {
            rest
        }
    }
}

/// A graph that grows keeps the storage that a node is a view of.
pub proof fn lemma_storage_extends(dag: Seq<NodeView>, more: Seq<NodeView>, id: usize)
    requires
        dag_wf(dag),
        extends(dag, more),
        id < dag.len(),
    ensures
        storage(more, id) == storage(dag, id),
    decreases id,
{
    let node = dag[id as int];
    assert(more[id as int] == node);
    if node.srcs.len() > 0 && node.srcs[0] < id {
        lemma_storage_extends(dag, more, node.srcs[0]);
    }
}

} // verus!
