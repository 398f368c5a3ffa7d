//! Stores that become kernels of their own.

use vstd::prelude::*;

use crate::builders::{extent_node, lemma_interned_keeps, put, Built};
use crate::graph::{
    arity_ok, dag_wf, lemma_interned_wf, AddrSpace, AxisId, AxisType, DType, Graph, NodeView, Op,
};
use crate::late::{int_at, int_of, made, put_int};
use crate::meaning::lemma_arity;
use crate::params::{find_storage, numbered, slot_param, storage_of};
use crate::passes::{extends, grown, lemma_put, moved, sources, with_srcs};
use crate::scope::{in_scope, lemma_scope_is_range_below, row_ok};
use crate::topo::{
    before, lemma_reaches_below, lemma_reaches_extends, lemma_reaches_transitive, lemma_topo,
    ordered, reaches, topo,
};

verus! {

/// Whether a node is storage outside of kernels.
pub open spec fn is_global(op: Op) -> bool {
    op matches Op::Buffer { space, .. } && space == AddrSpace::Global
}

/// Whether a node is a variable with a value.
pub open spec fn is_bound(dag: Seq<NodeView>, id: usize) -> bool {
    let node = dag[id as int];
    &&& node.op is Bind
    &&& dag[node.srcs[0] as int].op is Variable
    &&& dag[node.srcs[0] as int].srcs.len() == 0
}

/// Whether a kernel with one node in it has another one in it too. What waits
/// for other kernels is read from its storage, and a variable with a value is
/// read from the arguments; anything else is computed from its sources.
pub open spec fn draws(dag: Seq<NodeView>, p: usize, x: usize) -> bool {
    let node = dag[p as int];
    if node.op is After {
        x == storage_of(dag, node.srcs[0])
    } else if is_bound(dag, p) {
        false
    } else {
        exists|k: int| 0 <= k < node.srcs.len() && #[trigger] node.srcs[k] == x
    }
}

/// Whether a node is in the kernel of a root.
pub open spec fn inside(dag: Seq<NodeView>, root: usize, id: usize) -> bool
    decreases root - id,
{
    ||| id == root
    ||| exists|p: usize| id < p <= root && #[trigger] draws(dag, p, id) && inside(dag, root, p)
}

/// A kernel in the making: the graph, what stands for the nodes in the kernel,
/// its storage and its bound variables, and the number of its loops.
pub struct Kernel {
    pub dag: Seq<NodeView>,
    pub stands: Map<usize, usize>,
    pub args: Seq<usize>,
    pub binds: Seq<usize>,
    pub loops: nat,
}

/// A kernel with one more node. Storage becomes the parameter of the next slot,
/// a bound variable the bare variable, and a loop takes the next number.
pub open spec fn taken_in(dag: Seq<NodeView>, rest: Kernel, u: usize) -> Kernel {
    let node = dag[u as int];
    if is_global(node.op) {
        let param = slot_param(rest.dag, u, rest.args.len() as usize);
        Kernel {
            dag: param.dag,
            stands: rest.stands.insert(u, param.id),
            args: rest.args.push(u),
            ..rest
        }
    } else if node.op is After {
        let storage = storage_of(dag, node.srcs[0]);
        Kernel { stands: rest.stands.insert(u, rest.stands[storage]), ..rest }
    } else if is_bound(dag, u) {
        Kernel {
            stands: rest.stands.insert(u, node.srcs[0]),
            binds: rest.binds.push(u),
            ..rest
        }
    } else {
        let copy = put(rest.dag, with_srcs(node, moved(node.srcs, rest.stands)));
        match node.op {
            Op::Range { axis: AxisId::Unrenumbered(_), .. } => {
                let range = numbered(copy.dag, copy.id, rest.loops as usize);
                Kernel {
                    dag: range.dag,
                    stands: rest.stands.insert(u, range.id),
                    loops: rest.loops + 1,
                    ..rest
                }
            },
            _ => Kernel { dag: copy.dag, stands: rest.stands.insert(u, copy.id), ..rest },
        }
    }
}

/// The kernel of a root, from the first `n` nodes of a walk.
pub open spec fn gathered(dag: Seq<NodeView>, root: usize, walk: Seq<usize>, n: nat) -> Kernel
    decreases n,
{
    if n == 0 {
        Kernel {
            dag,
            stands: Map::empty(),
            args: Seq::empty(),
            binds: Seq::empty(),
            loops: 0,
        }
    } else {
        let rest = gathered(dag, root, walk, (n - 1) as nat);
        if inside(dag, root, walk[n - 1]) {
            taken_in(dag, rest, walk[n - 1])
        } else {
            rest
        }
    }
}

/// The kernel of a root.
pub open spec fn kernel_of(dag: Seq<NodeView>, root: usize) -> Kernel {
    gathered(dag, root, topo(dag, root), topo(dag, root).len())
}

/// The store that a node is, or that it closes over loops.
pub open spec fn store_of(dag: Seq<NodeView>, id: usize) -> Option<usize> {
    let node = dag[id as int];
    if node.op is Store {
        Some(id)
    } else if node.op is End && dag[node.srcs[0] as int].op is Store {
        Some(node.srcs[0])
    } else {
        None
    }
}

/// Whether a node runs in no loop but launches over devices.
pub open spec fn runs_alone(dag: Seq<NodeView>, id: usize) -> bool {
    forall|r: usize| #[trigger]
        in_scope(dag, id, r) ==> (dag[r as int].op matches Op::Range { kind, .. } && kind
            == AxisType::Device)
}

/// A store as the call of a kernel: the body over parameters, then the storage,
/// then the bound variables. What is copied is a body by itself.
pub open spec fn split(dag: Seq<NodeView>, id: usize) -> Option<Built> {
    match store_of(dag, id) {
        Some(store) => if runs_alone(dag, id) {
            let kernel = kernel_of(dag, id);
            let value = dag[store as int].srcs[1];
            let body = if dag[value as int].op is Copy {
                Built { dag: kernel.dag, id: kernel.stands[value] }
            } else {
                put(
                    kernel.dag,
                    NodeView { op: Op::Sink, dtype: DType::Void, srcs: seq![kernel.stands[id]] },
                )
            };
            Some(
                put(
                    body.dag,
                    NodeView {
                        op: Op::Call,
                        dtype: DType::Void,
                        srcs: seq![body.id] + (kernel.args + kernel.binds),
                    },
                ),
            )
        } else {
            None
        },
        None => None,
    }
}

fn bound(graph: &Graph, id: usize) -> (r: bool)
    requires
        graph.wf(),
        id < graph@.len(),
    ensures
        r == is_bound(graph@, id),
{
    proof {
        lemma_arity(graph@, id);
    }
    match graph.op(id) {
        Op::Bind => {
            let var: usize = graph.source(id, 0);
            match graph.op(var) {
                Op::Variable { .. } => graph.source_count(var) == 0,
                _ => false,
            }
        },
        _ => false,
    }
}

/// Whether a node is drawn in by one of those from `low` on.
spec fn drawn_from(dag: Seq<NodeView>, root: usize, x: usize, low: int) -> bool {
    exists|q: usize| low <= q <= root && #[trigger] draws(dag, q, x) && inside(dag, root, q)
}

fn mark_sources(graph: &Graph, p: usize, seen: &mut Vec<bool>)
    requires
        graph.wf(),
        p < graph@.len(),
        p < old(seen)@.len(),
    ensures
        final(seen)@.len() == old(seen)@.len(),
        forall|x: usize|
            #![trigger final(seen)@[x as int]]
            x < final(seen)@.len() ==> final(seen)@[x as int] == (old(seen)@[x as int] || draws(
                graph@,
                p,
                x,
            )),
{
    let ghost dag = graph@;
    let ghost start = seen@;
    proof {
        lemma_arity(dag, p);
    }
    match graph.op(p) {
        Op::After => {
            let storage: usize = find_storage(graph, graph.source(p, 0));
            seen.set(storage, true);
            return ;
        },
        _ => {},
    }
    if bound(graph, p) {
        return ;
    }
    let count: usize = graph.source_count(p);
    let mut k: usize = 0;
    while k < count
        invariant
            graph.wf(),
            dag == graph@,
            p < dag.len(),
            count == dag[p as int].srcs.len(),
            k <= count,
            start.len() == seen@.len(),
            p < seen@.len(),
            forall|x: usize|
                #![trigger seen@[x as int]]
                x < seen@.len() ==> seen@[x as int] == (start[x as int] || exists|j: int|
                    0 <= j < k && #[trigger] dag[p as int].srcs[j] == x),
        decreases count - k,
    {
        let src: usize = graph.source(p, k);
        let ghost held = seen@;
        seen.set(src, true);
        proof {
            assert forall|x: usize|
                #![trigger seen@[x as int]]
                x < seen@.len() implies seen@[x as int] == (start[x as int] || exists|j: int|
                0 <= j < k + 1 && #[trigger] dag[p as int].srcs[j] == x) by {
                assert(held[x as int] == (start[x as int] || exists|j: int|
                    0 <= j < k && #[trigger] dag[p as int].srcs[j] == x));
                if x == src {
                    assert(dag[p as int].srcs[k as int] == x);
                }
            }
        }
        k += 1;
    }
}

/// For every node up to a root, whether it is in the kernel of the root.
fn find_inside(graph: &Graph, root: usize) -> (seen: Vec<bool>)
    requires
        graph.wf(),
        root < graph@.len(),
    ensures
        seen@.len() == root + 1,
        forall|x: usize| x <= root ==> #[trigger] seen@[x as int] == inside(graph@, root, x),
{
    let ghost dag = graph@;
    let mut seen: Vec<bool> = Vec::new();
    let mut i: usize = 0;
    while i < root
        invariant
            i <= root,
            seen@.len() == i,
            forall|x: int| 0 <= x < i ==> !(#[trigger] seen@[x]),
        decreases root - i,
    {
        seen.push(false);
        i += 1;
    }
    seen.push(true);
    let mut p: usize = root;
    loop
        invariant
            graph.wf(),
            dag == graph@,
            p <= root < dag.len(),
            seen@.len() == root + 1,
            forall|x: usize| p <= x <= root ==> #[trigger] seen@[x as int] == inside(dag, root, x),
            forall|x: usize|
                x < p ==> #[trigger] seen@[x as int] == drawn_from(dag, root, x, p + 1),
        ensures
            forall|x: usize| x <= root ==> #[trigger] seen@[x as int] == inside(dag, root, x),
        decreases p,
    {
        let ghost before = seen@;
        if seen[p] {
            mark_sources(graph, p, &mut seen);
        }
        proof {
            assert forall|x: usize| p <= x <= root implies #[trigger] seen@[x as int] == inside(
                dag,
                root,
                x,
            ) by {
                assert(before[x as int] == inside(dag, root, x));
                lemma_draws_below(dag, p, x);
            }
            assert forall|x: usize| x < p implies #[trigger] seen@[x as int] == drawn_from(
                dag,
                root,
                x,
                p as int,
            ) by {
                assert(before[x as int] == drawn_from(dag, root, x, p + 1));
                if drawn_from(dag, root, x, p as int) && !before[x as int] {
                    let q = choose|q: usize|
                        p <= q <= root && #[trigger] draws(dag, q, x) && inside(dag, root, q);
                    assert(q == p);
                }
                if before[x as int] {
                    let q = choose|q: usize|
                        p + 1 <= q <= root && #[trigger] draws(dag, q, x) && inside(dag, root, q);
                    assert(draws(dag, q, x));
                }
                if before[p as int] && draws(dag, p, x) {
                    assert(inside(dag, root, p));
                }
            }
        }
        if p == 0 {
            break;
        }
        proof {
            let y = (p - 1) as usize;
            assert(seen@[y as int] == drawn_from(dag, root, y, p as int));
            assert(inside(dag, root, y) == drawn_from(dag, root, y, p as int));
        }
        p = p - 1;
    }
    seen
}

proof fn lemma_storage_below(dag: Seq<NodeView>, id: usize)
    ensures
        storage_of(dag, id) <= id,
    decreases id,
{
    let node = dag[id as int];
    match node.op {
        Op::MStack => {
            if node.srcs[0] < id {
                lemma_storage_below(dag, node.srcs[0]);
            }
        },
        Op::MSelect(at) => {
            if node.srcs[0] < id {
                let stack = dag[node.srcs[0] as int];
                if stack.op is MStack && at < stack.srcs.len() && stack.srcs[at as int] < id {
                    lemma_storage_below(dag, stack.srcs[at as int]);
                } else {
                    lemma_storage_below(dag, node.srcs[0]);
                }
            }
        },
        _ => {},
    }
}

/// What a node draws in stands below it.
pub(crate) proof fn lemma_draws_below(dag: Seq<NodeView>, p: usize, x: usize)
    requires
        dag_wf(dag),
        p < dag.len(),
    ensures
        draws(dag, p, x) ==> x < p,
{
    let node = dag[p as int];
    lemma_arity(dag, p);
    if draws(dag, p, x) {
        if node.op is After {
            assert(dag[p as int].srcs[0] < p);
            lemma_storage_below(dag, node.srcs[0]);
        } else {
            let k = choose|k: int| 0 <= k < node.srcs.len() && #[trigger] node.srcs[k] == x;
            assert(dag[p as int].srcs[k] < p);
        }
    }
}

proof fn lemma_reaches_storage(dag: Seq<NodeView>, id: usize)
    requires
        dag_wf(dag),
        id < dag.len(),
    ensures
        reaches(dag, id, storage_of(dag, id)),
    decreases id,
{
    let node = dag[id as int];
    lemma_arity(dag, id);
    match node.op {
        Op::MStack => {
            assert(dag[id as int].srcs[0] < id);
            lemma_reaches_storage(dag, node.srcs[0]);
        },
        Op::MSelect(at) => {
            assert(dag[id as int].srcs[0] < id);
            let src = node.srcs[0];
            let stack = dag[src as int];
            if stack.op is MStack && at < stack.srcs.len() && stack.srcs[at as int] < id {
                assert(dag[src as int].srcs[at as int] < src);
                lemma_reaches_storage(dag, stack.srcs[at as int]);
                assert(reaches(dag, src, storage_of(dag, stack.srcs[at as int])));
            } else {
                lemma_reaches_storage(dag, src);
            }
        },
        _ => {},
    }
}

/// What stands below a node of an ordered list comes before it.
proof fn lemma_below_comes_before(
    dag: Seq<NodeView>,
    list: Seq<usize>,
    p: int,
    to: usize,
)
    requires
        dag_wf(dag),
        ordered(dag, list),
        0 <= p < list.len(),
        reaches(dag, list[p], to),
        to != list[p],
    ensures
        before(list, p, to),
    decreases list[p],
{
    let from = list[p];
    let k = choose|k: int|
        #![trigger dag[from as int].srcs[k]]
        0 <= k < dag[from as int].srcs.len() && dag[from as int].srcs[k] < from && reaches(
            dag,
            dag[from as int].srcs[k],
            to,
        );
    let src = dag[from as int].srcs[k];
    assert(dag[list[p] as int].srcs[k] == src);
    let q = choose|q: int| 0 <= q < p && #[trigger] list[q] == src;
    if src != to {
        lemma_below_comes_before(dag, list, q, to);
        let r = choose|r: int| 0 <= r < q && #[trigger] list[r] == to;
        assert(list[r] == to);
    }
}

/// What a node of a walk draws in comes before it.
pub(crate) proof fn lemma_drawn_comes_before(
    dag: Seq<NodeView>,
    list: Seq<usize>,
    p: int,
    x: usize,
)
    requires
        dag_wf(dag),
        ordered(dag, list),
        0 <= p < list.len(),
        draws(dag, list[p], x),
    ensures
        before(list, p, x),
{
    let u = list[p];
    let node = dag[u as int];
    lemma_arity(dag, u);
    lemma_draws_below(dag, u, x);
    if node.op is After {
        assert(dag[u as int].srcs[0] < u);
        lemma_reaches_storage(dag, node.srcs[0]);
        assert(reaches(dag, dag[u as int].srcs[0], x));
        assert(reaches(dag, u, x));
        lemma_below_comes_before(dag, list, p, x);
    } else {
        let k = choose|k: int| 0 <= k < node.srcs.len() && #[trigger] node.srcs[k] == x;
        assert(dag[list[p] as int].srcs[k] == x);
    }
}

/// Whether a table has what stands for the first `n` nodes of a walk.
spec fn stands_ok(
    dag: Seq<NodeView>,
    root: usize,
    walk: Seq<usize>,
    n: nat,
    stands: Seq<usize>,
) -> bool {
    let kernel = gathered(dag, root, walk, n);
    &&& stands.len() == root + 1
    &&& forall|p: int|
        0 <= p < n && inside(dag, root, #[trigger] walk[p]) ==> stands[walk[p] as int]
            == kernel.stands[walk[p]] && stands[walk[p] as int] < kernel.dag.len()
}

fn put_param(graph: &mut Graph, id: usize, size: usize, slot: usize) -> (param: usize)
    requires
        old(graph).wf(),
        id < old(graph)@.len(),
        old(graph)@[id as int].op matches Op::Buffer { size: s, .. } && s == size,
    ensures
        grown(old(graph)@, *final(graph), slot_param(old(graph)@, id, slot), param),
{
    let dtype = graph.dtype(id);
    let extent: usize = put_int(graph, size as i64, DType::WeakInt);
    let ghost held = graph@;
    let param: usize = graph.unary(
        Op::Param { slot, addrspace: Some(AddrSpace::Global) },
        dtype,
        extent,
    );
    proof {
        lemma_interned_keeps(
            held,
            NodeView {
                op: Op::Param { slot, addrspace: Some(AddrSpace::Global) },
                dtype,
                srcs: seq![extent],
            },
        );
    }
    param
}

fn put_numbered(graph: &mut Graph, id: usize, kind: AxisType, number: usize) -> (range: usize)
    requires
        old(graph).wf(),
        id < old(graph)@.len(),
        old(graph)@[id as int].op matches Op::Range { kind: own, .. } && own == kind,
    ensures
        grown(old(graph)@, *final(graph), numbered(old(graph)@, id, number), range),
{
    let ghost dag = graph@;
    proof {
        lemma_arity(dag, id);
    }
    let empty: bool = match int_at(graph, graph.source(id, 0)) {
        Some(n) => n == 0,
        None => false,
    };
    if empty {
        return put_int(graph, 0, DType::WeakInt);
    }
    let dtype = graph.dtype(id);
    let list = sources(graph, id);
    let op = Op::Range { axis: AxisId::Renumbered(number), kind };
    let range: usize = graph.node(op, dtype, list.as_slice());
    proof {
        lemma_interned_keeps(dag, NodeView { op, dtype, srcs: list@ });
    }
    range
}

/// The parts of a kernel as they are computed.
struct Parts {
    stands: Vec<usize>,
    args: Vec<usize>,
    binds: Vec<usize>,
}

fn gather(graph: &mut Graph, root: usize) -> (parts: Parts)
    requires
        old(graph).wf(),
        root < old(graph)@.len(),
    ensures
        final(graph).wf(),
        extends(old(graph)@, final(graph)@),
        ({
            let kernel = kernel_of(old(graph)@, root);
            let walk = topo(old(graph)@, root);
            &&& final(graph)@ == kernel.dag
            &&& parts.args@ == kernel.args
            &&& parts.binds@ == kernel.binds
            &&& stands_ok(old(graph)@, root, walk, walk.len(), parts.stands@)
        }),
        forall|i: int|
            0 <= i < parts.args@.len() ==> (#[trigger] parts.args@[i]) < old(graph)@.len(),
        forall|i: int|
            0 <= i < parts.binds@.len() ==> (#[trigger] parts.binds@[i]) < old(graph)@.len(),
{
    let ghost dag = graph@;
    let walk = graph.toposort(root);
    let seen = find_inside(graph, root);
    proof {
        lemma_topo(dag, root);
    }
    let mut stands: Vec<usize> = Vec::new();
    let mut i: usize = 0;
    while i < root
        invariant
            i <= root,
            stands@.len() == i,
        decreases root - i,
    {
        stands.push(0);
        i += 1;
    }
    stands.push(0);
    let mut args: Vec<usize> = Vec::new();
    let mut binds: Vec<usize> = Vec::new();
    let mut loops: usize = 0;
    let mut n: usize = 0;
    while n < walk.len()
        invariant
            graph.wf(),
            dag_wf(dag),
            extends(dag, graph@),
            root < dag.len(),
            walk@ == topo(dag, root),
            ordered(dag, walk@),
            forall|x: usize| #[trigger] walk@.contains(x) <==> reaches(dag, root, x),
            seen@.len() == root + 1,
            forall|x: usize| x <= root ==> #[trigger] seen@[x as int] == inside(dag, root, x),
            n <= walk@.len(),
            loops <= n,
            graph@ == gathered(dag, root, walk@, n as nat).dag,
            args@ == gathered(dag, root, walk@, n as nat).args,
            binds@ == gathered(dag, root, walk@, n as nat).binds,
            loops == gathered(dag, root, walk@, n as nat).loops,
            forall|i: int| 0 <= i < args@.len() ==> (#[trigger] args@[i]) < dag.len(),
            forall|i: int| 0 <= i < binds@.len() ==> (#[trigger] binds@[i]) < dag.len(),
            stands_ok(dag, root, walk@, n as nat, stands@),
        decreases walk@.len() - n,
    {
        let u: usize = walk[n];
        let ghost node = dag[u as int];
        let ghost rest = gathered(dag, root, walk@, n as nat);
        let ghost table = stands@;
        proof {
            assert(walk@.contains(u));
            lemma_reaches_below(dag, root, u);
            lemma_arity(dag, u);
            assert(graph@[u as int] == node);
        }
        if seen[u] {
            let ghost held = graph@;
            let op = graph.op(u);
            let mut new: usize = u;
            match op {
                Op::Buffer { space: AddrSpace::Global, size, .. } => {
                    let count: usize = args.len();
                    new = put_param(graph, u, size, count);
                    args.push(u);
                },
                Op::After => {
                    let storage: usize = find_storage(graph, graph.source(u, 0));
                    proof {
                        lemma_storage_extends(dag, graph@, node.srcs[0]);
                        assert(draws(dag, u, storage));
                        lemma_draws_below(dag, u, storage);
                        lemma_drawn_comes_before(dag, walk@, n as int, storage);
                        assert(inside(dag, root, storage));
                    }
                    new = stands[storage];
                },
                _ => {
                    let bare: bool = bound(graph, u);
                    assert(bare == is_bound(dag, u)) by {
                        if node.op is Bind {
                            assert(dag[u as int].srcs[0] < u);
                            assert(graph@[node.srcs[0] as int] == dag[node.srcs[0] as int]);
                        }
                    }
                    if bare {
                        new = graph.source(u, 0);
                        binds.push(u);
                    } else {
                        let dtype = graph.dtype(u);
                        let count: usize = graph.source_count(u);
                        let mut list: Vec<usize> = Vec::new();
                        let mut k: usize = 0;
                        while k < count
                            invariant
                                graph.wf(),
                                dag_wf(dag),
                                graph@ == held,
                                extends(dag, held),
                                held == rest.dag,
                                ordered(dag, walk@),
                                n < walk@.len(),
                                u == walk@[n as int],
                                u <= root < dag.len(),
                                inside(dag, root, u),
                                node == dag[u as int],
                                held[u as int] == node,
                                !(node.op is After),
                                !is_bound(dag, u),
                                count == node.srcs.len(),
                                rest == gathered(dag, root, walk@, n as nat),
                                stands@ == table,
                                stands_ok(dag, root, walk@, n as nat, table),
                                k <= count,
                                list@ == moved(node.srcs, rest.stands).take(k as int),
                                forall|j: int|
                                    0 <= j < list@.len() ==> (#[trigger] list@[j]) < held.len(),
                            decreases count - k,
                        {
                            let src: usize = graph.source(u, k);
                            proof {
                                assert(node.srcs[k as int] == src);
                                assert(draws(dag, u, src));
                                lemma_draws_below(dag, u, src);
                                lemma_drawn_comes_before(dag, walk@, n as int, src);
                                assert(inside(dag, root, src));
                                let q = choose|q: int| 0 <= q < n && #[trigger] walk@[q] == src;
                                assert(walk@[q] == src);
                            }
                            list.push(stands[src]);
                            k += 1;
                            assert(list@ =~= moved(node.srcs, rest.stands).take(k as int));
                        }
                        assert(list@ =~= moved(node.srcs, rest.stands));
                        let copy: usize = graph.node(op, dtype, list.as_slice());
                        proof {
                            lemma_interned_keeps(held, with_srcs(node, list@));
                        }
                        match op {
                            Op::Range { axis: AxisId::Unrenumbered(_), kind } => {
                                new = put_numbered(graph, copy, kind, loops);
                                loops += 1;
                            },
                            _ => {
                                new = copy;
                            },
                        }
                    }
                },
            }
            stands.set(u, new);
            proof {
                let now = gathered(dag, root, walk@, (n + 1) as nat);
                assert(now == taken_in(dag, rest, u));
                assert(now.stands == rest.stands.insert(u, new));
                assert forall|p: int|
                    0 <= p < n + 1 && inside(dag, root, #[trigger] walk@[p]) implies stands@[walk@[p] as int]
                    == now.stands[walk@[p]] && stands@[walk@[p] as int] < now.dag.len() by {
                    if p < n {
                        assert(walk@[p] != walk@[n as int]);
                        assert(table[walk@[p] as int] == rest.stands[walk@[p]]);
                    }
                }
            }
        }
        n += 1;
    }
    Parts { stands, args, binds }
}

proof fn lemma_storage_extends(dag: Seq<NodeView>, more: Seq<NodeView>, id: usize)
    requires
        dag_wf(dag),
        extends(dag, more),
        id < dag.len(),
    ensures
        storage_of(more, id) == storage_of(dag, id),
    decreases id,
{
    let node = dag[id as int];
    assert(more[id as int] == node);
    lemma_arity(dag, id);
    match node.op {
        Op::MStack => {
            assert(dag[id as int].srcs[0] < id);
            lemma_storage_extends(dag, more, node.srcs[0]);
        },
        Op::MSelect(at) => {
            assert(dag[id as int].srcs[0] < id);
            let src = node.srcs[0];
            assert(more[src as int] == dag[src as int]);
            let stack = dag[src as int];
            if stack.op is MStack && at < stack.srcs.len() && stack.srcs[at as int] < id {
                lemma_storage_extends(dag, more, stack.srcs[at as int]);
            } else {
                lemma_storage_extends(dag, more, src);
            }
        },
        _ => {},
    }
}

fn alone(graph: &Graph, id: usize) -> (r: bool)
    requires
        graph.wf(),
        id < graph@.len(),
    ensures
        r == runs_alone(graph@, id),
{
    let rows = graph.scopes();
    assert(row_ok(graph@, id, rows@[id as int]@));
    let mut r: usize = 0;
    while r < graph.len()
        invariant
            graph.wf(),
            id < graph@.len(),
            rows@.len() == graph@.len(),
            row_ok(graph@, id, rows@[id as int]@),
            r <= graph@.len(),
            forall|x: usize|
                x < r && #[trigger] in_scope(graph@, id, x) ==> (graph@[x as int].op matches
                Op::Range { kind, .. } && kind == AxisType::Device),
        decreases graph@.len() - r,
    {
        if rows[id][r] {
            let launch: bool = match graph.op(r) {
                Op::Range { kind, .. } => kind == AxisType::Device,
                _ => false,
            };
            if !launch {
                assert(in_scope(graph@, id, r));
                return false;
            }
        }
        r += 1;
    }
    proof {
        assert forall|x: usize| #[trigger] in_scope(graph@, id, x) implies (
        graph@[x as int].op matches Op::Range { kind, .. } && kind == AxisType::Device) by {
            lemma_scope_is_range_below(graph@, id, x);
        }
    }
    true
}

fn find_store(graph: &Graph, id: usize) -> (store: Option<usize>)
    requires
        graph.wf(),
        id < graph@.len(),
    ensures
        store == store_of(graph@, id),
        store matches Some(s) ==> s <= id && graph@[s as int].op is Store && reaches(
            graph@,
            id,
            s,
        ),
{
    proof {
        lemma_arity(graph@, id);
    }
    match graph.op(id) {
        Op::Store => Some(id),
        Op::End => {
            let first: usize = graph.source(id, 0);
            match graph.op(first) {
                Op::Store => {
                    assert(graph@[id as int].srcs[0] == first);
                    assert(reaches(graph@, first, first));
                    Some(first)
                },
                _ => None,
            }
        },
        _ => None,
    }
}

/// Makes a store, or an `End` of one, a kernel of its own, where it runs in no
/// loop but launches over devices; see `split`.
pub fn split_store(graph: &mut Graph, id: usize) -> (call: Option<usize>)
    requires
        old(graph).wf(),
        id < old(graph)@.len(),
    ensures
        made(old(graph)@, *final(graph), split(old(graph)@, id), call),
{
    let ghost dag = graph@;
    let store: usize = match find_store(graph, id) {
        Some(store) => store,
        None => {
            return None;
        },
    };
    if !alone(graph, id) {
        return None;
    }
    proof {
        lemma_arity(dag, store);
        assert(dag[store as int].srcs[1] < store);
        lemma_topo(dag, id);
    }
    let value: usize = graph.source(store, 1);
    let copied: bool = match graph.op(value) {
        Op::Copy => true,
        _ => false,
    };
    let parts = gather(graph, id);
    let ghost kernel = kernel_of(dag, id);
    let ghost walk = topo(dag, id);
    proof {
        assert(reaches(dag, value, value));
        assert(dag[store as int].srcs[1] == value);
        assert(reaches(dag, store, value));
        lemma_reaches_transitive(dag, id, store, value);
        assert(walk.contains(value) && walk.contains(id)) by {
            assert(reaches(dag, id, id));
        }
        let p = choose|p: int| 0 <= p < walk.len() && walk[p] == value;
        assert(walk[p] == value);
        let q = choose|q: int| 0 <= q < walk.len() && walk[q] == id;
        assert(walk[q] == id);
        lemma_value_inside(dag, id, store);
    }
    let body: usize = if copied {
        parts.stands[value]
    } else {
        let ghost held = graph@;
        let root: [usize; 1] = [parts.stands[id]];
        assert(root@ =~= seq![parts.stands@[id as int]]);
        let sink: usize = graph.node(Op::Sink, DType::Void, &root);
        proof {
            lemma_interned_keeps(
                held,
                NodeView { op: Op::Sink, dtype: DType::Void, srcs: root@ },
            );
        }
        sink
    };
    let mut args = parts.args;
    let mut k: usize = 0;
    while k < parts.binds.len()
        invariant
            k <= parts.binds@.len(),
            parts.binds@ == kernel.binds,
            args@ == kernel.args + kernel.binds.take(k as int),
            forall|i: int| 0 <= i < args@.len() ==> (#[trigger] args@[i]) < dag.len(),
            forall|i: int|
                0 <= i < parts.binds@.len() ==> (#[trigger] parts.binds@[i]) < dag.len(),
        decreases parts.binds@.len() - k,
    {
        args.push(parts.binds[k]);
        k += 1;
        assert(args@ =~= kernel.args + kernel.binds.take(k as int));
    }
    assert(kernel.binds.take(kernel.binds.len() as int) =~= kernel.binds);
    let ghost held = graph@;
    let call: usize = graph.led(Op::Call, DType::Void, body, args.as_slice());
    proof {
        lemma_interned_keeps(
            held,
            NodeView { op: Op::Call, dtype: DType::Void, srcs: seq![body] + args@ },
        );
    }
    Some(call)
}

/// What a store stores is in its kernel.
proof fn lemma_value_inside(dag: Seq<NodeView>, id: usize, store: usize)
    requires
        dag_wf(dag),
        id < dag.len(),
        store_of(dag, id) == Some(store),
    ensures
        inside(dag, id, dag[store as int].srcs[1]),
        inside(dag, id, id),
{
    let value = dag[store as int].srcs[1];
    lemma_arity(dag, id);
    assert(inside(dag, id, id));
    if store != id {
        assert(dag[id as int].srcs[0] < id);
        assert(dag[id as int].srcs[0] == store);
        assert(draws(dag, id, store));
        assert(inside(dag, id, store));
    }
    lemma_arity(dag, store);
    assert(dag[store as int].srcs[1] < store);
    assert(dag[store as int].srcs[1] == value);
    assert(draws(dag, store, value));
    assert(inside(dag, id, value));
}

/// Whether nothing at or below a node is storage outside of kernels.
pub open spec fn is_closed(dag: Seq<NodeView>, id: usize) -> bool {
    forall|x: usize| #[trigger] reaches(dag, id, x) ==> !is_global(dag[x as int].op)
}

proof fn lemma_closed_extends(dag: Seq<NodeView>, more: Seq<NodeView>, id: usize)
    requires
        dag_wf(dag),
        extends(dag, more),
        id < dag.len(),
        is_closed(dag, id),
    ensures
        is_closed(more, id),
{
    assert forall|x: usize| #[trigger] reaches(more, id, x) implies !is_global(
        more[x as int].op,
    ) by {
        lemma_reaches_extends(dag, more, id, x);
        lemma_reaches_below(dag, id, x);
    }
}

proof fn lemma_put_closed(dag: Seq<NodeView>, node: NodeView)
    requires
        dag_wf(dag),
        arity_ok(node.op, node.srcs.len()),
        !is_global(node.op),
        forall|k: int|
            0 <= k < node.srcs.len() ==> (#[trigger] node.srcs[k]) < dag.len() && is_closed(
                dag,
                node.srcs[k],
            ),
        put(dag, node).dag.len() <= usize::MAX,
    ensures
        ({
            let new = put(dag, node);
            &&& dag_wf(new.dag)
            &&& extends(dag, new.dag)
            &&& new.id < new.dag.len()
            &&& is_closed(new.dag, new.id)
        }),
{
    let new = put(dag, node);
    lemma_interned_wf(dag, node);
    lemma_interned_keeps(dag, node);
    lemma_put(dag, node);
    assert forall|x: usize| #[trigger] reaches(new.dag, new.id, x) implies !is_global(
        new.dag[x as int].op,
    ) by {
        if x != new.id {
            let k = choose|k: int|
                #![trigger new.dag[new.id as int].srcs[k]]
                0 <= k < new.dag[new.id as int].srcs.len() && new.dag[new.id as int].srcs[k]
                    < new.id && reaches(new.dag, new.dag[new.id as int].srcs[k], x);
            assert(node.srcs[k] == new.dag[new.id as int].srcs[k]);
            lemma_closed_extends(dag, new.dag, node.srcs[k]);
        }
    }
}

proof fn lemma_taken_in_grows(dag: Seq<NodeView>, rest: Kernel, u: usize)
    ensures
        rest.dag.len() <= taken_in(dag, rest, u).dag.len(),
{
    let node = dag[u as int];
    match rest.dag[u as int].op {
        Op::Buffer { size, .. } => {
            let extent = put(rest.dag, extent_node(size as i64));
            lemma_interned_keeps(rest.dag, extent_node(size as i64));
            lemma_interned_keeps(
                extent.dag,
                NodeView {
                    op: Op::Param {
                        slot: rest.args.len() as usize,
                        addrspace: Some(AddrSpace::Global),
                    },
                    dtype: rest.dag[u as int].dtype,
                    srcs: seq![extent.id],
                },
            );
        },
        _ => {},
    }
    let copied = with_srcs(node, moved(node.srcs, rest.stands));
    let copy = put(rest.dag, copied);
    lemma_interned_keeps(rest.dag, copied);
    match copy.dag[copy.id as int].op {
        Op::Range { axis, kind } => {
            let own = copy.dag[copy.id as int];
            lemma_interned_keeps(
                copy.dag,
                NodeView {
                    op: Op::Range { axis: AxisId::Renumbered(rest.loops as usize), kind },
                    dtype: own.dtype,
                    srcs: own.srcs,
                },
            );
            lemma_interned_keeps(copy.dag, extent_node(0));
        },
        _ => {},
    }
}

pub(crate) proof fn lemma_gathered_grows(
    dag: Seq<NodeView>,
    root: usize,
    walk: Seq<usize>,
    n: nat,
    m: nat,
)
    requires
        n <= m,
    ensures
        gathered(dag, root, walk, n).dag.len() <= gathered(dag, root, walk, m).dag.len(),
    decreases m,
{
    if n < m {
        lemma_gathered_grows(dag, root, walk, n, (m - 1) as nat);
        let rest = gathered(dag, root, walk, (m - 1) as nat);
        lemma_taken_in_grows(dag, rest, walk[m - 1]);
    }
}

/// What is taken into a kernel reads no storage outside of kernels.
pub(crate) proof fn lemma_taken_in_closed(
    dag: Seq<NodeView>,
    root: usize,
    walk: Seq<usize>,
    n: nat,
)
    requires
        dag_wf(dag),
        root < dag.len(),
        walk == topo(dag, root),
        ordered(dag, walk),
        n <= walk.len(),
        gathered(dag, root, walk, n).dag.len() <= usize::MAX,
    ensures
        ({
            let done = gathered(dag, root, walk, n);
            &&& dag_wf(done.dag)
            &&& extends(dag, done.dag)
            &&& forall|p: int|
                0 <= p < n && inside(dag, root, #[trigger] walk[p]) ==> done.stands[walk[p]]
                    < done.dag.len() && is_closed(done.dag, done.stands[walk[p]])
        }),
    decreases n,
{
    if n > 0 {
        let rest = gathered(dag, root, walk, (n - 1) as nat);
        let done = gathered(dag, root, walk, n);
        let u = walk[n - 1];
        let node = dag[u as int];
        lemma_gathered_grows(dag, root, walk, (n - 1) as nat, n);
        lemma_taken_in_closed(dag, root, walk, (n - 1) as nat);
        if inside(dag, root, u) {
            lemma_arity(dag, u);
            assert(rest.dag[u as int] == node);
            let new = done.stands[u];
            assert(dag_wf(done.dag) && extends(rest.dag, done.dag) && new < done.dag.len()
                && is_closed(done.dag, new)) by {
                if is_global(node.op) {
                    lemma_param_closed(rest.dag, u, rest.args.len() as usize);
                } else if node.op is After {
                    let storage = storage_of(dag, node.srcs[0]);
                    assert(draws(dag, u, storage));
                    lemma_draws_below(dag, u, storage);
                    lemma_drawn_comes_before(dag, walk, n - 1, storage);
                    assert(inside(dag, root, storage));
                    let q = choose|q: int| 0 <= q < n - 1 && #[trigger] walk[q] == storage;
                    assert(walk[q] == storage);
                } else if is_bound(dag, u) {
                    assert(dag[u as int].srcs[0] < u);
                    let var = node.srcs[0];
                    assert(rest.dag[var as int] == dag[var as int]);
                } else {
                    let copied = with_srcs(node, moved(node.srcs, rest.stands));
                    assert forall|k: int| 0 <= k < copied.srcs.len() implies (
                    #[trigger] copied.srcs[k]) < rest.dag.len() && is_closed(
                        rest.dag,
                        copied.srcs[k],
                    ) by {
                        let src = node.srcs[k];
                        assert(draws(dag, u, src));
                        lemma_draws_below(dag, u, src);
                        lemma_drawn_comes_before(dag, walk, n - 1, src);
                        assert(inside(dag, root, src));
                        let q = choose|q: int| 0 <= q < n - 1 && #[trigger] walk[q] == src;
                        assert(walk[q] == src);
                    }
                    let copy = put(rest.dag, copied);
                    lemma_interned_keeps(rest.dag, copied);
                    match node.op {
                        Op::Range { axis: AxisId::Unrenumbered(_), .. } => {
                            lemma_numbered_grows(copy.dag, copy.id, rest.loops as usize);
                            lemma_put_closed(rest.dag, copied);
                            lemma_put(rest.dag, copied);
                            lemma_numbered_closed(copy.dag, copy.id, rest.loops as usize);
                        },
                        _ => {
                            lemma_put_closed(rest.dag, copied);
                        },
                    }
                }
            }
            assert forall|p: int| 0 <= p < n && inside(dag, root, #[trigger] walk[p]) implies
                done.stands[walk[p]] < done.dag.len() && is_closed(
                done.dag,
                done.stands[walk[p]],
            ) by {
                if p < n - 1 {
                    assert(walk[p] != walk[n - 1]);
                    assert(done.stands[walk[p]] == rest.stands[walk[p]]);
                    lemma_closed_extends(rest.dag, done.dag, rest.stands[walk[p]]);
                }
            }
        }
    }
}

proof fn lemma_param_closed(dag: Seq<NodeView>, id: usize, slot: usize)
    requires
        dag_wf(dag),
        id < dag.len(),
        dag[id as int].op is Buffer,
        slot_param(dag, id, slot).dag.len() <= usize::MAX,
    ensures
        ({
            let new = slot_param(dag, id, slot);
            &&& dag_wf(new.dag)
            &&& extends(dag, new.dag)
            &&& new.id < new.dag.len()
            &&& is_closed(new.dag, new.id)
        }),
{
    let node = dag[id as int];
    match node.op {
        Op::Buffer { size, .. } => {
            let held = put(dag, extent_node(size as i64));
            let param = NodeView {
                op: Op::Param { slot, addrspace: Some(AddrSpace::Global) },
                dtype: node.dtype,
                srcs: seq![held.id],
            };
            lemma_interned_keeps(dag, extent_node(size as i64));
            lemma_interned_keeps(held.dag, param);
            lemma_put_closed(dag, extent_node(size as i64));
            lemma_put_closed(held.dag, param);
        },
        _ => {},
    }
}

pub(crate) proof fn lemma_numbered_grows(dag: Seq<NodeView>, id: usize, number: usize)
    ensures
        dag.len() <= numbered(dag, id, number).dag.len(),
{
    let node = dag[id as int];
    match node.op {
        Op::Range { axis, kind } => {
            lemma_interned_keeps(dag, extent_node(0));
            lemma_interned_keeps(
                dag,
                NodeView {
                    op: Op::Range { axis: AxisId::Renumbered(number), kind },
                    dtype: node.dtype,
                    srcs: node.srcs,
                },
            );
        },
        _ => {},
    }
}

proof fn lemma_numbered_closed(dag: Seq<NodeView>, id: usize, number: usize)
    requires
        dag_wf(dag),
        id < dag.len(),
        dag[id as int].op is Range,
        is_closed(dag, id),
        numbered(dag, id, number).dag.len() <= usize::MAX,
    ensures
        ({
            let new = numbered(dag, id, number);
            &&& dag_wf(new.dag)
            &&& extends(dag, new.dag)
            &&& new.id < new.dag.len()
            &&& is_closed(new.dag, new.id)
        }),
{
    let node = dag[id as int];
    lemma_arity(dag, id);
    match node.op {
        Op::Range { axis, kind } => {
            let range = NodeView {
                op: Op::Range { axis: AxisId::Renumbered(number), kind },
                dtype: node.dtype,
                srcs: node.srcs,
            };
            assert forall|k: int| 0 <= k < range.srcs.len() implies (#[trigger] range.srcs[k])
                < dag.len() && is_closed(dag, range.srcs[k]) by {
                let src = dag[id as int].srcs[k];
                assert(src < id);
                assert forall|x: usize| #[trigger] reaches(dag, src, x) implies !is_global(
                    dag[x as int].op,
                ) by {
                    assert(dag[id as int].srcs[k] == src);
                    assert(reaches(dag, id, x));
                }
            }
            if int_of(dag, node.srcs[0]) == Some(0i64) {
                lemma_put_closed(dag, extent_node(0));
            } else {
                lemma_put_closed(dag, range);
            }
        },
        _ => {},
    }
}

/// The body of a kernel reads storage through parameters alone: no storage
/// outside of kernels stands at or below it.
pub proof fn lemma_body_is_closed(dag: Seq<NodeView>, id: usize)
    requires
        dag_wf(dag),
        id < dag.len() <= usize::MAX,
        split(dag, id) matches Some(call) && call.dag.len() <= usize::MAX,
    ensures
        ({
            let call = split(dag, id).unwrap();
            &&& call.dag[call.id as int].op is Call
            &&& is_closed(call.dag, call.dag[call.id as int].srcs[0])
        }),
{
    let store = store_of(dag, id).unwrap();
    let value = dag[store as int].srcs[1];
    let walk = topo(dag, id);
    let kernel = kernel_of(dag, id);
    let sink = NodeView { op: Op::Sink, dtype: DType::Void, srcs: seq![kernel.stands[id]] };
    let body = if dag[value as int].op is Copy {
        Built { dag: kernel.dag, id: kernel.stands[value] }
    } else {
        put(kernel.dag, sink)
    };
    let call = NodeView {
        op: Op::Call,
        dtype: DType::Void,
        srcs: seq![body.id] + (kernel.args + kernel.binds),
    };
    lemma_interned_keeps(kernel.dag, sink);
    lemma_interned_keeps(body.dag, call);
    lemma_topo(dag, id);
    lemma_taken_in_closed(dag, id, walk, walk.len());
    lemma_value_inside(dag, id, store);
    lemma_arity(dag, id);
    lemma_arity(dag, store);
    assert(dag[store as int].srcs[1] < store);
    assert(reaches(dag, value, value));
    assert(dag[store as int].srcs[1] == value);
    assert(reaches(dag, store, value));
    if store != id {
        assert(dag[id as int].srcs[0] == store);
        assert(reaches(dag, id, value));
    }
    assert(walk.contains(value) && walk.contains(id)) by {
        assert(reaches(dag, id, id));
    }
    let p = choose|p: int| 0 <= p < walk.len() && walk[p] == value;
    assert(walk[p] == value);
    let q = choose|q: int| 0 <= q < walk.len() && walk[q] == id;
    assert(walk[q] == id);
    if !(dag[value as int].op is Copy) {
        lemma_put_closed(kernel.dag, sink);
    }
    lemma_put(body.dag, call);
    lemma_closed_extends(body.dag, put(body.dag, call).dag, body.id);
}

} // verus!
