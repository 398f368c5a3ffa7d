//! What a kernel is called with, and what its body computes.

use vstd::prelude::*;

use crate::builders::{const_node, extent_node, lemma_interned_keeps, put, Built};
use crate::graph::{
    dag_wf, lemma_interned_wf, AddrSpace, AxisId, ConstValue, DType, NodeView, Op,
};
use crate::meaning::lemma_arity;
use crate::late::int_of;
use crate::params::storage_of;
use crate::passes::{extends, lemma_put, moved, with_srcs};
use crate::split::{
    draws, gathered, inside, is_bound, is_global, kernel_of, lemma_draws_below,
    lemma_drawn_comes_before, lemma_gathered_grows, lemma_numbered_grows, lemma_taken_in_closed,
    split, store_of, taken_in, Kernel,
};
use crate::topo::{lemma_push_contains, lemma_topo, ordered, topo};

verus! {

/// Whether a node is the parameter of a slot, for storage.
pub open spec fn is_parameter_for(dag: Seq<NodeView>, id: usize, slot: int, node: NodeView) -> bool {
    let now = dag[id as int];
    &&& now.op == (Op::Param { slot: slot as usize, addrspace: Some(AddrSpace::Global) })
    &&& now.dtype == node.dtype
    &&& now.srcs.len() == 1
    &&& node.op matches Op::Buffer { size, .. } && dag[now.srcs[0] as int] == extent_node(
        size as i64,
    )
}

/// Whether a node is a loop under a number of the kernel, over what stands for
/// its sources; a loop without a step is nothing but zero.
pub open spec fn is_loop_for(
    dag: Seq<NodeView>,
    id: usize,
    number: int,
    node: NodeView,
    srcs: Seq<usize>,
) -> bool {
    let now = dag[id as int];
    if int_of(dag, srcs[0]) == Some(0i64) {
        now == const_node(ConstValue::Int(0), DType::WeakInt)
    } else {
        &&& node.op matches Op::Range { kind, .. } && now.op == (Op::Range {
            axis: AxisId::Renumbered(number as usize),
            kind,
        })
        &&& now.dtype == node.dtype
        &&& now.srcs == srcs
    }
}

/// Whether a loop is to take a number of the kernel.
pub open spec fn takes_number(op: Op) -> bool {
    op matches Op::Range { axis: AxisId::Unrenumbered(_), .. }
}

/// What stands for some nodes in a kernel.
pub open spec fn standing(kernel: Kernel, srcs: Seq<usize>) -> Seq<usize> {
    Seq::new(srcs.len(), |k: int| kernel.stands[srcs[k]])
}

/// What stands in a kernel for a node other than storage. What waits is the
/// storage that it waits for, a variable with a value is the bare variable, and a
/// loop has the number that is given. Anything else is itself, over what stands for
/// its sources.
#[verifier::opaque]
pub open spec fn stands_for(dag: Seq<NodeView>, kernel: Kernel, u: usize, number: int) -> bool {
    let node = dag[u as int];
    let new = kernel.stands[u];
    if is_global(node.op) {
        true
    } else if node.op is After {
        new == kernel.stands[storage_of(dag, node.srcs[0])]
    } else if is_bound(dag, u) {
        new == node.srcs[0]
    } else if takes_number(node.op) {
        is_loop_for(kernel.dag, new, number, node, standing(kernel, node.srcs))
    } else {
        kernel.dag[new as int] == with_srcs(node, standing(kernel, node.srcs))
    }
}

/// Whether a kernel is called with the storage and the bound variables of some
/// nodes, each once.
pub open spec fn is_called_with(
    dag: Seq<NodeView>,
    root: usize,
    walk: Seq<usize>,
    n: nat,
    kernel: Kernel,
) -> bool {
    &&& kernel.args.no_duplicates()
    &&& kernel.binds.no_duplicates()
    &&& forall|u: usize| #[trigger]
        kernel.args.contains(u) <==> inside(dag, root, u) && walk.take(n as int).contains(u)
            && is_global(dag[u as int].op)
    &&& forall|u: usize| #[trigger]
        kernel.binds.contains(u) <==> inside(dag, root, u) && walk.take(n as int).contains(u)
            && is_bound(dag, u)
}

/// Whether each argument of a kernel is storage, and the parameter of its slot
/// stands for it.
pub open spec fn has_parameters(dag: Seq<NodeView>, kernel: Kernel) -> bool {
    forall|k: int|
        0 <= k < kernel.args.len() ==> is_parameter_for(
            kernel.dag,
            kernel.stands[#[trigger] kernel.args[k]],
            k,
            dag[kernel.args[k] as int],
        )
}

/// How many loops among the first `n` nodes of a walk take a number of a kernel.
pub open spec fn loops_before(dag: Seq<NodeView>, root: usize, walk: Seq<usize>, n: nat) -> nat
    decreases n,
{
    if n == 0 {
        0
    } else {
        loops_before(dag, root, walk, (n - 1) as nat) + if inside(dag, root, walk[n - 1])
            && takes_number(dag[walk[n - 1] as int].op) {
            1nat
        } else {
            0nat
        }
    }
}

proof fn lemma_kept(dag: Seq<NodeView>, rest: Kernel, done: Kernel, u: usize, number: int)
    requires
        stands_for(dag, rest, u, number),
        extends(rest.dag, done.dag),
        rest.stands[u] < rest.dag.len(),
        done.stands[u] == rest.stands[u],
        takes_number(dag[u as int].op) ==> dag[u as int].srcs.len() > 0,
        forall|x: usize| #[trigger]
            draws(dag, u, x) ==> rest.stands[x] < rest.dag.len() && done.stands[x]
                == rest.stands[x],
    ensures
        stands_for(dag, done, u, number),
{
    reveal(stands_for);
    let node = dag[u as int];
    if is_global(node.op) {
    } else if node.op is After {
        assert(draws(dag, u, storage_of(dag, node.srcs[0])));
    } else if is_bound(dag, u) {
    } else {
        assert forall|k: int| 0 <= k < node.srcs.len() implies done.stands[#[trigger] node.srcs[k]]
            == rest.stands[node.srcs[k]] && rest.stands[node.srcs[k]] < rest.dag.len() by {
            assert(draws(dag, u, node.srcs[k]));
        }
        let list = standing(rest, node.srcs);
        assert(standing(done, node.srcs) =~= list);
        assert(done.dag[rest.stands[u] as int] == rest.dag[rest.stands[u] as int]);
        if takes_number(node.op) {
            assert(list[0] == rest.stands[node.srcs[0]]);
            assert(done.dag[list[0] as int] == rest.dag[list[0] as int]);
            assert(is_loop_for(done.dag, done.stands[u], number, node, list));
        }
    }
}

/// A node that is taken into a kernel.
proof fn lemma_one_more(dag: Seq<NodeView>, rest: Kernel, u: usize)
    requires
        dag_wf(dag),
        dag_wf(rest.dag),
        extends(dag, rest.dag),
        u < dag.len(),
        rest.loops < usize::MAX,
        rest.args.len() < usize::MAX,
        !draws(dag, u, u),
        forall|x: usize| #[trigger] draws(dag, u, x) ==> rest.stands[x] < rest.dag.len(),
        taken_in(dag, rest, u).dag.len() <= usize::MAX,
    ensures
        ({
            let done = taken_in(dag, rest, u);
            &&& stands_for(dag, done, u, rest.loops as int)
            &&& done.loops == rest.loops + if takes_number(dag[u as int].op) {
                1nat
            } else {
                0nat
            }
            &&& done.args == if is_global(dag[u as int].op) {
                rest.args.push(u)
            } else {
                rest.args
            }
            &&& is_global(dag[u as int].op) ==> is_parameter_for(
                done.dag,
                done.stands[u],
                rest.args.len() as int,
                dag[u as int],
            )
            &&& done.binds == if is_bound(dag, u) {
                rest.binds.push(u)
            } else {
                rest.binds
            }
            &&& forall|x: usize| x != u ==> #[trigger] done.stands[x] == rest.stands[x]
        }),
{
    reveal(stands_for);
    let node = dag[u as int];
    assert(rest.dag[u as int] == node);
    lemma_arity(dag, u);
    let done = taken_in(dag, rest, u);
    if is_global(node.op) {
        let size = node.op->Buffer_size;
        let slot = rest.args.len() as usize;
        let first = extent_node(size as i64);
        let extent = put(rest.dag, first);
        let want = NodeView {
            op: Op::Param { slot, addrspace: Some(AddrSpace::Global) },
            dtype: node.dtype,
            srcs: seq![extent.id],
        };
        lemma_interned_keeps(extent.dag, want);
        lemma_put(rest.dag, first);
        lemma_put(extent.dag, want);
    } else if node.op is After {
        assert(draws(dag, u, storage_of(dag, node.srcs[0])));
    } else if is_bound(dag, u) {
    } else {
        assert forall|k: int| 0 <= k < node.srcs.len() implies #[trigger] node.srcs[k] != u
            && rest.stands[node.srcs[k]] < rest.dag.len() by {
            assert(draws(dag, u, node.srcs[k]));
        }
        let list = standing(rest, node.srcs);
        assert(standing(done, node.srcs) =~= list);
        let copied = with_srcs(node, moved(node.srcs, rest.stands));
        assert(copied.srcs =~= list);
        let copy = put(rest.dag, copied);
        if takes_number(node.op) {
            lemma_numbered_grows(copy.dag, copy.id, rest.loops as usize);
            lemma_interned_wf(rest.dag, copied);
            lemma_put(rest.dag, copied);
            let number = rest.loops as usize;
            let zero = const_node(ConstValue::Int(0), DType::WeakInt);
            let kind = node.op->Range_kind;
            let own = NodeView {
                op: Op::Range { axis: AxisId::Renumbered(number), kind },
                dtype: node.dtype,
                srcs: list,
            };
            assert(copy.dag[copy.id as int] == copied);
            assert(list[0] < rest.dag.len());
            assert(copy.dag[list[0] as int] == rest.dag[list[0] as int]);
            if int_of(copy.dag, list[0]) == Some(0i64) {
                lemma_put(copy.dag, zero);
                assert(done.dag[list[0] as int] == copy.dag[list[0] as int]);
            } else {
                lemma_put(copy.dag, own);
                assert(done.dag[list[0] as int] == copy.dag[list[0] as int]);
            }
            assert(is_loop_for(done.dag, done.stands[u], rest.loops as int, node, list));
        } else {
            lemma_put(rest.dag, copied);
        }
    }
}

#[verifier::spinoff_prover]
#[verifier::rlimit(40)]
proof fn lemma_gathered(dag: Seq<NodeView>, root: usize, walk: Seq<usize>, n: nat)
    requires
        dag_wf(dag),
        root < dag.len() <= usize::MAX,
        walk == topo(dag, root),
        ordered(dag, walk),
        walk.len() < usize::MAX,
        n <= walk.len(),
        gathered(dag, root, walk, n).dag.len() <= usize::MAX,
    ensures
        ({
            let done = gathered(dag, root, walk, n);
            &&& done.loops <= n
            &&& done.loops == loops_before(dag, root, walk, n)
            &&& done.args.len() <= n
            &&& has_parameters(dag, done)
            &&& is_called_with(dag, root, walk, n, done)
            &&& forall|p: int|
                0 <= p < n && inside(dag, root, #[trigger] walk[p]) ==> stands_for(
                    dag,
                    done,
                    walk[p],
                    loops_before(dag, root, walk, p as nat) as int,
                )
        }),
    decreases n,
{
    if n > 0 {
        let rest = gathered(dag, root, walk, (n - 1) as nat);
        let done = gathered(dag, root, walk, n);
        let u = walk[n - 1];
        lemma_gathered_grows(dag, root, walk, (n - 1) as nat, n);
        lemma_gathered(dag, root, walk, (n - 1) as nat);
        lemma_taken_in_closed(dag, root, walk, (n - 1) as nat);
        lemma_taken_in_closed(dag, root, walk, n);
        let part = walk.take(n - 1);
        assert(walk.take(n as int) =~= part.push(u));
        assert(!part.contains(u)) by {
            if part.contains(u) {
                let q = part.index_of(u);
                assert(walk[q] == walk[n - 1]);
            }
        }
        if inside(dag, root, u) {
            assert forall|x: usize| #[trigger] draws(dag, u, x) implies x != u && rest.stands[x]
                < rest.dag.len() by {
                lemma_drawn(dag, root, walk, (n - 1) as nat, n - 1, x);
            }
            assert(!draws(dag, u, u));
            lemma_one_more(dag, rest, u);
            lemma_more_called(dag, root, walk, n, rest, done);
            lemma_more_parameters(dag, root, walk, n, rest, done);
            assert forall|p: int| 0 <= p < n && inside(dag, root, #[trigger] walk[p]) implies stands_for(
                dag,
                done,
                walk[p],
                loops_before(dag, root, walk, p as nat) as int,
            ) by {
                if p < n - 1 {
                    assert(walk[p] != walk[n - 1]);
                    assert forall|x: usize| #[trigger] draws(dag, walk[p], x) implies rest.stands[x]
                        < rest.dag.len() && done.stands[x] == rest.stands[x] by {
                        lemma_drawn(dag, root, walk, (n - 1) as nat, p, x);
                    }
                    lemma_arity(dag, walk[p]);
                    let number = loops_before(dag, root, walk, p as nat) as int;
                    lemma_kept(dag, rest, done, walk[p], number);
                } else {
                    assert(p as nat == (n - 1) as nat);
                }
            }
        } else {
            lemma_none_called(dag, root, walk, n, rest);
        }
    } else {
        assert(walk.take(0) =~= Seq::empty());
    }
}

/// What a node of a walk draws in stands before it.
proof fn lemma_drawn(
    dag: Seq<NodeView>,
    root: usize,
    walk: Seq<usize>,
    n: nat,
    p: int,
    x: usize,
)
    requires
        dag_wf(dag),
        root < dag.len() <= usize::MAX,
        walk == topo(dag, root),
        ordered(dag, walk),
        n <= walk.len(),
        0 <= p < walk.len(),
        p <= n,
        inside(dag, root, walk[p]),
        draws(dag, walk[p], x),
        gathered(dag, root, walk, n).dag.len() <= usize::MAX,
    ensures
        x != walk[p],
        n < walk.len() ==> x != walk[n as int],
        gathered(dag, root, walk, n).stands[x] < gathered(dag, root, walk, n).dag.len(),
{
    lemma_draws_below(dag, walk[p], x);
    lemma_drawn_comes_before(dag, walk, p, x);
    lemma_taken_in_closed(dag, root, walk, n);
    let q = choose|q: int| 0 <= q < p && #[trigger] walk[q] == x;
    lemma_inside_below(dag, root, walk[p]);
    assert(inside(dag, root, x));
    assert(inside(dag, root, walk[q]));
}

proof fn lemma_inside_below(dag: Seq<NodeView>, root: usize, id: usize)
    requires
        inside(dag, root, id),
    ensures
        id <= root,
{
}

proof fn lemma_more_called(
    dag: Seq<NodeView>,
    root: usize,
    walk: Seq<usize>,
    n: nat,
    rest: Kernel,
    done: Kernel,
)
    requires
        0 < n <= walk.len(),
        is_called_with(dag, root, walk, (n - 1) as nat, rest),
        inside(dag, root, walk[n - 1]),
        walk.take(n as int) == walk.take(n - 1).push(walk[n - 1]),
        !walk.take(n - 1).contains(walk[n - 1]),
        done.args == if is_global(dag[walk[n - 1] as int].op) {
            rest.args.push(walk[n - 1])
        } else {
            rest.args
        },
        done.binds == if is_bound(dag, walk[n - 1]) {
            rest.binds.push(walk[n - 1])
        } else {
            rest.binds
        },
    ensures
        is_called_with(dag, root, walk, n, done),
{
    let u = walk[n - 1];
    let (part, all) = (walk.take(n - 1), walk.take(n as int));
    assert forall|x: usize| #[trigger] all.contains(x) <==> part.contains(x) || x == u by {
        lemma_push_contains(part, u, x);
    }
    assert(!rest.args.contains(u) && !rest.binds.contains(u));
    assert forall|x: usize| #[trigger] done.args.contains(x) <==> inside(dag, root, x)
        && all.contains(x) && is_global(dag[x as int].op) by {
        if is_global(dag[u as int].op) {
            lemma_push_contains(rest.args, u, x);
        }
        assert(rest.args.contains(x) <==> inside(dag, root, x) && part.contains(x) && is_global(
            dag[x as int].op,
        ));
    }
    assert forall|x: usize| #[trigger] done.binds.contains(x) <==> inside(dag, root, x)
        && all.contains(x) && is_bound(dag, x) by {
        if is_bound(dag, u) {
            lemma_push_contains(rest.binds, u, x);
        }
        assert(rest.binds.contains(x) <==> inside(dag, root, x) && part.contains(x) && is_bound(
            dag,
            x,
        ));
    }
}

proof fn lemma_none_called(
    dag: Seq<NodeView>,
    root: usize,
    walk: Seq<usize>,
    n: nat,
    rest: Kernel,
)
    requires
        0 < n <= walk.len(),
        is_called_with(dag, root, walk, (n - 1) as nat, rest),
        !inside(dag, root, walk[n - 1]),
        walk.take(n as int) == walk.take(n - 1).push(walk[n - 1]),
    ensures
        is_called_with(dag, root, walk, n, rest),
{
    let u = walk[n - 1];
    let (part, all) = (walk.take(n - 1), walk.take(n as int));
    assert forall|x: usize| #[trigger] all.contains(x) <==> part.contains(x) || x == u by {
        lemma_push_contains(part, u, x);
    }
    assert forall|x: usize| #[trigger] rest.args.contains(x) <==> inside(dag, root, x)
        && all.contains(x) && is_global(dag[x as int].op) by {
        assert(all.contains(x) <==> part.contains(x) || x == u);
    }
    assert forall|x: usize| #[trigger] rest.binds.contains(x) <==> inside(dag, root, x)
        && all.contains(x) && is_bound(dag, x) by {
        assert(all.contains(x) <==> part.contains(x) || x == u);
    }
}

proof fn lemma_more_parameters(
    dag: Seq<NodeView>,
    root: usize,
    walk: Seq<usize>,
    n: nat,
    rest: Kernel,
    done: Kernel,
)
    requires
        0 < n <= walk.len(),
        has_parameters(dag, rest),
        dag_wf(rest.dag),
        extends(rest.dag, done.dag),
        is_called_with(dag, root, walk, (n - 1) as nat, rest),
        !walk.take(n - 1).contains(walk[n - 1]),
        forall|p: int|
            0 <= p < n - 1 && inside(dag, root, #[trigger] walk[p]) ==> rest.stands[walk[p]]
                < rest.dag.len(),
        done.args == if is_global(dag[walk[n - 1] as int].op) {
            rest.args.push(walk[n - 1])
        } else {
            rest.args
        },
        is_global(dag[walk[n - 1] as int].op) ==> is_parameter_for(
            done.dag,
            done.stands[walk[n - 1]],
            rest.args.len() as int,
            dag[walk[n - 1] as int],
        ),
        forall|x: usize| x != walk[n - 1] ==> #[trigger] done.stands[x] == rest.stands[x],
    ensures
        has_parameters(dag, done),
{
    let part = walk.take(n - 1);
    assert forall|k: int| 0 <= k < done.args.len() implies is_parameter_for(
        done.dag,
        done.stands[#[trigger] done.args[k]],
        k,
        dag[done.args[k] as int],
    ) by {
        if k < rest.args.len() {
            let x = rest.args[k];
            assert(done.args[k] == x);
            assert(rest.args.contains(x));
            assert(part.contains(x));
            let q = part.index_of(x);
            assert(walk[q] == x);
            let at = rest.stands[x];
            assert(done.dag[at as int] == rest.dag[at as int]);
            assert(is_parameter_for(rest.dag, at, k, dag[x as int]));
            assert(rest.dag[at as int].srcs[0] < at);
            assert(done.dag[rest.dag[at as int].srcs[0] as int]
                == rest.dag[rest.dag[at as int].srcs[0] as int]);
        }
    }
}

/// A store that becomes a kernel is called with the storage and the variables
/// that the kernel holds, each once, in that order; in the body the parameter of
/// each slot stands for the storage at that place among the arguments, the loops
/// are numbered in order, and all else is computed as before.
pub proof fn lemma_kernel_computes_what_was_stored(dag: Seq<NodeView>, id: usize, store: usize)
    requires
        dag_wf(dag),
        id < dag.len() <= usize::MAX,
        split(dag, id) is Some,
        split(dag, id)->0.dag.len() <= usize::MAX,
        topo(dag, id).len() < usize::MAX,
        dag[store as int].op is Store,
        store == id || dag[id as int].op is End && dag[id as int].srcs[0] == store,
    ensures
        ({
            let call = split(dag, id)->0;
            let own = call.dag[call.id as int];
            let walk = topo(dag, id);
            let value = dag[store as int].srcs[1];
            let kernel = kernel_of(dag, id);
            &&& own.op is Call
            &&& own.srcs.len() == 1 + kernel.args.len() + kernel.binds.len()
            &&& own.srcs.skip(1) == kernel.args + kernel.binds
            &&& is_called_with(dag, id, walk, walk.len(), kernel)
            &&& has_parameters(dag, kernel)
            &&& extends(kernel.dag, call.dag)
            &&& forall|p: int|
                0 <= p < walk.len() && inside(dag, id, #[trigger] walk[p]) ==> stands_for(
                    dag,
                    kernel,
                    walk[p],
                    loops_before(dag, id, walk, p as nat) as int,
                )
            &&& if dag[value as int].op is Copy {
                own.srcs[0] == kernel.stands[value]
            } else {
                call.dag[own.srcs[0] as int].op is Sink && call.dag[own.srcs[0] as int].srcs
                    == seq![kernel.stands[id]]
            }
        }),
{
    let walk = topo(dag, id);
    let kernel = kernel_of(dag, id);
    let value = dag[store as int].srcs[1];
    assert(store_of(dag, id) == Some(store));
    let sink = NodeView { op: Op::Sink, dtype: DType::Void, srcs: seq![kernel.stands[id]] };
    let body = if dag[value as int].op is Copy {
        Built { dag: kernel.dag, id: kernel.stands[value] }
    } else {
        put(kernel.dag, sink)
    };
    let want = NodeView {
        op: Op::Call,
        dtype: DType::Void,
        srcs: seq![body.id] + (kernel.args + kernel.binds),
    };
    lemma_interned_keeps(kernel.dag, sink);
    lemma_interned_keeps(body.dag, want);
    lemma_topo(dag, id);
    lemma_gathered(dag, id, walk, walk.len());
    assert(walk.take(walk.len() as int) =~= walk);
    if !(dag[value as int].op is Copy) {
        lemma_put(kernel.dag, sink);
    }
    lemma_put(body.dag, want);
    let call = put(body.dag, want);
    assert(split(dag, id) == Some(call));
    assert(want.srcs.skip(1) =~= kernel.args + kernel.binds);
}

} // verus!
