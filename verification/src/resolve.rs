//! Functions put in the place of their uses.

use vstd::prelude::*;

use crate::builders::{lemma_interned_keeps, put};
use crate::graph::{arity_ok, dag_wf, lemma_id_of, lemma_interned_wf, Graph, NodeView, Op};
use crate::meaning::lemma_arity;
use crate::passes::{extends, lemma_put, with_srcs};
use crate::shape::{dims, find_dims, same_list};
use crate::subst::{
    find_visible, is_body, is_opaque, lemma_visible_source, lookup, moved_outside, opaque_op,
    subst_walk, substitute, substituted, visible,
};
use crate::topo::{lemma_reaches_below, lemma_topo, ordered, reaches, topo};

verus! {

/// Why a function cannot be put in the place of its use.
#[derive(Clone, Copy, Debug, PartialEq, Eq, Structural)]
pub enum CallError {
    /// The body has a parameter for which there is no argument.
    FormalSlotMissing { slot: usize, arg_count: usize },
    /// An argument and its parameter have different types.
    ArgDTypeMismatch { arg_index: usize },
    /// An argument and its parameter have different shapes.
    ArgShapeMismatch { arg_index: usize },
}

/// Whether two shapes are known and differ.
pub open spec fn shapes_differ(a: Option<Seq<usize>>, b: Option<Seq<usize>>) -> bool {
    a is Some && b is Some && a != b
}

/// What is wrong with the argument for a parameter.
pub open spec fn formal_error(dag: Seq<NodeView>, id: usize, args: Seq<usize>) -> Option<CallError> {
    match dag[id as int].op {
        Op::Param { slot, .. } => if slot >= args.len() {
            Some(CallError::FormalSlotMissing { slot, arg_count: args.len() as usize })
        } else if dag[id as int].dtype != dag[args[slot as int] as int].dtype {
            Some(CallError::ArgDTypeMismatch { arg_index: slot })
        } else if shapes_differ(dims(dag, id), dims(dag, args[slot as int])) {
            Some(CallError::ArgShapeMismatch { arg_index: slot })
        } else {
            None
        },
        _ => None,
    }
}

/// What is wrong first with the arguments for the parameters among the first
/// `n` nodes of a body.
pub open spec fn first_error(
    dag: Seq<NodeView>,
    body: usize,
    args: Seq<usize>,
    n: nat,
) -> Option<CallError>
    decreases n,
{
    if n == 0 {
        None
    } else {
        match first_error(dag, body, args, (n - 1) as nat) {
            Some(error) => Some(error),
            None => if visible(dag, body, topo(dag, body)[n - 1]) {
                formal_error(dag, topo(dag, body)[n - 1], args)
            } else {
                None
            },
        }
    }
}

/// The parameters among the first `n` nodes of a body, with their arguments.
pub open spec fn bound_params(
    dag: Seq<NodeView>,
    body: usize,
    args: Seq<usize>,
    n: nat,
) -> Seq<(usize, usize)>
    decreases n,
{
    if n == 0 {
        Seq::empty()
    } else {
        let rest = bound_params(dag, body, args, (n - 1) as nat);
        let u = topo(dag, body)[n - 1];
        match dag[u as int].op {
            Op::Param { slot, .. } => if visible(dag, body, u) {
                rest.push((u, args[slot as int]))
            } else {
                rest
            },
            _ => rest,
        }
    }
}

/// A body with arguments put in the place of its parameters.
pub open spec fn inlined(dag: Seq<NodeView>, body: usize, args: Seq<usize>) -> (
    Seq<NodeView>,
    Result<usize, CallError>,
) {
    let len = topo(dag, body).len();
    match first_error(dag, body, args, len) {
        Some(error) => (dag, Err(error)),
        None => {
            let new = substituted(dag, body, bound_params(dag, body, args, len));
            (new.dag, Ok(new.id))
        },
    }
}

/// A graph in the middle of resolving, and what stands for the nodes so far.
pub struct Resolving {
    pub dag: Seq<NodeView>,
    pub stands: Map<usize, Result<usize, CallError>>,
}

/// The first error among the first `n` sources of a node, bodies left out.
pub open spec fn source_error(
    node: NodeView,
    stands: Map<usize, Result<usize, CallError>>,
    n: nat,
) -> Option<CallError>
    decreases n,
{
    if n == 0 {
        None
    } else {
        match source_error(node, stands, (n - 1) as nat) {
            Some(error) => Some(error),
            None => if is_body(node.op, n - 1) {
                None
            } else {
                match stands[node.srcs[n - 1]] {
                    Ok(_) => None,
                    Err(error) => Some(error),
                }
            },
        }
    }
}

/// The sources that stand for those of a node; an opaque node keeps its body.
pub open spec fn settled(node: NodeView, stands: Map<usize, Result<usize, CallError>>) -> Seq<
    usize,
> {
    Seq::new(
        node.srcs.len(),
        |k: int|
            if is_body(node.op, k) {
                node.srcs[k]
            } else {
                match stands[node.srcs[k]] {
                    Ok(id) => id,
                    Err(_) => 0,
                }
            },
    )
}

/// A node over resolved sources: a function that is not compiled ahead of time
/// is its body over the arguments, and the element of a tuple is that element.
pub open spec fn placed(dag: Seq<NodeView>, node: NodeView, list: Seq<usize>) -> (
    Seq<NodeView>,
    Result<usize, CallError>,
) {
    let copy = put(dag, with_srcs(node, list));
    match node.op {
        Op::Function { precompile: false } => inlined(dag, list[0], list.skip(1)),
        Op::GetTuple(at) => if dag[list[0] as int].op is Tuple && at < dag[list[0] as int].srcs.len() {
            (dag, Ok(dag[list[0] as int].srcs[at as int]))
        } else {
            (copy.dag, Ok(copy.id))
        },
        _ => (copy.dag, Ok(copy.id)),
    }
}

/// The first `n` nodes of a walk resolved.
pub open spec fn resolving(dag: Seq<NodeView>, root: usize, walk: Seq<usize>, n: nat) -> Resolving
    decreases n,
{
    if n == 0 {
        Resolving { dag, stands: Map::empty() }
    } else {
        let rest = resolving(dag, root, walk, (n - 1) as nat);
        let u = walk[n - 1];
        let node = dag[u as int];
        if !visible(dag, root, u) {
            rest
        } else {
            match source_error(node, rest.stands, node.srcs.len()) {
                Some(error) => Resolving {
                    dag: rest.dag,
                    stands: rest.stands.insert(u, Err(error)),
                },
                None => {
                    let (more, new) = placed(rest.dag, node, settled(node, rest.stands));
                    Resolving { dag: more, stands: rest.stands.insert(u, new) }
                },
            }
        }
    }
}

/// Everything at and below a root resolved.
pub open spec fn resolved(dag: Seq<NodeView>, root: usize) -> (
    Seq<NodeView>,
    Result<usize, CallError>,
) {
    let walk = topo(dag, root);
    let done = resolving(dag, root, walk, walk.len());
    (done.dag, done.stands[root])
}

fn formal_problem(graph: &Graph, id: usize, args: &Vec<usize>) -> (error: Option<CallError>)
    requires
        graph.wf(),
        id < graph@.len(),
        forall|k: int| 0 <= k < args@.len() ==> (#[trigger] args@[k]) < graph@.len(),
    ensures
        error == formal_error(graph@, id, args@),
{
    match graph.op(id) {
        Op::Param { slot, .. } => {
            if slot >= args.len() {
                return Some(CallError::FormalSlotMissing { slot, arg_count: args.len() });
            }
            let arg: usize = args[slot];
            if graph.dtype(id) != graph.dtype(arg) {
                return Some(CallError::ArgDTypeMismatch { arg_index: slot });
            }
            let formal = find_dims(graph, id);
            let actual = find_dims(graph, arg);
            match (&formal, &actual) {
                (Some(a), Some(b)) => {
                    if same_list(a, b) {
                        None
                    } else {
                        Some(CallError::ArgShapeMismatch { arg_index: slot })
                    }
                },
                _ => None,
            }
        },
        _ => None,
    }
}

proof fn lemma_no_error(dag: Seq<NodeView>, body: usize, args: Seq<usize>, k: nat, n: nat)
    requires
        k <= n,
        first_error(dag, body, args, k) is Some,
    ensures
        first_error(dag, body, args, n) == first_error(dag, body, args, k),
    decreases n,
{
    if k < n {
        lemma_no_error(dag, body, args, k, (n - 1) as nat);
    }
}

fn inline(graph: &mut Graph, body: usize, args: &Vec<usize>) -> (new: Result<usize, CallError>)
    requires
        old(graph).wf(),
        body < old(graph)@.len(),
        forall|k: int| 0 <= k < args@.len() ==> (#[trigger] args@[k]) < old(graph)@.len(),
    ensures
        final(graph).wf(),
        extends(old(graph)@, final(graph)@),
        (final(graph)@, new) == inlined(old(graph)@, body, args@),
        new matches Ok(id) ==> id < final(graph)@.len(),
{
    let ghost dag = graph@;
    let walk = graph.toposort(body);
    let seen = find_visible(graph, body);
    proof {
        lemma_topo(dag, body);
    }
    let mut pairs: Vec<(usize, usize)> = Vec::new();
    let mut n: usize = 0;
    while n < walk.len()
        invariant
            graph.wf(),
            dag == graph@,
            body < dag.len(),
            forall|k: int| 0 <= k < args@.len() ==> (#[trigger] args@[k]) < dag.len(),
            walk@ == topo(dag, body),
            ordered(dag, walk@),
            forall|x: usize| #[trigger] walk@.contains(x) <==> reaches(dag, body, x),
            seen@.len() == body + 1,
            forall|x: usize| x <= body ==> #[trigger] seen@[x as int] == visible(dag, body, x),
            n <= walk@.len(),
            first_error(dag, body, args@, n as nat) is None,
            pairs@ == bound_params(dag, body, args@, n as nat),
            forall|i: int| 0 <= i < pairs@.len() ==> (#[trigger] pairs@[i]).1 < dag.len(),
        decreases walk@.len() - n,
    {
        let u: usize = walk[n];
        proof {
            assert(walk@.contains(u));
            lemma_reaches_below(dag, body, u);
        }
        let shown: bool = seen[u];
        assert(shown == visible(dag, body, u));
        if shown {
            match formal_problem(graph, u, args) {
                Some(error) => {
                    proof {
                        lemma_no_error(dag, body, args@, (n + 1) as nat, walk@.len());
                    }
                    return Err(error);
                },
                None => {},
            }
            match graph.op(u) {
                Op::Param { slot, .. } => {
                    pairs.push((u, args[slot]));
                },
                _ => {},
            }
        }
        n += 1;
    }
    Ok(substitute(graph, body, &pairs))
}

fn place(graph: &mut Graph, op: Op, like: usize, list: &Vec<usize>) -> (new: Result<
    usize,
    CallError,
>)
    requires
        old(graph).wf(),
        like < old(graph)@.len(),
        op == old(graph)@[like as int].op,
        list@.len() == old(graph)@[like as int].srcs.len(),
        forall|k: int| 0 <= k < list@.len() ==> (#[trigger] list@[k]) < old(graph)@.len(),
    ensures
        final(graph).wf(),
        extends(old(graph)@, final(graph)@),
        (final(graph)@, new) == placed(old(graph)@, old(graph)@[like as int], list@),
        new matches Ok(id) ==> id < final(graph)@.len(),
{
    let ghost dag = graph@;
    let ghost node = dag[like as int];
    proof {
        lemma_arity(dag, like);
    }
    match op {
        Op::Function { precompile } => {
            if !precompile {
                let mut args: Vec<usize> = Vec::new();
                let mut k: usize = 1;
                while k < list.len()
                    invariant
                        1 <= k <= list@.len(),
                        args@ == list@.subrange(1, k as int),
                    decreases list@.len() - k,
                {
                    args.push(list[k]);
                    k += 1;
                    assert(args@ =~= list@.subrange(1, k as int));
                }
                assert(args@ =~= list@.skip(1));
                assert forall|k: int| 0 <= k < args@.len() implies (#[trigger] args@[k])
                    < dag.len() by {
                    assert(args@[k] == list@[k + 1]);
                }
                return inline(graph, list[0], &args);
            }
        },
        Op::GetTuple(at) => {
            let src: usize = list[0];
            let tuple: bool = match graph.op(src) {
                Op::Tuple => true,
                _ => false,
            };
            if tuple && at < graph.source_count(src) {
                return Ok(graph.source(src, at));
            }
        },
        _ => {},
    }
    let dtype = graph.dtype(like);
    let copy: usize = graph.node(op, dtype, list.as_slice());
    proof {
        lemma_interned_keeps(dag, with_srcs(node, list@));
    }
    Ok(copy)
}

/// Puts functions in the place of their uses, everywhere at and below a root
/// outside of opaque bodies; see `resolved`.
pub fn resolve_calls(graph: &mut Graph, root: usize) -> (new: Result<usize, CallError>)
    requires
        old(graph).wf(),
        root < old(graph)@.len(),
    ensures
        final(graph).wf(),
        extends(old(graph)@, final(graph)@),
        (final(graph)@, new) == resolved(old(graph)@, root),
        new matches Ok(id) ==> id < final(graph)@.len(),
{
    let ghost dag = graph@;
    let walk = graph.toposort(root);
    let seen = find_visible(graph, root);
    proof {
        lemma_topo(dag, root);
    }
    let mut stands: Vec<Result<usize, CallError>> = Vec::new();
    let mut id: usize = 0;
    while id < root
        invariant
            id <= root,
            stands@.len() == id,
        decreases root - id,
    {
        stands.push(Ok(0));
        id += 1;
    }
    stands.push(Ok(0));
    let mut n: usize = 0;
    while n < walk.len()
        invariant
            graph.wf(),
            dag_wf(dag),
            extends(dag, graph@),
            root < dag.len(),
            walk@ == topo(dag, root),
            ordered(dag, walk@),
            forall|x: usize| #[trigger] walk@.contains(x) <==> reaches(dag, root, x),
            seen@.len() == root + 1,
            forall|x: usize| x <= root ==> #[trigger] seen@[x as int] == visible(dag, root, x),
            stands@.len() == root + 1,
            n <= walk@.len(),
            graph@ == resolving(dag, root, walk@, n as nat).dag,
            forall|p: int|
                0 <= p < n && visible(dag, root, #[trigger] walk@[p]) ==> stands@[walk@[p] as int]
                    == resolving(dag, root, walk@, n as nat).stands[walk@[p]]
                    && (stands@[walk@[p] as int] matches Ok(id) ==> id < graph@.len()),
        decreases walk@.len() - n,
    {
        let u: usize = walk[n];
        let ghost node = dag[u as int];
        let ghost rest = resolving(dag, root, walk@, n as nat);
        proof {
            assert(walk@.contains(u));
            lemma_reaches_below(dag, root, u);
            lemma_arity(dag, u);
            assert(graph@[u as int] == node);
        }
        let shown: bool = seen[u];
        assert(shown == visible(dag, root, u));
        if shown {
            let ghost held = graph@;
            let ghost before = stands@;
            let op = graph.op(u);
            let count: usize = graph.source_count(u);
            let hidden: bool = opaque_op(op);
            let mut list: Vec<usize> = Vec::new();
            let mut problem: Option<CallError> = None;
            let mut k: usize = 0;
            while k < count
                invariant
                    graph.wf(),
                    dag_wf(dag),
                    graph@ == held,
                    extends(dag, held),
                    ordered(dag, walk@),
                    n < walk@.len(),
                    u == walk@[n as int],
                    u <= root < dag.len(),
                    visible(dag, root, u),
                    node == dag[u as int],
                    graph@[u as int] == node,
                    op == node.op,
                    hidden == is_opaque(op),
                    count == node.srcs.len(),
                    stands@.len() == root + 1,
                    stands@ == before,
                    forall|p: int|
                        0 <= p < n && visible(dag, root, #[trigger] walk@[p])
                            ==> stands@[walk@[p] as int] == rest.stands[walk@[p]] && (
                        stands@[walk@[p] as int] matches Ok(id) ==> id < graph@.len()),
                    k <= count,
                    problem == source_error(node, rest.stands, k as nat),
                    problem is None ==> list@ == settled(node, rest.stands).take(k as int),
                    problem is None ==> forall|j: int|
                        0 <= j < list@.len() ==> (#[trigger] list@[j]) < graph@.len(),
                decreases count - k,
            {
                let src: usize = graph.source(u, k);
                if hidden && k == 0 {
                    list.push(src);
                } else {
                    proof {
                        lemma_visible_source(dag, root, u, k as int);
                        assert(dag[walk@[n as int] as int].srcs[k as int] == src);
                        let q = choose|q: int| 0 <= q < n && #[trigger] walk@[q] == src;
                        assert(walk@[q] == src);
                    }
                    match stands[src] {
                        Ok(id) => {
                            list.push(id);
                        },
                        Err(error) => {
                            if problem.is_none() {
                                problem = Some(error);
                            }
                        },
                    }
                }
                k += 1;
                proof {
                    if problem is None {
                        assert(list@ =~= settled(node, rest.stands).take(k as int));
                    }
                }
            }
            let new: Result<usize, CallError> = match problem {
                Some(error) => Err(error),
                None => {
                    assert(list@ =~= settled(node, rest.stands));
                    place(graph, op, u, &list)
                },
            };
            stands.set(u, new);
            proof {
                let now = resolving(dag, root, walk@, (n + 1) as nat);
                assert(now.stands == rest.stands.insert(u, new));
                assert forall|p: int|
                    0 <= p < n + 1 && visible(dag, root, #[trigger] walk@[p]) implies stands@[walk@[p] as int]
                    == now.stands[walk@[p]] && (stands@[walk@[p] as int] matches Ok(id) ==> id
                    < graph@.len()) by {
                    if p < n {
                        assert(walk@[p] != walk@[n as int]);
                        assert(before[walk@[p] as int] == rest.stands[walk@[p]]);
                    }
                }
            }
        }
        n += 1;
    }
    proof {
        assert(walk@[walk@.len() - 1] == root);
        assert(visible(dag, root, root));
    }
    stands[root]
}

proof fn lemma_resolved_walk(dag: Seq<NodeView>, root: usize, n: nat)
    requires
        dag_wf(dag),
        root < dag.len() <= usize::MAX,
        n <= topo(dag, root).len(),
        forall|x: usize| #[trigger]
            visible(dag, root, x) ==> dag[x as int].op != (Op::Function { precompile: false })
                && !(dag[x as int].op is GetTuple),
    ensures
        ({
            let walk = topo(dag, root);
            let done = resolving(dag, root, walk, n);
            &&& done.dag == dag
            &&& forall|p: int|
                0 <= p < n && visible(dag, root, #[trigger] walk[p]) ==> done.stands[walk[p]]
                    == Ok::<usize, CallError>(walk[p])
        }),
    decreases n,
{
    let walk = topo(dag, root);
    lemma_topo(dag, root);
    if n > 0 {
        lemma_resolved_walk(dag, root, (n - 1) as nat);
        let rest = resolving(dag, root, walk, (n - 1) as nat);
        let u = walk[n - 1];
        let node = dag[u as int];
        assert(walk.contains(u));
        lemma_reaches_below(dag, root, u);
        lemma_arity(dag, u);
        if visible(dag, root, u) {
            assert forall|k: int|
                0 <= k < node.srcs.len() && !is_body(node.op, k) implies #[trigger] rest.stands[node.srcs[k]]
                == Ok::<usize, CallError>(node.srcs[k]) by {
                lemma_visible_source(dag, root, u, k);
                assert(dag[walk[n - 1] as int].srcs[k] == node.srcs[k]);
                let q = choose|q: int| 0 <= q < n - 1 && #[trigger] walk[q] == node.srcs[k];
                assert(walk[q] == node.srcs[k]);
            }
            lemma_no_source_error(node, rest.stands, node.srcs.len());
            assert(settled(node, rest.stands) =~= node.srcs);
            assert(with_srcs(node, node.srcs) == node);
            assert(dag.contains(node)) by {
                assert(dag[u as int] == node);
            }
            lemma_id_of(dag, u);
            let done = resolving(dag, root, walk, n);
            assert forall|p: int| 0 <= p < n && visible(dag, root, #[trigger] walk[p]) implies
                done.stands[walk[p]] == Ok::<usize, CallError>(walk[p]) by {
                if p < n - 1 {
                    assert(walk[p] != walk[n - 1]);
                }
            }
        }
    }
}

proof fn lemma_no_source_error(
    node: NodeView,
    stands: Map<usize, Result<usize, CallError>>,
    n: nat,
)
    requires
        n <= node.srcs.len(),
        forall|k: int|
            0 <= k < node.srcs.len() && !is_body(node.op, k) ==> (
            #[trigger] stands[node.srcs[k]]) is Ok,
    ensures
        source_error(node, stands, n) is None,
    decreases n,
{
    if n > 0 {
        lemma_no_source_error(node, stands, (n - 1) as nat);
        if !is_body(node.op, n - 1) {
            assert(stands[node.srcs[n - 1]] is Ok);
        }
    }
}

/// A graph without functions to put in and without elements of tuples is
/// returned as it is.
pub proof fn lemma_nothing_to_resolve(dag: Seq<NodeView>, root: usize)
    requires
        dag_wf(dag),
        root < dag.len() <= usize::MAX,
        forall|x: usize| #[trigger]
            visible(dag, root, x) ==> dag[x as int].op != (Op::Function { precompile: false })
                && !(dag[x as int].op is GetTuple),
    ensures
        resolved(dag, root) == (dag, Ok::<usize, CallError>(root)),
{
    let walk = topo(dag, root);
    lemma_topo(dag, root);
    lemma_resolved_walk(dag, root, walk.len());
    assert(walk[walk.len() - 1] == root);
    assert(visible(dag, root, root));
}

/// Whether no function is left to put in at and below a node.
pub open spec fn function_free(dag: Seq<NodeView>, id: usize) -> bool {
    forall|x: usize| #[trigger]
        visible(dag, id, x) ==> dag[x as int].op != (Op::Function { precompile: false })
}

/// What is visible from a node is the node, or visible from an open source.
pub proof fn lemma_visible_step(dag: Seq<NodeView>, id: usize, x: usize)
    requires
        dag_wf(dag),
        id < dag.len(),
        visible(dag, id, x),
    ensures
        x <= id,
        x == id || exists|k: int|
            #![trigger dag[id as int].srcs[k]]
            0 <= k < dag[id as int].srcs.len() && !is_body(dag[id as int].op, k) && visible(
                dag,
                dag[id as int].srcs[k],
                x,
            ),
    decreases id - x,
{
    if x != id {
        let (p, k) = choose|p: usize, k: int|
            #![trigger dag[p as int].srcs[k]]
            x < p <= id && 0 <= k < dag[p as int].srcs.len() && dag[p as int].srcs[k] == x
                && !is_body(dag[p as int].op, k) && visible(dag, id, p);
        if p == id {
            assert(visible(dag, dag[id as int].srcs[k], x));
        } else {
            lemma_visible_step(dag, id, p);
            let j = choose|j: int|
                #![trigger dag[id as int].srcs[j]]
                0 <= j < dag[id as int].srcs.len() && !is_body(dag[id as int].op, j) && visible(
                    dag,
                    dag[id as int].srcs[j],
                    p,
                );
            let s = dag[id as int].srcs[j];
            assert(s < id);
            lemma_visible_step(dag, s, p);
            assert(dag[p as int].srcs[k] == x);
            assert(visible(dag, s, x));
        }
    }
}

/// A graph that grows shows no more below a node.
pub proof fn lemma_visible_extends(dag: Seq<NodeView>, more: Seq<NodeView>, id: usize, x: usize)
    requires
        extends(dag, more),
        id < dag.len(),
        visible(more, id, x),
    ensures
        visible(dag, id, x),
    decreases id - x,
{
    if x != id {
        let (p, k) = choose|p: usize, k: int|
            #![trigger more[p as int].srcs[k]]
            x < p <= id && 0 <= k < more[p as int].srcs.len() && more[p as int].srcs[k] == x
                && !is_body(more[p as int].op, k) && visible(more, id, p);
        lemma_visible_extends(dag, more, id, p);
        assert(more[p as int] == dag[p as int]);
        assert(dag[p as int].srcs[k] == x);
    }
}

proof fn lemma_free_extends(dag: Seq<NodeView>, more: Seq<NodeView>, id: usize)
    requires
        dag_wf(more),
        extends(dag, more),
        id < dag.len(),
        function_free(dag, id),
    ensures
        function_free(more, id),
{
    assert forall|x: usize| #[trigger] visible(more, id, x) implies more[x as int].op != (
    Op::Function { precompile: false }) by {
        lemma_visible_extends(dag, more, id, x);
        lemma_visible_step(more, id, x);
        assert(more[x as int] == dag[x as int]);
    }
}

proof fn lemma_free_put(dag: Seq<NodeView>, node: NodeView)
    requires
        dag_wf(dag),
        arity_ok(node.op, node.srcs.len()),
        node.op != (Op::Function { precompile: false }),
        forall|k: int|
            0 <= k < node.srcs.len() ==> (#[trigger] node.srcs[k]) < dag.len() && (!is_body(
                node.op,
                k,
            ) ==> function_free(dag, node.srcs[k])),
        put(dag, node).dag.len() <= usize::MAX,
    ensures
        dag_wf(put(dag, node).dag),
        extends(dag, put(dag, node).dag),
        put(dag, node).id < put(dag, node).dag.len(),
        function_free(put(dag, node).dag, put(dag, node).id),
{
    let new = put(dag, node);
    lemma_interned_wf(dag, node);
    lemma_interned_keeps(dag, node);
    lemma_put(dag, node);
    assert forall|x: usize| #[trigger] visible(new.dag, new.id, x) implies new.dag[x as int].op != (
    Op::Function { precompile: false }) by {
        lemma_visible_step(new.dag, new.id, x);
        if x != new.id {
            let k = choose|k: int|
                #![trigger new.dag[new.id as int].srcs[k]]
                0 <= k < new.dag[new.id as int].srcs.len() && !is_body(
                    new.dag[new.id as int].op,
                    k,
                ) && visible(new.dag, new.dag[new.id as int].srcs[k], x);
            assert(node.srcs[k] < dag.len());
            lemma_free_extends(dag, new.dag, node.srcs[k]);
        }
    }
}

proof fn lemma_free_subst(
    dag: Seq<NodeView>,
    root: usize,
    pairs: Seq<(usize, usize)>,
    n: nat,
)
    requires
        dag_wf(dag),
        root < dag.len(),
        function_free(dag, root),
        n <= topo(dag, root).len(),
        forall|i: int|
            0 <= i < pairs.len() ==> (#[trigger] pairs[i]).1 < dag.len() && function_free(
                dag,
                pairs[i].1,
            ),
        subst_walk(dag, root, pairs, topo(dag, root), n).dag.len() <= usize::MAX,
    ensures
        ({
            let walk = topo(dag, root);
            let done = subst_walk(dag, root, pairs, walk, n);
            &&& dag_wf(done.dag)
            &&& extends(dag, done.dag)
            &&& forall|p: int|
                0 <= p < n && visible(dag, root, #[trigger] walk[p]) ==> done.stands[walk[p]]
                    < done.dag.len() && function_free(done.dag, done.stands[walk[p]])
        }),
    decreases n,
{
    let walk = topo(dag, root);
    lemma_topo(dag, root);
    if n > 0 {
        let rest = subst_walk(dag, root, pairs, walk, (n - 1) as nat);
        let done = subst_walk(dag, root, pairs, walk, n);
        let u = walk[n - 1];
        let node = dag[u as int];
        let copied = with_srcs(node, moved_outside(node, rest.stands));
        assert(walk.contains(u));
        lemma_reaches_below(dag, root, u);
        lemma_arity(dag, u);
        lemma_interned_keeps(rest.dag, copied);
        lemma_free_subst(dag, root, pairs, (n - 1) as nat);
        if visible(dag, root, u) {
            match lookup(pairs, u) {
                Some(new) => {
                    lemma_lookup_free(dag, pairs, u);
                    lemma_free_extends(dag, rest.dag, new);
                },
                None => {
                    assert forall|k: int| 0 <= k < copied.srcs.len() implies (
                    #[trigger] copied.srcs[k]) < rest.dag.len() && (!is_body(copied.op, k)
                        ==> function_free(rest.dag, copied.srcs[k])) by {
                        if is_body(node.op, k) {
                            assert(dag[u as int].srcs[k] < u);
                        } else {
                            lemma_visible_source(dag, root, u, k);
                            assert(dag[walk[n - 1] as int].srcs[k] == node.srcs[k]);
                            let q = choose|q: int|
                                0 <= q < n - 1 && #[trigger] walk[q] == node.srcs[k];
                            assert(walk[q] == node.srcs[k]);
                        }
                    }
                    lemma_free_put(rest.dag, copied);
                },
            }
            assert forall|p: int| 0 <= p < n && visible(dag, root, #[trigger] walk[p]) implies
                done.stands[walk[p]] < done.dag.len() && function_free(
                done.dag,
                done.stands[walk[p]],
            ) by {
                if p < n - 1 {
                    assert(walk[p] != walk[n - 1]);
                    lemma_free_extends(rest.dag, done.dag, rest.stands[walk[p]]);
                }
            }
        }
    }
}

proof fn lemma_lookup_free(dag: Seq<NodeView>, pairs: Seq<(usize, usize)>, id: usize)
    requires
        lookup(pairs, id) is Some,
        forall|i: int|
            0 <= i < pairs.len() ==> (#[trigger] pairs[i]).1 < dag.len() && function_free(
                dag,
                pairs[i].1,
            ),
    ensures
        lookup(pairs, id).unwrap() < dag.len(),
        function_free(dag, lookup(pairs, id).unwrap()),
    decreases pairs.len(),
{
    if pairs.last().0 == id {
        assert(pairs[pairs.len() - 1].1 < dag.len());
    } else {
        lemma_lookup_free(dag, pairs.drop_last(), id);
    }
}

proof fn lemma_bound_params(dag: Seq<NodeView>, body: usize, args: Seq<usize>, n: nat)
    requires
        n <= topo(dag, body).len(),
        first_error(dag, body, args, n) is None,
    ensures
        forall|i: int|
            0 <= i < bound_params(dag, body, args, n).len() ==> args.contains(
                (#[trigger] bound_params(dag, body, args, n)[i]).1,
            ),
    decreases n,
{
    if n > 0 {
        lemma_bound_params(dag, body, args, (n - 1) as nat);
        let rest = bound_params(dag, body, args, (n - 1) as nat);
        let all = bound_params(dag, body, args, n);
        let u = topo(dag, body)[n - 1];
        assert forall|i: int| 0 <= i < all.len() implies args.contains((#[trigger] all[i]).1) by {
            if i < rest.len() {
                assert(all[i] == rest[i]);
            } else {
                match dag[u as int].op {
                    Op::Param { slot, .. } => {
                        assert(formal_error(dag, u, args) is None);
                        assert(args[slot as int] == all[i].1);
                    },
                    _ => {},
                }
            }
        }
    }
}

proof fn lemma_free_placed(dag: Seq<NodeView>, node: NodeView, list: Seq<usize>)
    requires
        dag_wf(dag),
        arity_ok(node.op, node.srcs.len()),
        list.len() == node.srcs.len(),
        forall|k: int|
            0 <= k < list.len() ==> (#[trigger] list[k]) < dag.len() && (!is_body(node.op, k)
                ==> function_free(dag, list[k])),
        placed(dag, node, list).0.len() <= usize::MAX,
    ensures
        dag_wf(placed(dag, node, list).0),
        extends(dag, placed(dag, node, list).0),
        placed(dag, node, list).1 matches Ok(id) ==> id < placed(dag, node, list).0.len()
            && function_free(placed(dag, node, list).0, id),
{
    let copied = with_srcs(node, list);
    if node.op == (Op::Function { precompile: false }) {
        let body = list[0];
        let args = list.skip(1);
        let len = topo(dag, body).len();
        assert(function_free(dag, list[0]));
        if first_error(dag, body, args, len) is None {
            let pairs = bound_params(dag, body, args, len);
            lemma_bound_params(dag, body, args, len);
            assert forall|i: int| 0 <= i < pairs.len() implies (#[trigger] pairs[i]).1 < dag.len()
                && function_free(dag, pairs[i].1) by {
                assert(args.contains(pairs[i].1));
                let k = choose|k: int| 0 <= k < args.len() && args[k] == pairs[i].1;
                assert(list[k + 1] == args[k]);
            }
            lemma_topo(dag, body);
            lemma_free_subst(dag, body, pairs, len);
            assert(topo(dag, body)[len - 1] == body);
            assert(visible(dag, body, body));
        }
    } else {
        match node.op {
            Op::GetTuple(at) => {
                let src = list[0];
                if dag[src as int].op is Tuple && at < dag[src as int].srcs.len() {
                    let x = dag[src as int].srcs[at as int];
                    assert(x < src);
                    assert(function_free(dag, src));
                    assert forall|y: usize| #[trigger] visible(dag, x, y) implies dag[y as int].op
                        != (Op::Function { precompile: false }) by {
                        lemma_visible_through(dag, src, at as int, y);
                    }
                } else {
                    lemma_free_put(dag, copied);
                }
            },
            _ => {
                lemma_free_put(dag, copied);
            },
        }
    }
}

/// What is visible from an open source of a node is visible from the node.
pub proof fn lemma_visible_through(dag: Seq<NodeView>, id: usize, k: int, x: usize)
    requires
        dag_wf(dag),
        id < dag.len(),
        0 <= k < dag[id as int].srcs.len(),
        !is_body(dag[id as int].op, k),
        visible(dag, dag[id as int].srcs[k], x),
    ensures
        visible(dag, id, x),
    decreases dag[id as int].srcs[k] - x,
{
    let s = dag[id as int].srcs[k];
    assert(s < id);
    assert(visible(dag, id, id));
    if x == s {
        assert(dag[id as int].srcs[k] == x);
    } else {
        let (p, j) = choose|p: usize, j: int|
            #![trigger dag[p as int].srcs[j]]
            x < p <= s && 0 <= j < dag[p as int].srcs.len() && dag[p as int].srcs[j] == x
                && !is_body(dag[p as int].op, j) && visible(dag, s, p);
        lemma_visible_through(dag, id, k, p);
        assert(dag[p as int].srcs[j] == x);
    }
}

proof fn lemma_free_walk(dag: Seq<NodeView>, root: usize, n: nat)
    requires
        dag_wf(dag),
        root < dag.len(),
        n <= topo(dag, root).len(),
        resolving(dag, root, topo(dag, root), n).dag.len() <= usize::MAX,
    ensures
        ({
            let walk = topo(dag, root);
            let done = resolving(dag, root, walk, n);
            &&& dag_wf(done.dag)
            &&& extends(dag, done.dag)
            &&& forall|p: int|
                #![trigger walk[p]]
                0 <= p < n && visible(dag, root, walk[p]) ==> (done.stands[walk[p]] matches Ok(id)
                    ==> id < done.dag.len() && function_free(done.dag, id))
        }),
    decreases n,
{
    let walk = topo(dag, root);
    lemma_topo(dag, root);
    if n > 0 {
        let rest = resolving(dag, root, walk, (n - 1) as nat);
        let done = resolving(dag, root, walk, n);
        let u = walk[n - 1];
        let node = dag[u as int];
        assert(walk.contains(u));
        lemma_reaches_below(dag, root, u);
        lemma_arity(dag, u);
        let list = settled(node, rest.stands);
        lemma_placed_grows(rest.dag, node, list);
        lemma_free_walk(dag, root, (n - 1) as nat);
        if visible(dag, root, u) && source_error(node, rest.stands, node.srcs.len()) is None {
            assert forall|k: int| 0 <= k < list.len() implies (#[trigger] list[k]) < rest.dag.len()
                && (!is_body(node.op, k) ==> function_free(rest.dag, list[k])) by {
                if is_body(node.op, k) {
                    assert(dag[u as int].srcs[k] < u);
                } else {
                    lemma_visible_source(dag, root, u, k);
                    assert(dag[walk[n - 1] as int].srcs[k] == node.srcs[k]);
                    let q = choose|q: int| 0 <= q < n - 1 && #[trigger] walk[q] == node.srcs[k];
                    assert(walk[q] == node.srcs[k]);
                    lemma_ok_source(node, rest.stands, k, node.srcs.len());
                }
            }
            lemma_free_placed(rest.dag, node, list);
        }
        assert forall|p: int|
            #![trigger walk[p]]
            0 <= p < n && visible(dag, root, walk[p]) implies (done.stands[walk[p]] matches Ok(id)
            ==> id < done.dag.len() && function_free(done.dag, id)) by {
            if p < n - 1 {
                assert(walk[p] != walk[n - 1]);
                match rest.stands[walk[p]] {
                    Ok(id) => {
                        lemma_free_extends(rest.dag, done.dag, id);
                    },
                    Err(_) => {},
                }
            }
        }
    }
}

proof fn lemma_ok_source(
    node: NodeView,
    stands: Map<usize, Result<usize, CallError>>,
    k: int,
    n: nat,
)
    requires
        0 <= k < n <= node.srcs.len(),
        source_error(node, stands, n) is None,
        !is_body(node.op, k),
    ensures
        stands[node.srcs[k]] is Ok,
    decreases n,
{
    if k < n - 1 {
        lemma_ok_source(node, stands, k, (n - 1) as nat);
    }
}

proof fn lemma_subst_grows(
    dag: Seq<NodeView>,
    root: usize,
    pairs: Seq<(usize, usize)>,
    walk: Seq<usize>,
    n: nat,
)
    ensures
        dag.len() <= subst_walk(dag, root, pairs, walk, n).dag.len(),
    decreases n,
{
    if n > 0 {
        lemma_subst_grows(dag, root, pairs, walk, (n - 1) as nat);
        let rest = subst_walk(dag, root, pairs, walk, (n - 1) as nat);
        let node = dag[walk[n - 1] as int];
        lemma_interned_keeps(rest.dag, with_srcs(node, moved_outside(node, rest.stands)));
    }
}

proof fn lemma_placed_grows(dag: Seq<NodeView>, node: NodeView, list: Seq<usize>)
    ensures
        dag.len() <= placed(dag, node, list).0.len(),
{
    lemma_interned_keeps(dag, with_srcs(node, list));
    let body = list[0];
    let args = list.skip(1);
    let len = topo(dag, body).len();
    lemma_subst_grows(dag, body, bound_params(dag, body, args, len), topo(dag, body), len);
}

/// Once resolved, no function is left to put in.
pub proof fn lemma_no_function_is_left(dag: Seq<NodeView>, root: usize)
    requires
        dag_wf(dag),
        root < dag.len(),
        resolved(dag, root).0.len() <= usize::MAX,
        resolved(dag, root).1 is Ok,
    ensures
        function_free(resolved(dag, root).0, resolved(dag, root).1->Ok_0),
{
    let walk = topo(dag, root);
    lemma_topo(dag, root);
    lemma_free_walk(dag, root, walk.len());
    assert(walk[walk.len() - 1] == root);
    assert(visible(dag, root, root));
}

} // verus!
