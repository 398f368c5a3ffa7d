//! Loops that are closed together, closed one by one.

use vstd::prelude::*;

use crate::args::{lexical, list_order, numbers};
use crate::builders::{end_node, put, Built};
use crate::flatten::{backedge, backedges, is_backedge};
use crate::graph::{dag_wf, Graph, NodeView, Op};
use crate::keys::Order;
use crate::meaning::lemma_arity;
use crate::passes::{extends, grown};
use crate::sort::{lemma_sorted_members, stable_sort, stably_sorted};

verus! {

/// The path of a loop axis; nothing where a node is no loop.
pub open spec fn axis_path(op: Op) -> Seq<usize> {
    match op {
        Op::Range { axis, .. } => axis.path_of(),
        _ => Seq::empty(),
    }
}

/// Loops in the order of the paths of their axes: an axis comes before its
/// parts, and a part before the next one.
pub open spec fn by_axis(dag: Seq<NodeView>) -> spec_fn(usize, usize) -> bool {
    |a: usize, b: usize|
        lexical(numbers(axis_path(dag[a as int].op)), numbers(axis_path(dag[b as int].op)), 0)
            != Order::Greater
}

/// What is closed among the first `n` sources other than backedges.
pub open spec fn closed_loops(dag: Seq<NodeView>, srcs: Seq<usize>, n: nat) -> Seq<usize>
    decreases n,
{
    if n == 0 {
        Seq::empty()
    } else {
        let rest = closed_loops(dag, srcs, (n - 1) as nat);
        if is_backedge(dag, srcs[n - 1]) {
            rest
        } else {
            rest.push(srcs[n - 1])
        }
    }
}

/// A value with the loops from `k` on closed, the last of them innermost.
pub open spec fn nested_ends(dag: Seq<NodeView>, value: usize, loops: Seq<usize>, k: nat) -> Built
    decreases loops.len() - k,
{
    if k >= loops.len() {
        Built { dag, id: value }
    } else {
        let inner = nested_ends(dag, value, loops, k + 1);
        put(inner.dag, end_node(inner.id, seq![loops[k as int]]))
    }
}

/// An `End` that closes several loops as one `End` for each, in the order of
/// their axes from the outside in. Backedges stay on an `End` around them. An
/// `End` that closes no loop stays as it is.
pub open spec fn split_end(dag: Seq<NodeView>, id: usize) -> Built {
    let node = dag[id as int];
    let closed = node.srcs.skip(1);
    let loops = closed_loops(dag, closed, closed.len());
    if !(node.op is End) || loops.len() == 0 {
        Built { dag, id }
    } else {
        let ends = nested_ends(dag, node.srcs[0], stably_sorted(by_axis(dag), loops), 0);
        let edges = backedges(dag, closed, closed.len());
        if edges.len() == 0 {
            ends
        } else {
            put(ends.dag, end_node(ends.id, edges))
        }
    }
}

fn path_at(graph: &Graph, id: usize) -> (path: Vec<usize>)
    requires
        id < graph@.len(),
    ensures
        path@ == axis_path(graph@[id as int].op),
{
    match graph.op(id) {
        Op::Range { axis, .. } => axis.path(),
        _ => Vec::new(),
    }
}

spec fn stands(dag: Seq<NodeView>, id: usize) -> bool {
    id < dag.len()
}

fn sort_by_axis(graph: &Graph, list: &Vec<usize>) -> (sorted: Vec<usize>)
    requires
        forall|i: int| 0 <= i < list@.len() ==> (#[trigger] list@[i]) < graph@.len(),
    ensures
        sorted@ == stably_sorted(by_axis(graph@), list@),
{
    let ghost dag = graph@;
    let before = |a: usize, b: usize| -> (r: bool)
        requires
            stands(graph@, a),
            stands(graph@, b),
        ensures
            r == by_axis(graph@)(a, b),
        {
            let left = path_at(graph, a);
            let right = path_at(graph, b);
            match list_order(&left, &right) {
                Order::Greater => false,
                _ => true,
            }
        };
    stable_sort(list, before, Ghost(by_axis(dag)), Ghost(|a: usize| stands(dag, a)))
}

fn put_nested_ends(graph: &mut Graph, value: usize, loops: &Vec<usize>) -> (id: usize)
    requires
        old(graph).wf(),
        value < old(graph)@.len(),
        forall|i: int| 0 <= i < loops@.len() ==> (#[trigger] loops@[i]) < old(graph)@.len(),
    ensures
        grown(old(graph)@, *final(graph), nested_ends(old(graph)@, value, loops@, 0), id),
{
    let ghost dag = graph@;
    let mut id: usize = value;
    let mut k: usize = loops.len();
    while k > 0
        invariant
            k <= loops@.len(),
            forall|i: int| 0 <= i < loops@.len() ==> (#[trigger] loops@[i]) < dag.len(),
            grown(dag, *graph, nested_ends(dag, value, loops@, k as nat), id),
        decreases k,
    {
        let closed: [usize; 1] = [loops[k - 1]];
        assert(closed@ =~= seq![loops@[k - 1]]);
        id = graph.end(id, &closed);
        k -= 1;
    }
    id
}

/// Splits an `End` that closes several loops.
pub fn split_ends(graph: &mut Graph, id: usize) -> (new: usize)
    requires
        old(graph).wf(),
        id < old(graph)@.len(),
    ensures
        grown(old(graph)@, *final(graph), split_end(old(graph)@, id), new),
{
    proof {
        lemma_arity(graph@, id);
    }
    match graph.op(id) {
        Op::End => {},
        _ => {
            return id;
        },
    }
    let ghost dag = graph@;
    let ghost closed = dag[id as int].srcs.skip(1);
    let count: usize = graph.source_count(id);
    let mut loops: Vec<usize> = Vec::new();
    let mut edges: Vec<usize> = Vec::new();
    let mut k: usize = 1;
    while k < count
        invariant
            graph.wf(),
            graph@ == dag,
            id < dag.len(),
            count == dag[id as int].srcs.len(),
            1 <= k <= count,
            closed == dag[id as int].srcs.skip(1),
            loops@ == closed_loops(dag, closed, (k - 1) as nat),
            edges@ == backedges(dag, closed, (k - 1) as nat),
            forall|i: int| 0 <= i < loops@.len() ==> (#[trigger] loops@[i]) < id,
            forall|i: int| 0 <= i < edges@.len() ==> (#[trigger] edges@[i]) < id,
        decreases count - k,
    {
        let src: usize = graph.source(id, k);
        assert(closed[k - 1] == src);
        if backedge(graph, src) {
            edges.push(src);
        } else {
            loops.push(src);
        }
        k += 1;
    }
    if loops.len() == 0 {
        return id;
    }
    let value: usize = graph.source(id, 0);
    let sorted = sort_by_axis(graph, &loops);
    proof {
        lemma_sorted_members(by_axis(dag), loops@);
        assert forall|i: int| 0 <= i < sorted@.len() implies (#[trigger] sorted@[i])
            < dag.len() by {
            assert(sorted@.contains(sorted@[i]));
            assert(loops@.contains(sorted@[i]));
        }
    }
    let ends: usize = put_nested_ends(graph, value, &sorted);
    graph.end(ends, edges.as_slice())
}

/// How many loops a chain of `End` nodes closes one by one, down to a value.
pub open spec fn closes_singly(dag: Seq<NodeView>, id: usize, value: usize, loops: Seq<usize>) -> bool
    decreases loops.len(),
{
    if loops.len() == 0 {
        id == value
    } else {
        &&& dag[id as int].op is End
        &&& dag[id as int].srcs.len() == 2
        &&& dag[id as int].srcs[1] == loops[0]
        &&& closes_singly(dag, dag[id as int].srcs[0], value, loops.skip(1))
    }
}

proof fn lemma_closes_extends(
    dag: Seq<NodeView>,
    more: Seq<NodeView>,
    id: usize,
    value: usize,
    loops: Seq<usize>,
)
    requires
        dag_wf(dag),
        extends(dag, more),
        id < dag.len(),
        closes_singly(dag, id, value, loops),
    ensures
        closes_singly(more, id, value, loops),
    decreases loops.len(),
{
    if loops.len() > 0 {
        assert(more[id as int] == dag[id as int]);
        assert(dag[id as int].srcs[0] < id);
        lemma_closes_extends(dag, more, dag[id as int].srcs[0], value, loops.skip(1));
    }
}

/// Every loop is closed once and on its own, in the order of the axes.
pub proof fn lemma_ends_close_singly(
    dag: Seq<NodeView>,
    value: usize,
    loops: Seq<usize>,
    k: nat,
)
    requires
        dag_wf(dag),
        value < dag.len(),
        k <= loops.len(),
        forall|i: int| 0 <= i < loops.len() ==> (#[trigger] loops[i]) < dag.len(),
        dag.len() + loops.len() <= usize::MAX,
    ensures
        ({
            let ends = nested_ends(dag, value, loops, k);
            &&& dag_wf(ends.dag)
            &&& extends(dag, ends.dag)
            &&& ends.id < ends.dag.len()
            &&& ends.dag.len() <= dag.len() + (loops.len() - k)
            &&& closes_singly(ends.dag, ends.id, value, loops.skip(k as int))
        }),
    decreases loops.len() - k,
{
    if k < loops.len() {
        lemma_ends_close_singly(dag, value, loops, k + 1);
        let inner = nested_ends(dag, value, loops, k + 1);
        let node = end_node(inner.id, seq![loops[k as int]]);
        let ends = put(inner.dag, node);
        assert(node.srcs =~= seq![inner.id, loops[k as int]]);
        assert(extends(inner.dag, ends.dag));
        crate::graph::lemma_interned_wf(inner.dag, node);
        crate::passes::lemma_put(inner.dag, node);
        lemma_closes_extends(inner.dag, ends.dag, inner.id, value, loops.skip((k + 1) as int));
        assert(loops.skip(k as int).skip(1) =~= loops.skip((k + 1) as int));
        assert(loops.skip(k as int)[0] == loops[k as int]);
    } else {
        assert(loops.skip(k as int) =~= Seq::empty());
    }
}

} // verus!
