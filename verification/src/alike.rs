//! Nodes that do the same at different steps: what one of them computes, reads
//! and writes at one assignment of the loop counters, the other one does at
//! another.

use vstd::prelude::*;

use crate::builders::lemma_interned_keeps;
use crate::graph::{dag_wf, NodeView, Op};
use crate::meaning::{lemma_arity, lemma_meaning_extends, meaning};
use crate::passes::{extends, lemma_put, with_srcs};
use crate::subst::{
    exchanges, is_body, lemma_subst_meaning, lemma_visible_source, lookup, moved_outside,
    subst_walk, substituted, visible,
};
use crate::topo::{lemma_reaches_below, lemma_topo, topo};

verus! {

/// Whether a node does at an assignment what another one does in another graph
/// at another assignment: it means the same number, or else it is the same
/// operation over sources that do what the other's do.
#[verifier::opaque]
pub open spec fn does_alike(
    dag: Seq<NodeView>,
    id: usize,
    then: spec_fn(Op) -> int,
    more: Seq<NodeView>,
    new: usize,
    at: spec_fn(Op) -> int,
) -> bool
    decreases id,
{
    let node = dag[id as int];
    let own = more[new as int];
    if meaning(dag, id, then) is Some {
        meaning(more, new, at) == meaning(dag, id, then)
    } else {
        &&& own.op == node.op
        &&& own.dtype == node.dtype
        &&& own.srcs.len() == node.srcs.len()
        &&& forall|k: int|
            0 <= k < node.srcs.len() && node.srcs[k] < id ==> if is_body(node.op, k) {
                own.srcs[k] == node.srcs[k]
            } else {
                does_alike(dag, #[trigger] node.srcs[k], then, more, own.srcs[k], at)
            }
    }
}

/// Graphs that grow keep what their nodes do.
pub(crate) proof fn lemma_alike_extends(
    dag: Seq<NodeView>,
    id: usize,
    then: spec_fn(Op) -> int,
    more: Seq<NodeView>,
    next: Seq<NodeView>,
    new: usize,
    at: spec_fn(Op) -> int,
)
    requires
        dag_wf(dag),
        dag_wf(more),
        dag_wf(next),
        extends(more, next),
        id < dag.len(),
        new < more.len(),
        does_alike(dag, id, then, more, new, at),
    ensures
        does_alike(dag, id, then, next, new, at),
    decreases id,
{
    reveal(does_alike);
    let node = dag[id as int];
    let own = more[new as int];
    lemma_meaning_extends(more, next, new, at);
    assert(next[new as int] == own);
    if meaning(dag, id, then) is None {
        assert forall|k: int|
            0 <= k < node.srcs.len() && node.srcs[k] < id implies if is_body(node.op, k) {
            own.srcs[k] == node.srcs[k]
        } else {
            does_alike(dag, #[trigger] node.srcs[k], then, next, own.srcs[k], at)
        } by {
            if !is_body(node.op, k) {
                assert(does_alike(dag, node.srcs[k], then, more, own.srcs[k], at));
                assert(more[new as int].srcs[k] < new);
                lemma_alike_extends(dag, node.srcs[k], then, more, next, own.srcs[k], at);
            }
        }
    }
}

/// A node of a graph that has grown does what it did.
pub(crate) proof fn lemma_alike_before(
    dag: Seq<NodeView>,
    grown: Seq<NodeView>,
    id: usize,
    then: spec_fn(Op) -> int,
    more: Seq<NodeView>,
    new: usize,
    at: spec_fn(Op) -> int,
)
    requires
        dag_wf(dag),
        dag_wf(grown),
        extends(dag, grown),
        id < dag.len(),
        does_alike(grown, id, then, more, new, at),
    ensures
        does_alike(dag, id, then, more, new, at),
    decreases id,
{
    reveal(does_alike);
    let node = dag[id as int];
    let own = more[new as int];
    lemma_meaning_extends(dag, grown, id, then);
    assert(grown[id as int] == node);
    if meaning(dag, id, then) is None {
        assert forall|k: int|
            0 <= k < node.srcs.len() && node.srcs[k] < id implies if is_body(node.op, k) {
            own.srcs[k] == node.srcs[k]
        } else {
            does_alike(dag, #[trigger] node.srcs[k], then, more, own.srcs[k], at)
        } by {
            if !is_body(node.op, k) {
                assert(does_alike(grown, grown[id as int].srcs[k], then, more, own.srcs[k], at));
                lemma_alike_before(dag, grown, node.srcs[k], then, more, own.srcs[k], at);
            }
        }
    }
}

proof fn lemma_subst_alike(
    dag: Seq<NodeView>,
    root: usize,
    pairs: Seq<(usize, usize)>,
    n: nat,
    at: spec_fn(Op) -> int,
    then: spec_fn(Op) -> int,
)
    requires
        dag_wf(dag),
        root < dag.len(),
        n <= topo(dag, root).len(),
        exchanges(dag, root, pairs, at, then),
        forall|x: usize| #[trigger]
            visible(dag, root, x) && lookup(pairs, x) is Some ==> meaning(dag, x, then) is Some,
        subst_walk(dag, root, pairs, topo(dag, root), n).dag.len() <= usize::MAX,
    ensures
        ({
            let walk = topo(dag, root);
            let done = subst_walk(dag, root, pairs, walk, n);
            forall|p: int|
                0 <= p < n && visible(dag, root, #[trigger] walk[p]) ==> done.stands[walk[p]]
                    < done.dag.len() && does_alike(
                    dag,
                    walk[p],
                    then,
                    done.dag,
                    done.stands[walk[p]],
                    at,
                )
        }),
    decreases n,
{
    let walk = topo(dag, root);
    lemma_topo(dag, root);
    if n > 0 {
        let rest = subst_walk(dag, root, pairs, walk, (n - 1) as nat);
        let done = subst_walk(dag, root, pairs, walk, n);
        let u = walk[n - 1];
        let node = dag[u as int];
        assert(walk.contains(u));
        lemma_reaches_below(dag, root, u);
        lemma_arity(dag, u);
        let copied = with_srcs(node, moved_outside(node, rest.stands));
        lemma_interned_keeps(rest.dag, copied);
        lemma_subst_alike(dag, root, pairs, (n - 1) as nat, at, then);
        lemma_subst_meaning(dag, root, pairs, (n - 1) as nat, at, then);
        lemma_subst_meaning(dag, root, pairs, n, at, then);
        if visible(dag, root, u) {
            assert(meaning(done.dag, done.stands[u], at) == meaning(dag, u, then));
            if lookup(pairs, u) is None {
                lemma_put(rest.dag, copied);
                assert(done.dag[done.stands[u] as int] == copied);
            }
            assert(does_alike(dag, u, then, done.dag, done.stands[u], at)) by {
                reveal(does_alike);
                if meaning(dag, u, then) is None {
                    assert(lookup(pairs, u) is None);
                    assert forall|k: int|
                        0 <= k < node.srcs.len() && node.srcs[k] < u implies if is_body(
                        node.op,
                        k,
                    ) {
                        copied.srcs[k] == node.srcs[k]
                    } else {
                        does_alike(dag, #[trigger] node.srcs[k], then, done.dag, copied.srcs[k], at)
                    } by {
                        if !is_body(node.op, k) {
                            lemma_visible_source(dag, root, u, k);
                            assert(dag[walk[n - 1] as int].srcs[k] == node.srcs[k]);
                            let q = choose|q: int|
                                0 <= q < n - 1 && #[trigger] walk[q] == node.srcs[k];
                            assert(walk[q] == node.srcs[k]);
                            assert(copied.srcs[k] == rest.stands[node.srcs[k]]);
                            lemma_alike_extends(
                                dag,
                                node.srcs[k],
                                then,
                                rest.dag,
                                done.dag,
                                copied.srcs[k],
                                at,
                            );
                        }
                    }
                }
            }
        }
        assert forall|p: int| 0 <= p < n && visible(dag, root, #[trigger] walk[p]) implies
            done.stands[walk[p]] < done.dag.len() && does_alike(
            dag,
            walk[p],
            then,
            done.dag,
            done.stands[walk[p]],
            at,
        ) by {
            if p < n - 1 {
                assert(walk[p] != walk[n - 1]);
                lemma_alike_extends(
                    dag,
                    walk[p],
                    then,
                    rest.dag,
                    done.dag,
                    rest.stands[walk[p]],
                    at,
                );
            }
        }
    }
}

/// Everything below a root, with nodes put in the place of others, does what it
/// did where those meant what is put in their place.
pub proof fn lemma_substitution_does_alike(
    dag: Seq<NodeView>,
    root: usize,
    pairs: Seq<(usize, usize)>,
    at: spec_fn(Op) -> int,
    then: spec_fn(Op) -> int,
)
    requires
        dag_wf(dag),
        root < dag.len(),
        exchanges(dag, root, pairs, at, then),
        forall|x: usize| #[trigger]
            visible(dag, root, x) && lookup(pairs, x) is Some ==> meaning(dag, x, then) is Some,
        substituted(dag, root, pairs).dag.len() <= usize::MAX,
    ensures
        ({
            let new = substituted(dag, root, pairs);
            &&& dag_wf(new.dag)
            &&& extends(dag, new.dag)
            &&& new.id < new.dag.len()
            &&& does_alike(dag, root, then, new.dag, new.id, at)
        }),
{
    let walk = topo(dag, root);
    lemma_topo(dag, root);
    lemma_subst_meaning(dag, root, pairs, walk.len(), at, then);
    lemma_subst_alike(dag, root, pairs, walk.len(), at, then);
    assert(walk[walk.len() - 1] == root);
    assert(visible(dag, root, root));
}

/// What is visible below a node stays so while the graph grows.
pub(crate) proof fn lemma_visible_extends(
    dag: Seq<NodeView>,
    more: Seq<NodeView>,
    root: usize,
    id: usize,
)
    requires
        extends(dag, more),
        root < dag.len(),
        visible(more, root, id),
    ensures
        visible(dag, root, id),
    decreases root - id,
{
    if id != root {
        let (p, k) = choose|p: usize, k: int|
            #![trigger more[p as int].srcs[k]]
            id < p <= root && 0 <= k < more[p as int].srcs.len() && more[p as int].srcs[k] == id
                && !is_body(more[p as int].op, k) && visible(more, root, p);
        assert(more[p as int] == dag[p as int]);
        lemma_visible_extends(dag, more, root, p);
        assert(dag[p as int].srcs[k] == id);
    }
}

} // verus!
