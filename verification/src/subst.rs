//! Putting nodes in the place of others.

use vstd::prelude::*;

use crate::builders::{lemma_interned_keeps, put, Built};
use crate::graph::{dag_wf, lemma_id_of, Graph, NodeView, Op};
use crate::meaning::{
    combined, is_leaf, lemma_arity, lemma_meaning, lemma_meaning_extends, lemma_put_meaning,
    meaning,
};
use crate::passes::{extends, moved, with_srcs, Walked};
use crate::topo::{lemma_reaches_below, lemma_topo, ordered, reaches, topo};

verus! {

/// Whether a node keeps its body to itself: a call does, and a function that
/// is compiled ahead of time.
pub open spec fn is_opaque(op: Op) -> bool {
    op is Call || op == (Op::Function { precompile: true })
}

/// Whether a source is the body of an opaque node.
pub open spec fn is_body(op: Op, k: int) -> bool {
    is_opaque(op) && k == 0
}

/// Whether a node stands at or below a root outside of all opaque bodies.
pub open spec fn visible(dag: Seq<NodeView>, root: usize, id: usize) -> bool
    decreases root - id,
{
    ||| id == root
    ||| exists|p: usize, k: int|
        #![trigger dag[p as int].srcs[k]]
        id < p <= root && 0 <= k < dag[p as int].srcs.len() && dag[p as int].srcs[k] == id
            && !is_body(dag[p as int].op, k) && visible(dag, root, p)
}

/// What is to be put in the place of a node.
pub open spec fn lookup(pairs: Seq<(usize, usize)>, id: usize) -> Option<usize>
    decreases pairs.len(),
{
    if pairs.len() == 0 {
        None
    } else if pairs.last().0 == id {
        Some(pairs.last().1)
    } else {
        lookup(pairs.drop_last(), id)
    }
}

/// The sources that stand for those of a node; an opaque node keeps its body.
pub open spec fn moved_outside(node: NodeView, stands: Map<usize, usize>) -> Seq<usize> {
    if is_opaque(node.op) {
        moved(node.srcs, stands).update(0, node.srcs[0])
    } else {
        moved(node.srcs, stands)
    }
}

/// The first `n` nodes of a walk, with nodes put in the place of others.
pub open spec fn subst_walk(
    dag: Seq<NodeView>,
    root: usize,
    pairs: Seq<(usize, usize)>,
    walk: Seq<usize>,
    n: nat,
) -> Walked
    decreases n,
{
    if n == 0 {
        Walked { dag, stands: Map::empty() }
    } else {
        let rest = subst_walk(dag, root, pairs, walk, (n - 1) as nat);
        let u = walk[n - 1];
        let node = dag[u as int];
        if !visible(dag, root, u) {
            rest
        } else {
            match lookup(pairs, u) {
                Some(new) => Walked { dag: rest.dag, stands: rest.stands.insert(u, new) },
                None => {
                    let copy = put(rest.dag, with_srcs(node, moved_outside(node, rest.stands)));
                    Walked { dag: copy.dag, stands: rest.stands.insert(u, copy.id) }
                },
            }
        }
    }
}

/// Everything at and below a root, with nodes put in the place of others.
pub open spec fn substituted(dag: Seq<NodeView>, root: usize, pairs: Seq<(usize, usize)>) -> Built {
    let walk = topo(dag, root);
    let done = subst_walk(dag, root, pairs, walk, walk.len());
    Built { dag: done.dag, id: done.stands[root] }
}

pub(crate) fn opaque_op(op: Op) -> (r: bool)
    ensures
        r == is_opaque(op),
{
    match op {
        Op::Call => true,
        Op::Function { precompile } => precompile,
        _ => false,
    }
}

/// For every node up to a root, whether it is visible from there.
pub fn find_visible(graph: &Graph, root: usize) -> (seen: Vec<bool>)
    requires
        graph.wf(),
        root < graph@.len(),
    ensures
        seen@.len() == root + 1,
        forall|x: usize| x <= root ==> #[trigger] seen@[x as int] == visible(graph@, root, x),
{
    let ghost dag = graph@;
    let mut seen: Vec<bool> = Vec::new();
    let mut i: usize = 0;
    while i < root
        invariant
            i <= root,
            seen@.len() == i,
            forall|x: int| 0 <= x < i ==> !(#[trigger] seen@[x]),
        decreases root - i,
    {
        seen.push(false);
        i += 1;
    }
    seen.push(true);
    let mut p: usize = root;
    loop
        invariant
            graph.wf(),
            dag == graph@,
            p <= root < dag.len(),
            seen@.len() == root + 1,
            forall|x: usize|
                p <= x <= root ==> #[trigger] seen@[x as int] == visible(dag, root, x),
            forall|x: usize|
                x < p ==> (#[trigger] seen@[x as int] <==> below_some(dag, root, x, (p + 1) as int)),
        ensures
            forall|x: usize| x <= root ==> #[trigger] seen@[x as int] == visible(dag, root, x),
        decreases p,
    {
        let ghost before = seen@;
        let count: usize = graph.source_count(p);
        if seen[p] {
            let hidden: bool = opaque_op(graph.op(p));
            let mut k: usize = if hidden {
                1
            } else {
                0
            };
            while k < count
                invariant
                    graph.wf(),
                    dag == graph@,
                    p <= root < dag.len(),
                    seen@.len() == root + 1,
                    count == dag[p as int].srcs.len(),
                    hidden == is_opaque(dag[p as int].op),
                    visible(dag, root, p),
                    hidden ==> k >= 1,
                    before.len() == root + 1,
                    forall|x: usize| p <= x <= root ==> #[trigger] seen@[x as int] == before[x as int],
                    forall|x: usize|
                        #![trigger seen@[x as int]]
                        x < p ==> (seen@[x as int] <==> before[x as int] || exists|j: int|
                            #![trigger dag[p as int].srcs[j]]
                            0 <= j < k && j < count && dag[p as int].srcs[j] == x && !is_body(
                                dag[p as int].op,
                                j,
                            )),
                decreases count - k,
            {
                let src: usize = graph.source(p, k);
                let ghost held = seen@;
                seen.set(src, true);
                proof {
                    assert(dag[p as int].srcs[k as int] == src);
                    assert forall|x: usize|
                        #![trigger seen@[x as int]]
                        x < p implies (seen@[x as int] <==> before[x as int] || exists|j: int|
                        #![trigger dag[p as int].srcs[j]]
                        0 <= j < k + 1 && j < count && dag[p as int].srcs[j] == x && !is_body(
                            dag[p as int].op,
                            j,
                        )) by {
                        assert(held[x as int] == held[x as int]);
                        if x != src {
                            assert(seen@[x as int] == held[x as int]);
                        }
                    }
                }
                k += 1;
            }
        }
        proof {
            assert forall|x: usize| x < p implies (#[trigger] seen@[x as int] <==> below_some(
                dag,
                root,
                x,
                p as int,
            )) by {
                assert(before[x as int] <==> below_some(dag, root, x, (p + 1) as int));
                if below_some(dag, root, x, p as int) && !before[x as int] {
                    let (q, k) = choose|q: usize, k: int|
                        #![trigger dag[q as int].srcs[k]]
                        p <= q <= root && 0 <= k < dag[q as int].srcs.len()
                            && dag[q as int].srcs[k] == x && !is_body(dag[q as int].op, k)
                            && visible(dag, root, q);
                    assert(q == p);
                    assert(dag[p as int].srcs[k] == x);
                }
                if before[x as int] {
                    let (q, k) = choose|q: usize, k: int|
                        #![trigger dag[q as int].srcs[k]]
                        p + 1 <= q <= root && 0 <= k < dag[q as int].srcs.len()
                            && dag[q as int].srcs[k] == x && !is_body(dag[q as int].op, k)
                            && visible(dag, root, q);
                    assert(dag[q as int].srcs[k] == x);
                }
            }
        }
        if p == 0 {
            break;
        }
        proof {
            let y = (p - 1) as usize;
            assert(seen@[y as int] <==> below_some(dag, root, y, p as int));
            assert(visible(dag, root, y) == below_some(dag, root, y, p as int));
        }
        p = p - 1;
    }
    seen
}

/// Whether a node is an open source of a visible node from `low` on.
spec fn below_some(dag: Seq<NodeView>, root: usize, x: usize, low: int) -> bool {
    exists|q: usize, k: int|
        #![trigger dag[q as int].srcs[k]]
        low <= q <= root && 0 <= k < dag[q as int].srcs.len() && dag[q as int].srcs[k] == x
            && !is_body(dag[q as int].op, k) && visible(dag, root, q)
}

/// What is to be put in the place of a node.
pub fn find_pair(pairs: &Vec<(usize, usize)>, id: usize) -> (new: Option<usize>)
    ensures
        new == lookup(pairs@, id),
{
    let mut n: usize = pairs.len();
    assert(pairs@.take(pairs@.len() as int) =~= pairs@);
    while n > 0
        invariant
            n <= pairs@.len(),
            lookup(pairs@, id) == lookup(pairs@.take(n as int), id),
        decreases n,
    {
        proof {
            assert(pairs@.take(n as int).drop_last() =~= pairs@.take(n - 1));
            assert(pairs@.take(n as int).last() == pairs@[n - 1]);
        }
        let pair: (usize, usize) = pairs[n - 1];
        if pair.0 == id {
            return Some(pair.1);
        }
        n -= 1;
    }
    None
}

proof fn lemma_lookup_in(pairs: Seq<(usize, usize)>, id: usize, len: nat)
    requires
        forall|i: int| 0 <= i < pairs.len() ==> (#[trigger] pairs[i]).1 < len,
        lookup(pairs, id) is Some,
    ensures
        lookup(pairs, id).unwrap() < len,
    decreases pairs.len(),
{
    if pairs.last().0 != id {
        lemma_lookup_in(pairs.drop_last(), id, len);
    }
}

/// A visible node's open sources are visible.
pub proof fn lemma_visible_source(dag: Seq<NodeView>, root: usize, id: usize, k: int)
    requires
        dag_wf(dag),
        root < dag.len(),
        id <= root,
        visible(dag, root, id),
        0 <= k < dag[id as int].srcs.len(),
        !is_body(dag[id as int].op, k),
    ensures
        visible(dag, root, dag[id as int].srcs[k]),
{
    assert(dag[id as int].srcs[k] < id);
}

/// Puts nodes in the place of others, everywhere at and below a root outside
/// of opaque bodies; see `substituted`.
pub fn substitute(graph: &mut Graph, root: usize, pairs: &Vec<(usize, usize)>) -> (new: usize)
    requires
        old(graph).wf(),
        root < old(graph)@.len(),
        forall|i: int| 0 <= i < pairs@.len() ==> (#[trigger] pairs@[i]).1 < old(graph)@.len(),
    ensures
        final(graph).wf(),
        final(graph)@ == substituted(old(graph)@, root, pairs@).dag,
        new == substituted(old(graph)@, root, pairs@).id,
        new < final(graph)@.len(),
        extends(old(graph)@, final(graph)@),
{
    let ghost dag = graph@;
    let walk = graph.toposort(root);
    let seen = find_visible(graph, root);
    proof {
        lemma_topo(dag, root);
    }
    let mut stands: Vec<usize> = Vec::new();
    let mut id: usize = 0;
    while id < root
        invariant
            id <= root,
            stands@.len() == id,
        decreases root - id,
    {
        stands.push(0);
        id += 1;
    }
    stands.push(0);
    let mut n: usize = 0;
    while n < walk.len()
        invariant
            graph.wf(),
            dag_wf(dag),
            extends(dag, graph@),
            root < dag.len(),
            walk@ == topo(dag, root),
            ordered(dag, walk@),
            forall|x: usize| #[trigger] walk@.contains(x) <==> reaches(dag, root, x),
            seen@.len() == root + 1,
            forall|x: usize| x <= root ==> #[trigger] seen@[x as int] == visible(dag, root, x),
            forall|i: int| 0 <= i < pairs@.len() ==> (#[trigger] pairs@[i]).1 < dag.len(),
            stands@.len() == root + 1,
            n <= walk@.len(),
            graph@ == subst_walk(dag, root, pairs@, walk@, n as nat).dag,
            forall|p: int|
                0 <= p < n && visible(dag, root, #[trigger] walk@[p]) ==> stands@[walk@[p] as int]
                    == subst_walk(dag, root, pairs@, walk@, n as nat).stands[walk@[p]]
                    && stands@[walk@[p] as int] < graph@.len(),
        decreases walk@.len() - n,
    {
        let u: usize = walk[n];
        let ghost node = dag[u as int];
        let ghost rest = subst_walk(dag, root, pairs@, walk@, n as nat);
        proof {
            assert(walk@.contains(u));
            lemma_reaches_below(dag, root, u);
            lemma_arity(dag, u);
            assert(graph@[u as int] == node);
        }
        let shown: bool = seen[u];
        assert(shown == visible(dag, root, u));
        if shown {
            let ghost held = graph@;
            let ghost before = stands@;
            let new: usize = match find_pair(pairs, u) {
                Some(new) => {
                    proof {
                        lemma_lookup_in(pairs@, u, dag.len());
                    }
                    new
                },
                None => {
                    let op = graph.op(u);
                    let dtype = graph.dtype(u);
                    let count: usize = graph.source_count(u);
                    let hidden: bool = opaque_op(op);
                    let mut list: Vec<usize> = Vec::new();
                    let mut k: usize = 0;
                    while k < count
                        invariant
                            graph.wf(),
                            dag_wf(dag),
                            graph@ == held,
                            extends(dag, held),
                            ordered(dag, walk@),
                            n < walk@.len(),
                            u == walk@[n as int],
                            u <= root < dag.len(),
                            visible(dag, root, u),
                            node == dag[u as int],
                            graph@[u as int] == node,
                            op == node.op,
                            hidden == is_opaque(op),
                            count == node.srcs.len(),
                            stands@.len() == root + 1,
                            forall|p: int|
                                0 <= p < n && visible(dag, root, #[trigger] walk@[p])
                                    ==> stands@[walk@[p] as int] == rest.stands[walk@[p]]
                                    && stands@[walk@[p] as int] < graph@.len(),
                            k <= count,
                            list@ == moved_outside(node, rest.stands).take(k as int),
                            forall|j: int|
                                0 <= j < list@.len() ==> (#[trigger] list@[j]) < graph@.len(),
                        decreases count - k,
                    {
                        let src: usize = graph.source(u, k);
                        if hidden && k == 0 {
                            list.push(src);
                        } else {
                            proof {
                                lemma_visible_source(dag, root, u, k as int);
                                assert(dag[walk@[n as int] as int].srcs[k as int] == src);
                                let q = choose|q: int| 0 <= q < n && #[trigger] walk@[q] == src;
                                assert(walk@[q] == src);
                            }
                            list.push(stands[src]);
                        }
                        k += 1;
                        assert(list@ =~= moved_outside(node, rest.stands).take(k as int));
                    }
                    assert(list@ =~= moved_outside(node, rest.stands));
                    let copy: usize = graph.node(op, dtype, list.as_slice());
                    proof {
                        lemma_interned_keeps(held, with_srcs(node, list@));
                    }
                    copy
                },
            };
            stands.set(u, new);
            proof {
                let now = subst_walk(dag, root, pairs@, walk@, (n + 1) as nat);
                assert(now.stands == rest.stands.insert(u, new));
                assert forall|p: int|
                    0 <= p < n + 1 && visible(dag, root, #[trigger] walk@[p]) implies stands@[walk@[p] as int]
                    == now.stands[walk@[p]] && stands@[walk@[p] as int] < graph@.len() by {
                    if p < n {
                        assert(walk@[p] != walk@[n as int]);
                        assert(before[walk@[p] as int] == rest.stands[walk@[p]]);
                    }
                }
            }
        }
        n += 1;
    }
    proof {
        assert(walk@[walk@.len() - 1] == root);
        assert(visible(dag, root, root));
    }
    stands[root]
}

proof fn lemma_untouched_walk(
    dag: Seq<NodeView>,
    root: usize,
    pairs: Seq<(usize, usize)>,
    n: nat,
)
    requires
        dag_wf(dag),
        root < dag.len() <= usize::MAX,
        n <= topo(dag, root).len(),
        forall|x: usize| #[trigger] visible(dag, root, x) ==> lookup(pairs, x) is None,
    ensures
        ({
            let walk = topo(dag, root);
            let done = subst_walk(dag, root, pairs, walk, n);
            &&& done.dag == dag
            &&& forall|p: int|
                0 <= p < n && visible(dag, root, #[trigger] walk[p]) ==> done.stands[walk[p]]
                    == walk[p]
        }),
    decreases n,
{
    let walk = topo(dag, root);
    lemma_topo(dag, root);
    if n > 0 {
        lemma_untouched_walk(dag, root, pairs, (n - 1) as nat);
        let rest = subst_walk(dag, root, pairs, walk, (n - 1) as nat);
        let u = walk[n - 1];
        let node = dag[u as int];
        assert(walk.contains(u));
        lemma_reaches_below(dag, root, u);
        lemma_arity(dag, u);
        if visible(dag, root, u) {
            assert forall|k: int|
                0 <= k < node.srcs.len() && !is_body(node.op, k) implies rest.stands[node.srcs[k]]
                == node.srcs[k] by {
                lemma_visible_source(dag, root, u, k);
                assert(dag[walk[n - 1] as int].srcs[k] == node.srcs[k]);
                let q = choose|q: int| 0 <= q < n - 1 && #[trigger] walk[q] == node.srcs[k];
                assert(walk[q] == node.srcs[k]);
            }
            assert(moved_outside(node, rest.stands) =~= node.srcs);
            assert(with_srcs(node, node.srcs) == node);
            assert(dag.contains(node)) by {
                assert(dag[u as int] == node);
            }
            lemma_id_of(dag, u);
            let done = subst_walk(dag, root, pairs, walk, n);
            assert forall|p: int| 0 <= p < n && visible(dag, root, #[trigger] walk[p]) implies
                done.stands[walk[p]] == walk[p] by {
                if p < n - 1 {
                    assert(walk[p] != walk[n - 1]);
                }
            }
        }
    }
}

proof fn lemma_subst_walk_grows(
    dag: Seq<NodeView>,
    root: usize,
    pairs: Seq<(usize, usize)>,
    walk: Seq<usize>,
    n: nat,
)
    ensures
        extends(dag, subst_walk(dag, root, pairs, walk, n).dag),
    decreases n,
{
    if n > 0 {
        let rest = subst_walk(dag, root, pairs, walk, (n - 1) as nat);
        let node = dag[walk[n - 1] as int];
        lemma_subst_walk_grows(dag, root, pairs, walk, (n - 1) as nat);
        lemma_interned_keeps(rest.dag, with_srcs(node, moved_outside(node, rest.stands)));
    }
}

/// A graph keeps its nodes when others are put in their place.
pub proof fn lemma_substituted_grows(
    dag: Seq<NodeView>,
    root: usize,
    pairs: Seq<(usize, usize)>,
)
    ensures
        dag.len() <= substituted(dag, root, pairs).dag.len(),
        extends(dag, substituted(dag, root, pairs).dag),
{
    let walk = topo(dag, root);
    lemma_subst_walk_grows(dag, root, pairs, walk, walk.len());
}

/// Where nothing is to be replaced, everything stays as it is.
pub proof fn lemma_nothing_to_substitute(
    dag: Seq<NodeView>,
    root: usize,
    pairs: Seq<(usize, usize)>,
)
    requires
        dag_wf(dag),
        root < dag.len() <= usize::MAX,
        forall|x: usize| #[trigger] visible(dag, root, x) ==> lookup(pairs, x) is None,
    ensures
        substituted(dag, root, pairs) == (Built { dag, id: root }),
{
    let walk = topo(dag, root);
    lemma_topo(dag, root);
    lemma_untouched_walk(dag, root, pairs, walk.len());
    assert(walk[walk.len() - 1] == root);
    assert(visible(dag, root, root));
}

/// Whether what is put in the place of nodes means at one assignment what the
/// nodes mean at another, which gives all other leaves the same values.
pub open spec fn exchanges(
    dag: Seq<NodeView>,
    root: usize,
    pairs: Seq<(usize, usize)>,
    at: spec_fn(Op) -> int,
    then: spec_fn(Op) -> int,
) -> bool {
    forall|x: usize| #[trigger]
        visible(dag, root, x) ==> match lookup(pairs, x) {
            Some(new) => new < dag.len() && meaning(dag, new, at) == meaning(dag, x, then),
            None => is_leaf(dag[x as int].op) ==> at(dag[x as int].op) == then(dag[x as int].op),
        }
}

pub(crate) proof fn lemma_subst_meaning(
    dag: Seq<NodeView>,
    root: usize,
    pairs: Seq<(usize, usize)>,
    n: nat,
    at: spec_fn(Op) -> int,
    then: spec_fn(Op) -> int,
)
    requires
        dag_wf(dag),
        root < dag.len(),
        n <= topo(dag, root).len(),
        exchanges(dag, root, pairs, at, then),
        subst_walk(dag, root, pairs, topo(dag, root), n).dag.len() <= usize::MAX,
    ensures
        ({
            let walk = topo(dag, root);
            let done = subst_walk(dag, root, pairs, walk, n);
            &&& dag_wf(done.dag)
            &&& extends(dag, done.dag)
            &&& forall|p: int|
                0 <= p < n && visible(dag, root, #[trigger] walk[p]) ==> done.stands[walk[p]]
                    < done.dag.len() && meaning(done.dag, done.stands[walk[p]], at) == meaning(
                    dag,
                    walk[p],
                    then,
                )
        }),
    decreases n,
{
    let walk = topo(dag, root);
    lemma_topo(dag, root);
    if n > 0 {
        let rest = subst_walk(dag, root, pairs, walk, (n - 1) as nat);
        let done = subst_walk(dag, root, pairs, walk, n);
        let u = walk[n - 1];
        let node = dag[u as int];
        assert(walk.contains(u));
        lemma_reaches_below(dag, root, u);
        lemma_arity(dag, u);
        let copied = with_srcs(node, moved_outside(node, rest.stands));
        lemma_interned_keeps(rest.dag, copied);
        lemma_subst_meaning(dag, root, pairs, (n - 1) as nat, at, then);
        if visible(dag, root, u) {
            match lookup(pairs, u) {
                Some(new) => {
                    lemma_meaning_extends(dag, rest.dag, new, at);
                    assert forall|p: int| 0 <= p < n && visible(dag, root, #[trigger] walk[p])
                        implies done.stands[walk[p]] < done.dag.len() && meaning(
                        done.dag,
                        done.stands[walk[p]],
                        at,
                    ) == meaning(dag, walk[p], then) by {
                        if p < n - 1 {
                            assert(walk[p] != walk[n - 1]);
                        }
                    }
                },
                None => {
                    assert forall|k: int| 0 <= k < node.srcs.len() && !is_body(node.op, k) implies {
                        &&& (#[trigger] copied.srcs[k]) < rest.dag.len()
                        &&& meaning(rest.dag, copied.srcs[k], at) == meaning(
                            dag,
                            node.srcs[k],
                            then,
                        )
                    } by {
                        lemma_visible_source(dag, root, u, k);
                        assert(dag[walk[n - 1] as int].srcs[k] == node.srcs[k]);
                        let q = choose|q: int| 0 <= q < n - 1 && #[trigger] walk[q] == node.srcs[k];
                        assert(walk[q] == node.srcs[k]);
                        assert(copied.srcs[k] == rest.stands[node.srcs[k]]);
                    }
                    assert forall|k: int| 0 <= k < copied.srcs.len() implies (
                    #[trigger] copied.srcs[k]) < rest.dag.len() by {
                        if is_body(node.op, k) {
                            assert(dag[u as int].srcs[k] < u);
                        }
                    }
                    lemma_put_meaning(rest.dag, copied, at);
                    lemma_meaning(dag, u, then);
                    if !is_opaque(node.op) {
                        if node.srcs.len() > 0 {
                            assert(meaning(rest.dag, copied.srcs[0], at) == meaning(
                                dag,
                                node.srcs[0],
                                then,
                            ));
                        }
                        if node.srcs.len() > 1 {
                            assert(meaning(rest.dag, copied.srcs[1], at) == meaning(
                                dag,
                                node.srcs[1],
                                then,
                            ));
                        }
                        if node.srcs.len() > 2 {
                            assert(meaning(rest.dag, copied.srcs[2], at) == meaning(
                                dag,
                                node.srcs[2],
                                then,
                            ));
                        }
                    }
                    assert(combined(copied, at, |x: usize| meaning(rest.dag, x, at)) == combined(
                        node,
                        then,
                        |x: usize| meaning(dag, x, then),
                    ));
                    assert forall|p: int| 0 <= p < n && visible(dag, root, #[trigger] walk[p])
                        implies done.stands[walk[p]] < done.dag.len() && meaning(
                        done.dag,
                        done.stands[walk[p]],
                        at,
                    ) == meaning(dag, walk[p], then) by {
                        if p < n - 1 {
                            assert(walk[p] != walk[n - 1]);
                            lemma_meaning_extends(
                                rest.dag,
                                done.dag,
                                rest.stands[walk[p]],
                                at,
                            );
                        }
                    }
                },
            }
        }
    }
}

/// An expression with nodes put in the place of others means what it meant
/// where those had the meanings of what is put in.
pub proof fn lemma_substitution_means(
    dag: Seq<NodeView>,
    root: usize,
    pairs: Seq<(usize, usize)>,
    at: spec_fn(Op) -> int,
    then: spec_fn(Op) -> int,
)
    requires
        dag_wf(dag),
        root < dag.len(),
        exchanges(dag, root, pairs, at, then),
        substituted(dag, root, pairs).dag.len() <= usize::MAX,
    ensures
        dag_wf(substituted(dag, root, pairs).dag),
        extends(dag, substituted(dag, root, pairs).dag),
        substituted(dag, root, pairs).id < substituted(dag, root, pairs).dag.len(),
        meaning(substituted(dag, root, pairs).dag, substituted(dag, root, pairs).id, at) == meaning(
            dag,
            root,
            then,
        ),
{
    let walk = topo(dag, root);
    lemma_topo(dag, root);
    lemma_subst_meaning(dag, root, pairs, walk.len(), at, then);
    assert(walk[walk.len() - 1] == root);
    assert(visible(dag, root, root));
}

/// What a single replacement replaces.
pub proof fn lemma_lookup_one(a: usize, b: usize, x: usize)
    ensures
        lookup(seq![(a, b)], x) == if x == a {
            Some(b)
        } else {
            None
        },
{
    let pairs = seq![(a, b)];
    assert(pairs.last() == (a, b));
    assert(pairs.drop_last().len() == 0);
    assert(lookup(pairs.drop_last(), x) is None);
}

} // verus!
