//! The order of loops: which loop a range has to wait for.

use std::collections::HashMap;

use vstd::prelude::*;

use crate::graph::{arity_ok, dag_wf, Graph, NodeView, Op};
use crate::sort::{in_order, lemma_sorted_members, lemma_stably_sorted, stable_sort, stably_sorted};
use crate::topo::{
    lemma_reaches_below, lemma_reaches_transitive, lemma_topo, ordered, reach_row_ok, reaches, topo,
};

verus! {

/// The range that stands for the loop of an `End`: the first that it closes.
pub open spec fn first_range(dag: Seq<NodeView>, end: usize) -> usize {
    dag[end as int].srcs[1]
}

/// Whether the loop that `x` ends lies inside `u`: everything lies inside a
/// sink, and inside an `End` lies what depends on the range that this closes.
pub open spec fn nests(dag: Seq<NodeView>, u: usize, x: usize) -> bool {
    &&& u != x
    &&& dag[x as int].op is End
    &&& reaches(dag, u, x)
    &&& {
        ||| dag[u as int].op is Sink
        ||| {
            &&& dag[u as int].op is End
            &&& reaches(dag, x, first_range(dag, u))
            &&& (dag[first_range(dag, u) as int].op is Range || dag[first_range(
                dag,
                u,
            ) as int].op is End)
        }
    }
}

/// The innermost node of a walk that `x` lies inside of: the first one.
pub open spec fn parent(dag: Seq<NodeView>, walk: Seq<usize>, x: usize) -> Option<usize>
    decreases walk.len(),
{
    if walk.len() == 0 {
        None
    } else if parent(dag, walk.drop_last(), x) is Some {
        parent(dag, walk.drop_last(), x)
    } else if nests(dag, walk.last(), x) {
        Some(walk.last())
    } else {
        None
    }
}

/// Of the first `n` nodes of a walk, the ends that lie directly inside `k`.
pub open spec fn siblings(dag: Seq<NodeView>, walk: Seq<usize>, n: nat, k: usize) -> Seq<usize>
    decreases n,
{
    if n == 0 {
        Seq::empty()
    } else if parent(dag, walk, walk[n - 1]) == Some(k) {
        siblings(dag, walk, (n - 1) as nat, k).push(walk[n - 1])
    } else {
        siblings(dag, walk, (n - 1) as nat, k)
    }
}

/// How many of the first `n` listed ends stand at or below `x`.
pub open spec fn rank(dag: Seq<NodeView>, list: Seq<usize>, n: nat, x: usize) -> nat
    decreases n,
{
    if n == 0 {
        0
    } else {
        rank(dag, list, (n - 1) as nat, x) + if reaches(dag, x, list[n - 1]) {
            1nat
        } else {
            0nat
        }
    }
}

/// The order of ends by how many of the others they depend on.
pub open spec fn by_rank(dag: Seq<NodeView>, list: Seq<usize>) -> spec_fn(usize, usize) -> bool {
    |a: usize, b: usize| rank(dag, list, list.len(), a) <= rank(dag, list, list.len(), b)
}

/// The loops directly inside `k`, in the order in which they run.
pub open spec fn loop_order(dag: Seq<NodeView>, walk: Seq<usize>, k: usize) -> Seq<usize> {
    let list = siblings(dag, walk, walk.len(), k);
    stably_sorted(by_rank(dag, list), list)
}

/// Whether the loop at position `i` of `k`'s order waits for something: each
/// waits for the one before it, and the first for the range that `k` closes.
/// Nothing is before the first loop of a sink.
pub open spec fn waits(dag: Seq<NodeView>, k: usize, i: int) -> bool {
    i > 0 || !(dag[k as int].op is Sink)
}

/// What the loop at position `i` of an order inside `k` waits for.
pub open spec fn waits_for(dag: Seq<NodeView>, k: usize, order: Seq<usize>, i: int) -> usize {
    if i == 0 {
        first_range(dag, k)
    } else {
        order[i - 1]
    }
}

/// The edges of the first `n` loops inside `k`, over those that are there.
pub open spec fn group_edges(
    dag: Seq<NodeView>,
    k: usize,
    order: Seq<usize>,
    n: nat,
    base: Map<usize, usize>,
) -> Map<usize, usize>
    decreases n,
{
    if n == 0 {
        base
    } else {
        let rest = group_edges(dag, k, order, (n - 1) as nat, base);
        if waits(dag, k, n - 1) {
            rest.insert(first_range(dag, order[n - 1]), waits_for(dag, k, order, n - 1))
        } else {
            rest
        }
    }
}

/// The edges of the loops inside the first `n` nodes of a walk.
pub open spec fn edges_upto(dag: Seq<NodeView>, walk: Seq<usize>, n: nat) -> Map<usize, usize>
    decreases n,
{
    if n == 0 {
        Map::empty()
    } else {
        let k = walk[n - 1];
        let order = loop_order(dag, walk, k);
        group_edges(dag, k, order, order.len(), edges_upto(dag, walk, (n - 1) as nat))
    }
}

/// From each range that has to wait, to the range or end that it waits for.
pub open spec fn edges(dag: Seq<NodeView>, sink: usize) -> Map<usize, usize> {
    edges_upto(dag, topo(dag, sink), topo(dag, sink).len())
}

/// Whether the loop at position `i` inside `k` would wait for something that
/// stands above its own range.
pub open spec fn link_cycles(dag: Seq<NodeView>, sink: usize, k: usize, i: int) -> bool {
    let order = loop_order(dag, topo(dag, sink), k);
    &&& reaches(dag, sink, k)
    &&& 0 <= i < order.len()
    &&& waits(dag, k, i)
    &&& reaches(dag, waits_for(dag, k, order, i), first_range(dag, order[i]))
}

/// No edge closes a cycle.
pub open spec fn edges_acyclic(dag: Seq<NodeView>, sink: usize) -> bool {
    forall|k: usize, i: int| !#[trigger] link_cycles(dag, sink, k, i)
}

/// Siblings are ends of the walk whose parent is `k`, each once.
proof fn lemma_siblings(dag: Seq<NodeView>, walk: Seq<usize>, n: nat, k: usize)
    requires
        n <= walk.len(),
        walk.no_duplicates(),
    ensures
        siblings(dag, walk, n, k).no_duplicates(),
        forall|x: usize| #[trigger]
            siblings(dag, walk, n, k).contains(x) <==> parent(dag, walk, x) == Some(k) && exists|
                i: int,
            |
                0 <= i < n && #[trigger] walk[i] == x,
    decreases n,
{
    if n > 0 {
        let m = (n - 1) as nat;
        lemma_siblings(dag, walk, m, k);
        let had = siblings(dag, walk, m, k);
        let now = siblings(dag, walk, n, k);
        let last = walk[n - 1];
        assert forall|x: usize| #[trigger]
            now.contains(x) <==> parent(dag, walk, x) == Some(k) && exists|i: int|
                0 <= i < n && #[trigger] walk[i] == x by {
            crate::topo::lemma_push_contains(had, last, x);
            if had.contains(x) {
                let i = choose|i: int| 0 <= i < m && #[trigger] walk[i] == x;
                assert(walk[i] == x);
            }
            if x == last {
                assert(walk[n - 1] == x);
            }
        }
        if had.contains(last) {
            let i = choose|i: int| 0 <= i < m && #[trigger] walk[i] == last;
            assert(walk[i] != walk[n - 1]);
        }
        if now != had {
            assert forall|i: int, j: int| 0 <= i < now.len() && 0 <= j < now.len() && i
                != j implies now[i] != now[j] by {
                if i < had.len() && j < had.len() {
                    assert(had[i] != had[j]);
                } else if i < had.len() {
                    assert(had.contains(had[i]));
                } else {
                    assert(had.contains(had[j]));
                }
            }
        }
    }
}

proof fn lemma_parent_nests(dag: Seq<NodeView>, walk: Seq<usize>, x: usize)
    ensures
        parent(dag, walk, x) matches Some(u) ==> walk.contains(u) && nests(dag, u, x),
        parent(dag, walk, x) is None ==> forall|i: int|
            0 <= i < walk.len() ==> !nests(dag, #[trigger] walk[i], x),
    decreases walk.len(),
{
    if walk.len() > 0 {
        let rest = walk.drop_last();
        lemma_parent_nests(dag, rest, x);
        if let Some(u) = parent(dag, rest, x) {
            let i = choose|i: int| 0 <= i < rest.len() && rest[i] == u;
            assert(walk[i] == u);
        } else {
            assert forall|i: int| 0 <= i < walk.len() && !nests(dag, walk.last(), x) implies !nests(
                dag,
                #[trigger] walk[i],
                x,
            ) by {
                if i < rest.len() {
                    assert(rest[i] == walk[i]);
                }
            }
            assert(walk[walk.len() - 1] == walk.last());
        }
    }
}

/// Every loop below a sink lies inside exactly one node of its walk.
pub proof fn lemma_every_loop_has_a_parent(dag: Seq<NodeView>, sink: usize, x: usize)
    requires
        dag_wf(dag),
        sink < dag.len(),
        dag[sink as int].op is Sink,
        reaches(dag, sink, x),
        dag[x as int].op is End,
    ensures
        parent(dag, topo(dag, sink), x) is Some,
{
    let walk = topo(dag, sink);
    lemma_topo(dag, sink);
    lemma_parent_nests(dag, walk, x);
    assert(nests(dag, sink, x));
    assert(walk[walk.len() - 1] == sink);
}

proof fn lemma_rank_below(dag: Seq<NodeView>, list: Seq<usize>, n: nat, x: usize, y: usize)
    requires
        n <= list.len(),
        reaches(dag, x, y),
    ensures
        rank(dag, list, n, y) <= rank(dag, list, n, x),
        (exists|i: int| 0 <= i < n && #[trigger] list[i] == x) && !reaches(dag, y, x) ==> rank(
            dag,
            list,
            n,
            y,
        ) < rank(dag, list, n, x),
    decreases n,
{
    if n > 0 {
        lemma_rank_below(dag, list, (n - 1) as nat, x, y);
        let last = list[n - 1];
        if reaches(dag, y, last) {
            lemma_reaches_transitive(dag, x, y, last);
        }
        if (exists|i: int| 0 <= i < n && #[trigger] list[i] == x) && last != x {
            let i = choose|i: int| 0 <= i < n && #[trigger] list[i] == x;
            assert(i < n - 1);
        }
    }
}

/// Of two loops inside the same node, one that depends on the other runs after it.
pub proof fn lemma_dependent_loops_run_later(
    dag: Seq<NodeView>,
    sink: usize,
    k: usize,
    i: int,
    j: int,
)
    requires
        dag_wf(dag),
        sink < dag.len(),
        0 <= i < loop_order(dag, topo(dag, sink), k).len(),
        0 <= j < loop_order(dag, topo(dag, sink), k).len(),
        i != j,
        reaches(
            dag,
            loop_order(dag, topo(dag, sink), k)[i],
            loop_order(dag, topo(dag, sink), k)[j],
        ),
    ensures
        j < i,
{
    let walk = topo(dag, sink);
    lemma_topo(dag, sink);
    let list = siblings(dag, walk, walk.len(), k);
    let order = loop_order(dag, walk, k);
    let le = by_rank(dag, list);
    lemma_siblings(dag, walk, walk.len(), k);
    lemma_sorted_members(le, list);
    lemma_stably_sorted(le, list);
    assert(in_order(le, order));
    let x = order[i];
    let y = order[j];
    assert(x != y);
    if reaches(dag, y, x) {
        lemma_reaches_below(dag, x, y);
        lemma_reaches_below(dag, y, x);
    }
    assert(order.contains(x));
    assert(list.contains(x));
    lemma_rank_below(dag, list, list.len(), x, y);
    if i < j {
        assert(le(order[i], order[j]));
    }
}

/// No two loops below a sink are named by the same range.
pub open spec fn ranges_close_once(dag: Seq<NodeView>, sink: usize) -> bool {
    forall|x: usize, y: usize|
        #![trigger first_range(dag, x), first_range(dag, y)]
        reaches(dag, sink, x) && reaches(dag, sink, y) && dag[x as int].op is End
            && dag[y as int].op is End && first_range(dag, x) == first_range(dag, y) ==> x == y
}

proof fn lemma_group_edge(
    dag: Seq<NodeView>,
    k: usize,
    order: Seq<usize>,
    n: nat,
    base: Map<usize, usize>,
    at: int,
    key: usize,
)
    requires
        n <= order.len(),
        !base.contains_key(key),
        forall|j: int|
            0 <= j < order.len() ==> (first_range(dag, #[trigger] order[j]) == key <==> j == at),
    ensures
        group_edges(dag, k, order, n, base).contains_key(key) <==> 0 <= at < n && waits(dag, k, at),
        0 <= at < n && waits(dag, k, at) ==> group_edges(dag, k, order, n, base)[key] == waits_for(
            dag,
            k,
            order,
            at,
        ),
    decreases n,
{
    if n > 0 {
        lemma_group_edge(dag, k, order, (n - 1) as nat, base, at, key);
        assert(first_range(dag, order[n - 1]) == key <==> n - 1 == at);
    }
}

proof fn lemma_group_keeps(
    dag: Seq<NodeView>,
    k: usize,
    order: Seq<usize>,
    n: nat,
    base: Map<usize, usize>,
    key: usize,
)
    requires
        n <= order.len(),
        forall|j: int| 0 <= j < order.len() ==> first_range(dag, #[trigger] order[j]) != key,
    ensures
        group_edges(dag, k, order, n, base).contains_key(key) == base.contains_key(key),
        base.contains_key(key) ==> group_edges(dag, k, order, n, base)[key] == base[key],
    decreases n,
{
    if n > 0 {
        lemma_group_keeps(dag, k, order, (n - 1) as nat, base, key);
        assert(first_range(dag, order[n - 1]) != key);
    }
}

/// The members of an order are ends with that parent, each once.
proof fn lemma_order_members(dag: Seq<NodeView>, sink: usize, k: usize)
    requires
        dag_wf(dag),
        sink < dag.len(),
    ensures
        loop_order(dag, topo(dag, sink), k).no_duplicates(),
        forall|i: int|
            0 <= i < loop_order(dag, topo(dag, sink), k).len() ==> {
                let x = #[trigger] loop_order(dag, topo(dag, sink), k)[i];
                &&& reaches(dag, sink, x)
                &&& dag[x as int].op is End
                &&& parent(dag, topo(dag, sink), x) == Some(k)
            },
{
    let walk = topo(dag, sink);
    lemma_topo(dag, sink);
    let list = siblings(dag, walk, walk.len(), k);
    lemma_siblings(dag, walk, walk.len(), k);
    lemma_sorted_members(by_rank(dag, list), list);
    let order = loop_order(dag, walk, k);
    assert forall|i: int| 0 <= i < order.len() implies {
        let x = #[trigger] order[i];
        &&& reaches(dag, sink, x)
        &&& dag[x as int].op is End
        &&& parent(dag, walk, x) == Some(k)
    } by {
        let x = order[i];
        assert(order.contains(x));
        assert(list.contains(x));
        let p = choose|p: int| 0 <= p < walk.len() && #[trigger] walk[p] == x;
        assert(walk.contains(x));
        lemma_parent_nests(dag, walk, x);
    }
}

proof fn lemma_edge_upto(
    dag: Seq<NodeView>,
    sink: usize,
    p: int,
    i: int,
    n: nat,
)
    requires
        dag_wf(dag),
        sink < dag.len(),
        ranges_close_once(dag, sink),
        n <= topo(dag, sink).len(),
        0 <= p < topo(dag, sink).len(),
        0 <= i < loop_order(dag, topo(dag, sink), topo(dag, sink)[p]).len(),
    ensures
        ({
            let k = topo(dag, sink)[p];
            let order = loop_order(dag, topo(dag, sink), k);
            let key = first_range(dag, order[i]);
            let map = edges_upto(dag, topo(dag, sink), n);
            &&& map.contains_key(key) <==> p < n && waits(dag, k, i)
            &&& p < n && waits(dag, k, i) ==> map[key] == waits_for(dag, k, order, i)
        }),
    decreases n,
{
    let walk = topo(dag, sink);
    let k = walk[p];
    let order = loop_order(dag, walk, k);
    let key = first_range(dag, order[i]);
    lemma_topo(dag, sink);
    lemma_order_members(dag, sink, k);
    if n > 0 {
        let m = (n - 1) as nat;
        lemma_edge_upto(dag, sink, p, i, m);
        let other = walk[n - 1];
        let list = loop_order(dag, walk, other);
        lemma_order_members(dag, sink, other);
        let base = edges_upto(dag, walk, m);
        if n - 1 == p {
            assert forall|j: int| 0 <= j < order.len() implies (first_range(dag, #[trigger] order[j])
                == key <==> j == i) by {
                if first_range(dag, order[j]) == key {
                    assert(order[j] == order[i]);
                }
            }
            lemma_group_edge(dag, k, order, order.len(), base, i, key);
        } else {
            assert(other != k);
            assert forall|j: int| 0 <= j < list.len() implies first_range(dag, #[trigger] list[j])
                != key by {
                if first_range(dag, list[j]) == key {
                    assert(list[j] == order[i]);
                }
            }
            lemma_group_keeps(dag, other, list, list.len(), base, key);
        }
    }
}

/// Where no range names two loops, each loop's range waits for the loop that
/// runs before it; the first loop inside an `End` waits for the range that
/// this closes, and the first loop of a sink for nothing.
pub proof fn lemma_edges_follow_the_order(dag: Seq<NodeView>, sink: usize, k: usize, i: int)
    requires
        dag_wf(dag),
        sink < dag.len(),
        ranges_close_once(dag, sink),
        reaches(dag, sink, k),
        0 <= i < loop_order(dag, topo(dag, sink), k).len(),
    ensures
        ({
            let order = loop_order(dag, topo(dag, sink), k);
            let key = first_range(dag, order[i]);
            &&& edges(dag, sink).contains_key(key) <==> waits(dag, k, i)
            &&& waits(dag, k, i) ==> edges(dag, sink)[key] == waits_for(dag, k, order, i)
        }),
{
    let walk = topo(dag, sink);
    lemma_topo(dag, sink);
    assert(walk.contains(k));
    let p = choose|p: int| 0 <= p < walk.len() && walk[p] == k;
    lemma_edge_upto(dag, sink, p, i, walk.len());
}

/// An edge that would make a range wait for something above itself.
#[derive(Clone, Copy, Debug, PartialEq, Eq, Structural)]
pub struct CycleError {
    pub range: usize,
    pub predecessor: usize,
}

/// For each range that has to wait, what it waits for.
pub struct CFGContext {
    edges: HashMap<usize, usize>,
}

impl View for CFGContext {
    type V = Map<usize, usize>;

    closed spec fn view(&self) -> Map<usize, usize> {
        self.edges@
    }
}

fn range_of(graph: &Graph, end: usize) -> (range: usize)
    requires
        graph.wf(),
        end < graph@.len(),
        graph@[end as int].op is End,
    ensures
        range == first_range(graph@, end),
        range < end,
{
    assert(arity_ok(graph@[end as int].op, graph@[end as int].srcs.len()));
    graph.source(end, 1)
}

fn lies_inside(graph: &Graph, rows: &Vec<Vec<bool>>, u: usize, x: usize) -> (inside: bool)
    requires
        graph.wf(),
        u < graph@.len(),
        x < graph@.len(),
        rows@.len() == graph@.len(),
        forall|i: usize| i < graph@.len() ==> reach_row_ok(graph@, i, #[trigger] rows@[i as int]@),
    ensures
        inside == nests(graph@, u, x),
{
    let ghost dag = graph@;
    assert(reach_row_ok(dag, u, rows@[u as int]@));
    assert(reach_row_ok(dag, x, rows@[x as int]@));
    assert(rows@[u as int]@[x as int] == reaches(dag, u, x));
    match graph.op(x) {
        Op::End => {},
        _ => {
            return false;
        },
    }
    if u == x || !rows[u][x] {
        return false;
    }
    match graph.op(u) {
        Op::Sink => true,
        Op::End => {
            let range: usize = range_of(graph, u);
            assert(rows@[x as int]@[range as int] == reaches(dag, x, range));
            let loops: bool = match graph.op(range) {
                Op::Range { .. } | Op::End => true,
                _ => false,
            };
            loops && rows[x][range]
        },
        _ => false,
    }
}

fn find_parent(graph: &Graph, rows: &Vec<Vec<bool>>, walk: &Vec<usize>, x: usize) -> (found: Option<
    usize,
>)
    requires
        graph.wf(),
        x < graph@.len(),
        rows@.len() == graph@.len(),
        forall|i: usize| i < graph@.len() ==> reach_row_ok(graph@, i, #[trigger] rows@[i as int]@),
        ordered(graph@, walk@),
    ensures
        found == parent(graph@, walk@, x),
{
    let ghost dag = graph@;
    let mut at: usize = 0;
    while at < walk.len()
        invariant
            graph.wf(),
            dag == graph@,
            x < dag.len(),
            rows@.len() == dag.len(),
            forall|i: usize| i < dag.len() ==> reach_row_ok(dag, i, #[trigger] rows@[i as int]@),
            ordered(dag, walk@),
            at <= walk@.len(),
            parent(dag, walk@.take(at as int), x) is None,
        decreases walk@.len() - at,
    {
        let u: usize = walk[at];
        let ghost now = walk@.take(at + 1);
        assert(now.drop_last() =~= walk@.take(at as int));
        assert(now.last() == u);
        if lies_inside(graph, rows, u, x) {
            assert(parent(dag, now, x) == Some(u));
            proof {
                lemma_parent_prefix(dag, walk@, at + 1, x);
            }
            return Some(u);
        }
        assert(parent(dag, now, x) is None);
        at += 1;
    }
    assert(walk@.take(walk@.len() as int) =~= walk@);
    None
}

/// The first node that `x` lies inside of stays the first in a longer walk.
proof fn lemma_parent_prefix(dag: Seq<NodeView>, walk: Seq<usize>, n: int, x: usize)
    requires
        0 <= n <= walk.len(),
        parent(dag, walk.take(n), x) is Some,
    ensures
        parent(dag, walk, x) == parent(dag, walk.take(n), x),
    decreases walk.len() - n,
{
    if n == walk.len() {
        assert(walk.take(n) =~= walk);
    } else {
        let next = walk.take(n + 1);
        assert(next.drop_last() =~= walk.take(n));
        lemma_parent_prefix(dag, walk, n + 1, x);
    }
}

fn find_siblings(walk: &Vec<usize>, parents: &Vec<Option<usize>>, k: usize, graph: &Graph) -> (list:
    Vec<usize>)
    requires
        parents@.len() == walk@.len(),
        forall|i: int|
            0 <= i < walk@.len() ==> #[trigger] parents@[i] == parent(graph@, walk@, walk@[i]),
    ensures
        list@ == siblings(graph@, walk@, walk@.len(), k),
{
    let mut list: Vec<usize> = Vec::new();
    let mut at: usize = 0;
    while at < walk.len()
        invariant
            parents@.len() == walk@.len(),
            forall|i: int|
                0 <= i < walk@.len() ==> #[trigger] parents@[i] == parent(graph@, walk@, walk@[i]),
            at <= walk@.len(),
            list@ == siblings(graph@, walk@, at as nat, k),
        decreases walk@.len() - at,
    {
        let inside: bool = match parents[at] {
            Some(u) => u == k,
            None => false,
        };
        assert(parents@[at as int] == parent(graph@, walk@, walk@[at as int]));
        if inside {
            list.push(walk[at]);
        }
        at += 1;
    }
    list
}

fn find_rank(graph: &Graph, rows: &Vec<Vec<bool>>, list: &Vec<usize>, x: usize) -> (count: usize)
    requires
        rank_ready(graph@, rows@, list@, x),
    ensures
        count == rank(graph@, list@, list@.len(), x),
{
    let ghost dag = graph@;
    let mut count: usize = 0;
    let mut at: usize = 0;
    assert(reach_row_ok(dag, x, rows@[x as int]@));
    while at < list.len()
        invariant
            dag == graph@,
            x < dag.len(),
            rows@.len() == dag.len(),
            reach_row_ok(dag, x, rows@[x as int]@),
            forall|i: int| 0 <= i < list@.len() ==> (#[trigger] list@[i]) < dag.len(),
            at <= list@.len(),
            count <= at,
            count == rank(dag, list@, at as nat, x),
        decreases list@.len() - at,
    {
        let y: usize = list[at];
        assert(rows@[x as int]@[y as int] == reaches(dag, x, y));
        if rows[x][y] {
            count += 1;
        }
        at += 1;
    }
    count
}

/// What the rank of an end is computed from.
spec fn rank_ready(dag: Seq<NodeView>, rows: Seq<Vec<bool>>, list: Seq<usize>, x: usize) -> bool {
    &&& x < dag.len()
    &&& rows.len() == dag.len()
    &&& forall|i: usize| i < dag.len() ==> reach_row_ok(dag, i, #[trigger] rows[i as int]@)
    &&& forall|i: int| 0 <= i < list.len() ==> (#[trigger] list[i]) < dag.len()
}

/// The loops directly inside `k`, in the order in which they run.
fn find_order(
    graph: &Graph,
    rows: &Vec<Vec<bool>>,
    walk: &Vec<usize>,
    parents: &Vec<Option<usize>>,
    k: usize,
) -> (order: Vec<usize>)
    requires
        graph.wf(),
        rows@.len() == graph@.len(),
        forall|i: usize| i < graph@.len() ==> reach_row_ok(graph@, i, #[trigger] rows@[i as int]@),
        ordered(graph@, walk@),
        parents@.len() == walk@.len(),
        forall|i: int|
            0 <= i < walk@.len() ==> #[trigger] parents@[i] == parent(graph@, walk@, walk@[i]),
    ensures
        order@ == loop_order(graph@, walk@, k),
        forall|i: int|
            0 <= i < order@.len() ==> (#[trigger] order@[i]) < graph@.len()
                && graph@[order@[i] as int].op is End,
        order@.len() > 0 ==> graph@[k as int].op is Sink || graph@[k as int].op is End,
{
    let ghost dag = graph@;
    let list = find_siblings(walk, parents, k, graph);
    proof {
        lemma_siblings(dag, walk@, walk@.len(), k);
        assert forall|i: int| 0 <= i < list@.len() implies (#[trigger] list@[i]) < dag.len()
            && dag[list@[i] as int].op is End by {
            assert(list@.contains(list@[i]));
            lemma_parent_nests(dag, walk@, list@[i]);
        }
        lemma_sorted_members(by_rank(dag, list@), list@);
    }
    let before = |a: usize, b: usize| -> (r: bool)
        requires
            rank_ready(graph@, rows@, list@, a),
            rank_ready(graph@, rows@, list@, b),
        ensures
            r == by_rank(graph@, list@)(a, b),
        {
            let left: usize = find_rank(graph, rows, &list, a);
            let right: usize = find_rank(graph, rows, &list, b);
            left <= right
        };
    let order = stable_sort(
        &list,
        before,
        Ghost(by_rank(dag, list@)),
        Ghost(|a: usize| rank_ready(dag, rows@, list@, a)),
    );
    proof {
        assert forall|i: int| 0 <= i < order@.len() implies (#[trigger] order@[i]) < dag.len()
            && dag[order@[i] as int].op is End by {
            assert(order@.contains(order@[i]));
            assert(list@.contains(order@[i]));
        }
        if order@.len() > 0 {
            assert(order@.contains(order@[0]));
            assert(list@.contains(order@[0]));
            lemma_parent_nests(dag, walk@, order@[0]);
        }
    }
    order
}

impl CFGContext {
    /// Orders the loops below a sink. Each loop waits for the one that runs
    /// before it inside the same node, and the first loop inside an `End` for
    /// the range that this closes. Fails on an edge that would close a cycle.
    pub fn try_new(graph: &Graph, sink: usize) -> (result: Result<CFGContext, CycleError>)
        requires
            graph.wf(),
            sink < graph@.len(),
        ensures
            result is Ok <==> edges_acyclic(graph@, sink),
            result matches Ok(context) ==> context@ == edges(graph@, sink),
            result matches Err(error) ==> exists|k: usize, i: int| #[trigger]
                link_cycles(graph@, sink, k, i) && error.range == first_range(
                    graph@,
                    loop_order(graph@, topo(graph@, sink), k)[i],
                ) && error.predecessor == waits_for(
                    graph@,
                    k,
                    loop_order(graph@, topo(graph@, sink), k),
                    i,
                ),
    {
        let ghost dag = graph@;
        let walk = graph.toposort(sink);
        let rows = graph.reach();
        let mut parents: Vec<Option<usize>> = Vec::new();
        let mut at: usize = 0;
        while at < walk.len()
            invariant
                graph.wf(),
                dag == graph@,
                rows@.len() == dag.len(),
                forall|i: usize| i < dag.len() ==> reach_row_ok(dag, i, #[trigger] rows@[i as int]@),
                ordered(dag, walk@),
                at <= walk@.len(),
                parents@.len() == at,
                forall|i: int| 0 <= i < at ==> #[trigger] parents@[i] == parent(dag, walk@, walk@[i]),
            decreases walk@.len() - at,
        {
            let x: usize = walk[at];
            parents.push(find_parent(graph, &rows, &walk, x));
            at += 1;
        }
        let mut edges: HashMap<usize, usize> = HashMap::new();
        let mut n: usize = 0;
        while n < walk.len()
            invariant
                graph.wf(),
                dag == graph@,
                walk@ == topo(dag, sink),
                rows@.len() == dag.len(),
                forall|i: usize| i < dag.len() ==> reach_row_ok(dag, i, #[trigger] rows@[i as int]@),
                ordered(dag, walk@),
                forall|x: usize| #[trigger] walk@.contains(x) <==> reaches(dag, sink, x),
                parents@.len() == walk@.len(),
                forall|i: int|
                    0 <= i < walk@.len() ==> #[trigger] parents@[i] == parent(dag, walk@, walk@[i]),
                n <= walk@.len(),
                edges@ == edges_upto(dag, walk@, n as nat),
                forall|m: int, i: int|
                    0 <= m < n ==> !#[trigger] link_cycles(dag, sink, walk@[m], i),
            decreases walk@.len() - n,
        {
            let k: usize = walk[n];
            assert(walk@.contains(k));
            let order = find_order(graph, &rows, &walk, &parents, k);
            let ghost base = edges@;
            let sinks: bool = match graph.op(k) {
                Op::Sink => true,
                _ => false,
            };
            let mut i: usize = 0;
            while i < order.len()
                invariant
                    graph.wf(),
                    dag == graph@,
                    walk@ == topo(dag, sink),
                    k < dag.len(),
                    reaches(dag, sink, k),
                    order@ == loop_order(dag, walk@, k),
                    order@.len() > 0 ==> dag[k as int].op is Sink || dag[k as int].op is End,
                    sinks == dag[k as int].op is Sink,
                    rows@.len() == dag.len(),
                    forall|j: usize|
                        j < dag.len() ==> reach_row_ok(dag, j, #[trigger] rows@[j as int]@),
                    forall|j: int|
                        0 <= j < order@.len() ==> (#[trigger] order@[j]) < dag.len()
                            && dag[order@[j] as int].op is End,
                    i <= order@.len(),
                    edges@ == group_edges(dag, k, order@, i as nat, base),
                    forall|j: int| 0 <= j < i ==> !#[trigger] link_cycles(dag, sink, k, j),
                decreases order@.len() - i,
            {
                if i > 0 || !sinks {
                    let range: usize = range_of(graph, order[i]);
                    let predecessor: usize = if i == 0 {
                        range_of(graph, k)
                    } else {
                        order[i - 1]
                    };
                    assert(predecessor == waits_for(dag, k, order@, i as int));
                    assert(reach_row_ok(dag, predecessor, rows@[predecessor as int]@));
                    assert(rows@[predecessor as int]@[range as int] == reaches(
                        dag,
                        predecessor,
                        range,
                    ));
                    if rows[predecessor][range] {
                        assert(link_cycles(dag, sink, k, i as int));
                        return Err(CycleError { range, predecessor });
                    }
                    edges.insert(range, predecessor);
                }
                assert(!link_cycles(dag, sink, k, i as int));
                i += 1;
            }
            n += 1;
        }
        proof {
            assert forall|k: usize, i: int| !#[trigger] link_cycles(dag, sink, k, i) by {
                if link_cycles(dag, sink, k, i) {
                    assert(walk@.contains(k));
                    let m = choose|m: int| 0 <= m < walk@.len() && walk@[m] == k;
                    assert(!link_cycles(dag, sink, walk@[m], i));
                }
            }
        }
        Ok(CFGContext { edges })
    }

    /// Orders the loops below a sink whose edges close no cycle.
    pub fn new(graph: &Graph, sink: usize) -> (context: CFGContext)
        requires
            graph.wf(),
            sink < graph@.len(),
            edges_acyclic(graph@, sink),
        ensures
            context@ == edges(graph@, sink),
    {
        match CFGContext::try_new(graph, sink) {
            Ok(context) => context,
            Err(_) => CFGContext { edges: HashMap::new() },
        }
    }

    /// Whether any range has to wait.
    pub fn has_edges(&self) -> (some: bool)
        ensures
            some == (self@.len() > 0),
    {
        self.edges.len() > 0
    }

    /// The number of ranges that have to wait.
    pub fn edge_count(&self) -> (count: usize)
        ensures
            count == self@.len(),
    {
        self.edges.len()
    }

    /// What a range has to wait for.
    pub fn get_predecessor(&self, range: usize) -> (found: Option<usize>)
        ensures
            found == if self@.contains_key(range) {
                Some(self@[range])
            } else {
                None
            },
    {
        match self.edges.get(&range) {
            Some(found) => Some(*found),
            None => None,
        }
    }
}

} // verus!
