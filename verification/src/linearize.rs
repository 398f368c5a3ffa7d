//! One program out of a graph: every node behind its sources, and otherwise as
//! close to the order of priorities and keys as that allows.

use vstd::prelude::*;

use crate::graph::{dag_wf, AddrSpace, Graph, NodeView, Op};
use crate::keys::{
    lemma_tree_order_flips, lemma_tree_order_reflexive, lemma_tree_order_transitive, order_row_ok,
    Keys, Order,
};
use crate::scope::{countable, trips};
use crate::sort::{
    lemma_sorted_members, lemma_stably_sorted, stable_sort, stably_sorted, total_preorder,
};
use crate::topo::{
    before, lemma_distinct_len, lemma_ordered_closed, lemma_ordered_push, lemma_push_contains, lemma_reaches_below,
    lemma_reaches_transitive, lemma_topo, ordered, reach_row_ok, reaches, topo,
};

verus! {

/// Where a node wants to stand: nodes that run less often come first, then
/// those of a smaller priority, then those of a smaller slot.
pub struct Placement {
    pub count: int,
    pub priority: i32,
    pub slot: Option<i64>,
}

/// Slots compare by number; no slot comes before any.
pub open spec fn slot_order(a: Option<i64>, b: Option<i64>) -> Order {
    match (a, b) {
        (None, None) => Order::Equal,
        (None, Some(_)) => Order::Less,
        (Some(_), None) => Order::Greater,
        (Some(x), Some(y)) => crate::keys::int_order(x as int, y as int),
    }
}

/// How two placements are ordered.
pub open spec fn placement_order(a: Placement, b: Placement) -> Order {
    if a.count != b.count {
        crate::keys::int_order(a.count, b.count)
    } else if a.priority != b.priority {
        crate::keys::int_order(a.priority as int, b.priority as int)
    } else {
        slot_order(a.slot, b.slot)
    }
}

/// Where a node wants to stand, from its loops and its priority.
pub open spec fn placement(
    dag: Seq<NodeView>,
    priorities: Seq<(i32, Option<i64>)>,
    id: usize,
) -> Placement {
    Placement {
        count: trips(dag, id, dag.len()),
        priority: priorities[id as int].0,
        slot: priorities[id as int].1,
    }
}

/// The order in which nodes want to stand: by placement and then by key.
pub open spec fn wanted(
    dag: Seq<NodeView>,
    priorities: Seq<(i32, Option<i64>)>,
    keys: &Keys,
) -> spec_fn(usize, usize) -> bool {
    |a: usize, b: usize|
        {
            let order = placement_order(
                placement(dag, priorities, a),
                placement(dag, priorities, b),
            );
            order == Order::Less || (order == Order::Equal && keys.order(dag, a, b)
                != Order::Greater)
        }
}

/// The order of nodes by their keys alone.
pub open spec fn by_key(dag: Seq<NodeView>, keys: &Keys) -> spec_fn(usize, usize) -> bool {
    |a: usize, b: usize| keys.order(dag, a, b) != Order::Greater
}

/// The position at which a list holds `x`.
pub open spec fn position(list: Seq<usize>, x: usize) -> int {
    choose|i: int| 0 <= i < list.len() && #[trigger] list[i] == x
}

proof fn lemma_position(list: Seq<usize>, i: int)
    requires
        list.no_duplicates(),
        0 <= i < list.len(),
    ensures
        position(list, list[i]) == i,
{
    let p = position(list, list[i]);
    assert(0 <= p < list.len() && list[p] == list[i]);
}

/// Whether every user of `x` below the sink is in `out`, and `x` is not.
pub open spec fn ready(dag: Seq<NodeView>, sink: usize, out: Seq<usize>, x: usize) -> bool {
    &&& reaches(dag, sink, x)
    &&& !out.contains(x)
    &&& forall|u: usize|
        reaches(dag, sink, u) && (#[trigger] dag[u as int]).srcs.contains(x) ==> out.contains(u)
}

/// Whether `x` is the node to take next: of those that are ready, the one that
/// wants to stand last.
pub open spec fn takes(
    dag: Seq<NodeView>,
    sink: usize,
    sorted: Seq<usize>,
    out: Seq<usize>,
    x: usize,
) -> bool {
    &&& ready(dag, sink, out, x)
    &&& forall|y: usize| #[trigger]
        ready(dag, sink, out, y) ==> position(sorted, y) <= position(sorted, x)
}

/// The nodes below a sink, taken one after the other from the end of the
/// program to its start.
pub open spec fn taken(
    dag: Seq<NodeView>,
    sink: usize,
    sorted: Seq<usize>,
    out: Seq<usize>,
) -> bool {
    &&& forall|i: int|
        0 <= i < out.len() ==> takes(dag, sink, sorted, #[trigger] out.take(i), out[i])
    &&& forall|x: usize| reaches(dag, sink, x) ==> #[trigger] out.contains(x)
}

/// A program for the graph below a sink: each of its nodes once, behind its
/// sources, and the sink last.
pub open spec fn topological(dag: Seq<NodeView>, sink: usize, list: Seq<usize>) -> bool {
    &&& ordered(dag, list)
    &&& forall|x: usize| #[trigger] list.contains(x) <==> reaches(dag, sink, x)
    &&& list.len() > 0
    &&& list.last() == sink
}

/// Every node below the sink, other than the sink, has a user there.
proof fn lemma_has_user(dag: Seq<NodeView>, from: usize, x: usize) -> (user: usize)
    requires
        reaches(dag, from, x),
        from != x,
    ensures
        reaches(dag, from, user),
        dag[user as int].srcs.contains(x),
    decreases from,
{
    let k = choose|k: int|
        #![trigger dag[from as int].srcs[k]]
        0 <= k < dag[from as int].srcs.len() && dag[from as int].srcs[k] < from && reaches(
            dag,
            dag[from as int].srcs[k],
            x,
        );
    let src = dag[from as int].srcs[k];
    if src == x {
        from
    } else {
        let user = lemma_has_user(dag, src, x);
        assert(reaches(dag, from, src)) by {
            assert(reaches(dag, src, src));
        }
        lemma_reaches_transitive(dag, from, src, user);
        user
    }
}

/// What has been taken, read backwards, is a program.
pub proof fn lemma_taken_is_topological(
    dag: Seq<NodeView>,
    sink: usize,
    sorted: Seq<usize>,
    out: Seq<usize>,
)
    requires
        dag_wf(dag),
        sink < dag.len(),
        taken(dag, sink, sorted, out),
    ensures
        topological(dag, sink, out.reverse()),
{
    let list = out.reverse();
    assert forall|x: usize| #[trigger] list.contains(x) <==> reaches(dag, sink, x) by {
        if list.contains(x) {
            let i = choose|i: int| 0 <= i < list.len() && list[i] == x;
            let j = out.len() - 1 - i;
            assert(out[j] == x);
            assert(takes(dag, sink, sorted, out.take(j), out[j]));
        }
        if reaches(dag, sink, x) {
            assert(out.contains(x));
            let i = choose|i: int| 0 <= i < out.len() && out[i] == x;
            assert(list[out.len() - 1 - i] == x);
        }
    }
    assert(reaches(dag, sink, sink));
    assert(out.contains(sink));
    assert(out.len() > 0);
    assert(out[0] == sink) by {
        assert(takes(dag, sink, sorted, out.take(0), out[0]));
        if out[0] != sink {
            let user = lemma_has_user(dag, sink, out[0]);
            assert(dag[user as int].srcs.contains(out[0]));
            assert(out.take(0).contains(user));
        }
    }
    assert forall|i: int, j: int| 0 <= i < out.len() && 0 <= j < out.len() && i != j implies out[i]
        != out[j] by {
        if i < j {
            assert(takes(dag, sink, sorted, out.take(j), out[j]));
            assert(out.take(j)[i] == out[i]);
            assert(out.take(j).contains(out[i]));
        } else {
            assert(takes(dag, sink, sorted, out.take(i), out[i]));
            assert(out.take(i)[j] == out[j]);
            assert(out.take(i).contains(out[j]));
        }
    }
    assert forall|p: int| 0 <= p < list.len() implies (#[trigger] list[p]) < dag.len() by {
        assert(list.contains(list[p]));
        lemma_reaches_below(dag, sink, list[p]);
    }
    assert forall|p: int, k: int|
        #![trigger dag[list[p] as int].srcs[k]]
        0 <= p < list.len() && 0 <= k < dag[list[p] as int].srcs.len() implies before(
        list,
        p,
        dag[list[p] as int].srcs[k],
    ) by {
        let u = list[p];
        let x = dag[u as int].srcs[k];
        assert(list.contains(u));
        assert(x < u);
        assert(reaches(dag, u, x)) by {
            assert(reaches(dag, x, x));
        }
        lemma_reaches_transitive(dag, sink, u, x);
        assert(out.contains(x));
        let i = choose|i: int| 0 <= i < out.len() && out[i] == x;
        assert(takes(dag, sink, sorted, out.take(i), out[i]));
        assert(dag[u as int].srcs.contains(x));
        assert(out.take(i).contains(u));
        let j = choose|j: int| 0 <= j < out.take(i).len() && out.take(i)[j] == u;
        assert(out[j] == u && j < i);
        assert(out[out.len() - 1 - p] == u);
        assert(j == out.len() - 1 - p);
        assert(list[out.len() - 1 - i] == x);
    }
}

/// There is one way to take the nodes of a graph.
pub proof fn lemma_taken_once(
    dag: Seq<NodeView>,
    sink: usize,
    sorted: Seq<usize>,
    a: Seq<usize>,
    b: Seq<usize>,
)
    requires
        dag_wf(dag),
        sink < dag.len(),
        taken(dag, sink, sorted, a),
        taken(dag, sink, sorted, b),
        forall|x: usize| reaches(dag, sink, x) ==> #[trigger] sorted.contains(x),
    ensures
        a == b,
{
    lemma_taken_same(dag, sink, sorted, a, b, a.len());
    lemma_taken_same(dag, sink, sorted, b, a, b.len());
    assert(a.take(a.len() as int) =~= a);
    assert(b.take(a.len() as int) =~= b);
}

proof fn lemma_taken_same(
    dag: Seq<NodeView>,
    sink: usize,
    sorted: Seq<usize>,
    a: Seq<usize>,
    b: Seq<usize>,
    n: nat,
)
    requires
        taken(dag, sink, sorted, a),
        taken(dag, sink, sorted, b),
        forall|x: usize| reaches(dag, sink, x) ==> #[trigger] sorted.contains(x),
        n <= a.len(),
    ensures
        n <= b.len(),
        a.take(n as int) == b.take(n as int),
    decreases n,
{
    if n == 0 {
        assert(a.take(0) =~= b.take(0));
    } else {
        let m = n - 1;
        lemma_taken_same(dag, sink, sorted, a, b, m as nat);
        let done = a.take(m);
        assert(takes(dag, sink, sorted, a.take(m), a[m]));
        let x = a[m];
        if b.len() == m {
            assert(b.take(m) =~= b);
            assert(b.contains(x));
        }
        assert(takes(dag, sink, sorted, b.take(m), b[m]));
        let y = b[m];
        assert(ready(dag, sink, done, x) && ready(dag, sink, done, y));
        assert(position(sorted, x) == position(sorted, y));
        assert(sorted.contains(x) && sorted.contains(y));
        let i = choose|i: int| 0 <= i < sorted.len() && sorted[i] == x;
        assert(sorted[position(sorted, x)] == x);
        let j = choose|j: int| 0 <= j < sorted.len() && sorted[j] == y;
        assert(sorted[position(sorted, y)] == y);
        assert(a.take(n as int) =~= done.push(x));
        assert(b.take(n as int) =~= done.push(y));
    }
}

/// One for a user of `v`, and nothing for any other node.
spec fn uses(dag: Seq<NodeView>, u: usize, v: usize) -> nat {
    if dag[u as int].srcs.contains(v) {
        1
    } else {
        0
    }
}

/// How many of the first `n` nodes of a walk use `v` and have not been taken.
spec fn pending(dag: Seq<NodeView>, walk: Seq<usize>, out: Seq<usize>, v: usize, n: nat) -> nat
    decreases n,
{
    if n == 0 {
        0
    } else {
        let u = walk[n - 1];
        let rest = pending(dag, walk, out, v, (n - 1) as nat);
        if out.contains(u) {
            rest
        } else {
            rest + uses(dag, u, v)
        }
    }
}

/// Nothing is pending for `v` when all its users have been taken.
proof fn lemma_pending_zero(
    dag: Seq<NodeView>,
    walk: Seq<usize>,
    out: Seq<usize>,
    v: usize,
    n: nat,
)
    requires
        n <= walk.len(),
    ensures
        pending(dag, walk, out, v, n) == 0 <==> forall|p: int|
            0 <= p < n && dag[(#[trigger] walk[p]) as int].srcs.contains(v) ==> out.contains(
                walk[p],
            ),
    decreases n,
{
    if n > 0 {
        lemma_pending_zero(dag, walk, out, v, (n - 1) as nat);
        if pending(dag, walk, out, v, n) == 0 {
            assert forall|p: int|
                0 <= p < n && dag[(#[trigger] walk[p]) as int].srcs.contains(v) implies out.contains(
                walk[p],
            ) by {
                if p < n - 1 {
                    assert(out.contains(walk[p]));
                }
            }
        }
    }
}

/// Taking a node takes one use off each of its sources.
proof fn lemma_pending_push(
    dag: Seq<NodeView>,
    walk: Seq<usize>,
    out: Seq<usize>,
    u: usize,
    v: usize,
    n: nat,
)
    requires
        n <= walk.len(),
        walk.no_duplicates(),
        !out.contains(u),
    ensures
        pending(dag, walk, out, v, n) == pending(dag, walk, out.push(u), v, n) + if exists|p: int|
            0 <= p < n && #[trigger] walk[p] == u {
            uses(dag, u, v)
        } else {
            0
        },
    decreases n,
{
    if n > 0 {
        let m = (n - 1) as nat;
        lemma_pending_push(dag, walk, out, u, v, m);
        let last = walk[n - 1];
        lemma_push_contains(out, u, last);
        if last == u {
            assert forall|p: int| 0 <= p < m implies #[trigger] walk[p] != u by {
                assert(walk[p] != walk[n - 1]);
            }
            assert(walk[n - 1] == u);
        } else {
            if exists|p: int| 0 <= p < n && #[trigger] walk[p] == u {
                let p = choose|p: int| 0 <= p < n && #[trigger] walk[p] == u;
                assert(p < m);
            }
        }
    }
}

proof fn lemma_pending_bound(
    dag: Seq<NodeView>,
    walk: Seq<usize>,
    out: Seq<usize>,
    v: usize,
    n: nat,
)
    ensures
        pending(dag, walk, out, v, n) <= n,
    decreases n,
{
    if n > 0 {
        lemma_pending_bound(dag, walk, out, v, (n - 1) as nat);
    }
}

/// A node is ready when it is in the walk, not taken, and nothing is pending.
proof fn lemma_ready(
    dag: Seq<NodeView>,
    sink: usize,
    out: Seq<usize>,
    x: usize,
)
    requires
        dag_wf(dag),
        sink < dag.len(),
    ensures
        ready(dag, sink, out, x) <==> topo(dag, sink).contains(x) && !out.contains(x) && pending(
            dag,
            topo(dag, sink),
            out,
            x,
            topo(dag, sink).len(),
        ) == 0,
{
    let walk = topo(dag, sink);
    lemma_topo(dag, sink);
    lemma_pending_zero(dag, walk, out, x, walk.len());
    if ready(dag, sink, out, x) {
        assert(walk.contains(x));
        assert forall|p: int|
            0 <= p < walk.len() && dag[(#[trigger] walk[p]) as int].srcs.contains(x) implies out.contains(
            walk[p],
        ) by {
            assert(walk.contains(walk[p]));
        }
    }
    if walk.contains(x) && !out.contains(x) && pending(dag, walk, out, x, walk.len()) == 0 {
        assert forall|u: usize|
            reaches(dag, sink, u) && (#[trigger] dag[u as int]).srcs.contains(x) implies out.contains(
            u,
        ) by {
            assert(walk.contains(u));
            let p = choose|p: int| 0 <= p < walk.len() && walk[p] == u;
            assert(out.contains(walk[p]));
        }
    }
}

/// While a node of the walk is missing, one is ready.
proof fn lemma_some_ready(
    dag: Seq<NodeView>,
    sink: usize,
    out: Seq<usize>,
    x: usize,
) -> (found: usize)
    requires
        dag_wf(dag),
        sink < dag.len(),
        reaches(dag, sink, x),
        !out.contains(x),
    ensures
        ready(dag, sink, out, found),
    decreases dag.len() - x,
{
    lemma_reaches_below(dag, sink, x);
    if ready(dag, sink, out, x) {
        x
    } else {
        let u = choose|u: usize|
            reaches(dag, sink, u) && (#[trigger] dag[u as int]).srcs.contains(x) && !out.contains(
                u,
            );
        lemma_reaches_below(dag, sink, u);
        let k = choose|k: int| 0 <= k < dag[u as int].srcs.len() && dag[u as int].srcs[k] == x;
        assert(dag[u as int].srcs[k] < u);
        lemma_some_ready(dag, sink, out, u)
    }
}

/// How many users each node has in a walk.
fn count_users(graph: &Graph, walk: &Vec<usize>) -> (counts: Vec<usize>)
    requires
        graph.wf(),
        ordered(graph@, walk@),
        walk@.len() <= graph@.len(),
    ensures
        counts@.len() == graph@.len(),
        forall|v: usize|
            v < graph@.len() ==> #[trigger] counts@[v as int] == pending(
                graph@,
                walk@,
                Seq::empty(),
                v,
                walk@.len(),
            ),
{
    let ghost dag = graph@;
    let len: usize = graph.len();
    let mut counts: Vec<usize> = Vec::new();
    let mut v: usize = 0;
    while v < len
        invariant
            graph.wf(),
            dag == graph@,
            ordered(dag, walk@),
            len == dag.len(),
            walk@.len() <= len,
            v <= len,
            counts@.len() == v,
            forall|w: usize|
                w < v ==> #[trigger] counts@[w as int] == pending(
                    dag,
                    walk@,
                    Seq::empty(),
                    w,
                    walk@.len(),
                ),
        decreases len - v,
    {
        let mut count: usize = 0;
        let mut at: usize = 0;
        while at < walk.len()
            invariant
                graph.wf(),
                dag == graph@,
                ordered(dag, walk@),
                len == dag.len(),
                walk@.len() <= len,
                at <= walk@.len(),
                count <= at,
                count == pending(dag, walk@, Seq::empty(), v, at as nat),
            decreases walk@.len() - at,
        {
            let u: usize = walk[at];
            assert(!Seq::<usize>::empty().contains(u));
            if graph.has_source(u, v) {
                count += 1;
            }
            at += 1;
        }
        counts.push(count);
        v += 1;
    }
    counts
}

/// What holds while nodes are taken: the counts are what is pending, and the
/// open list holds the nodes that are in the walk, not taken, and counted down.
spec fn taking(
    dag: Seq<NodeView>,
    walk: Seq<usize>,
    out: Seq<usize>,
    counts: Seq<usize>,
    open: Seq<usize>,
) -> bool {
    &&& counts.len() == dag.len()
    &&& forall|x: usize| #[trigger] walk.contains(x) ==> x < dag.len()
    &&& open.no_duplicates()
    &&& forall|x: usize| #[trigger]
        open.contains(x) <==> walk.contains(x) && !out.contains(x) && counts[x as int] == 0
}

/// The position of the member that wants to stand last.
fn find_last(open: &Vec<usize>, places: &Vec<usize>) -> (at: usize)
    requires
        open@.len() > 0,
        forall|i: int| 0 <= i < open@.len() ==> (#[trigger] open@[i]) < places@.len(),
    ensures
        at < open@.len(),
        forall|i: int|
            0 <= i < open@.len() ==> places@[(#[trigger] open@[i]) as int] <= places@[open@[
                at as int
            ] as int],
{
    let mut best: usize = 0;
    let mut at: usize = 1;
    while at < open.len()
        invariant
            best < open@.len(),
            1 <= at <= open@.len(),
            forall|i: int| 0 <= i < open@.len() ==> (#[trigger] open@[i]) < places@.len(),
            forall|i: int|
                0 <= i < at ==> places@[(#[trigger] open@[i]) as int] <= places@[open@[
                    best as int
                ] as int],
        decreases open@.len() - at,
    {
        if places[open[at]] > places[open[best]] {
            best = at;
        }
        at += 1;
    }
    best
}

/// Takes one use off each source of a node, and opens the sources that have
/// no user left.
fn release(
    graph: &Graph,
    u: usize,
    counts: &mut Vec<usize>,
    open: &mut Vec<usize>,
    Ghost(walk): Ghost<Seq<usize>>,
    Ghost(out): Ghost<Seq<usize>>,
)
    requires
        graph.wf(),
        u < graph@.len(),
        taking(graph@, walk, out, old(counts)@, old(open)@),
        forall|k: int|
            0 <= k < graph@[u as int].srcs.len() ==> {
                let v = #[trigger] graph@[u as int].srcs[k];
                walk.contains(v) && !out.contains(v) && old(counts)@[v as int] > 0
            },
    ensures
        taking(graph@, walk, out, final(counts)@, final(open)@),
        forall|v: usize|
            v < graph@.len() ==> (#[trigger] final(counts)@[v as int]) + uses(graph@, u, v)
                == old(counts)@[v as int],
{
    let ghost dag = graph@;
    let ghost srcs = dag[u as int].srcs;
    let ghost start = counts@;
    let count: usize = graph.source_count(u);
    let mut k: usize = 0;
    while k < count
        invariant
            graph.wf(),
            dag == graph@,
            u < dag.len(),
            srcs == dag[u as int].srcs,
            count == srcs.len(),
            k <= count,
            taking(dag, walk, out, counts@, open@),
            start.len() == dag.len(),
            forall|j: int|
                0 <= j < srcs.len() ==> {
                    let v = #[trigger] srcs[j];
                    walk.contains(v) && !out.contains(v) && start[v as int] > 0
                },
            forall|v: usize|
                v < dag.len() ==> (#[trigger] counts@[v as int]) + if srcs.take(k as int).contains(
                    v,
                ) {
                    1int
                } else {
                    0int
                } == start[v as int],
        decreases count - k,
    {
        let v: usize = graph.source(u, k);
        let mut seen: bool = false;
        let mut j: usize = 0;
        while j < k
            invariant
                graph.wf(),
                dag == graph@,
                u < dag.len(),
                srcs == dag[u as int].srcs,
                count == srcs.len(),
                j <= k < count,
                seen == srcs.take(j as int).contains(v),
            decreases k - j,
        {
            let w: usize = graph.source(u, j);
            proof {
                assert(srcs.take(j + 1) =~= srcs.take(j as int).push(w));
                lemma_push_contains(srcs.take(j as int), w, v);
            }
            if w == v {
                seen = true;
            }
            j += 1;
        }
        let ghost opened = open@;
        proof {
            assert(srcs.take(k + 1) =~= srcs.take(k as int).push(v));
            assert(srcs[k as int] == v);
        }
        if !seen {
            let left: usize = counts[v] - 1;
            counts.set(v, left);
            if left == 0 {
                open.push(v);
                proof {
                    assert(!opened.contains(v));
                    assert forall|x: usize| #[trigger]
                        open@.contains(x) <==> walk.contains(x) && !out.contains(x) && counts@[x as int]
                            == 0 by {
                        lemma_push_contains(opened, v, x);
                    }
                    assert forall|a: int, b: int|
                        0 <= a < open@.len() && 0 <= b < open@.len() && a != b implies open@[a]
                        != open@[b] by {
                        if a < opened.len() && b < opened.len() {
                            assert(opened[a] != opened[b]);
                        } else if a < opened.len() {
                            assert(opened.contains(opened[a]));
                        } else {
                            assert(opened.contains(opened[b]));
                        }
                    }
                }
            }
        }
        proof {
            assert forall|w: usize| w < dag.len() implies (#[trigger] counts@[w as int])
                + if srcs.take(k + 1).contains(w) {
                1int
            } else {
                0int
            } == start[w as int] by {
                lemma_push_contains(srcs.take(k as int), v, w);
            }
        }
        k += 1;
    }
    assert(srcs.take(count as int) =~= srcs);
}

/// What two nodes are compared by.
spec fn compares(
    dag: Seq<NodeView>,
    priorities: Seq<(i32, Option<i64>)>,
    keys: &Keys,
    counts: Seq<u64>,
    table: Seq<Vec<Order>>,
    a: usize,
) -> bool {
    &&& a < dag.len()
    &&& counts.len() == dag.len()
    &&& counts[a as int] == trips(dag, a, dag.len())
    &&& priorities.len() == dag.len()
    &&& table.len() == dag.len()
    &&& order_row_ok(*keys, dag, a, table[a as int]@)
}

/// Whether `a` may stand before `b`.
fn may_precede(
    graph: &Graph,
    priorities: &Vec<(i32, Option<i64>)>,
    keys: &Keys,
    counts: &Vec<u64>,
    table: &Vec<Vec<Order>>,
    a: usize,
    b: usize,
) -> (r: bool)
    requires
        compares(graph@, priorities@, keys, counts@, table@, a),
        compares(graph@, priorities@, keys, counts@, table@, b),
    ensures
        r == wanted(graph@, priorities@, keys)(a, b),
{
    if counts[a] != counts[b] {
        return counts[a] < counts[b];
    }
    if priorities[a].0 != priorities[b].0 {
        return priorities[a].0 < priorities[b].0;
    }
    assert(table@[a as int]@[b as int] == keys.order(graph@, a, b));
    let tied: bool = match table[a][b] {
        Order::Greater => false,
        _ => true,
    };
    match (priorities[a].1, priorities[b].1) {
        (None, None) => tied,
        (None, Some(_)) => true,
        (Some(_), None) => false,
        (Some(x), Some(y)) => x < y || (x == y && tied),
    }
}

/// How often the nodes of a walk run, by node.
pub(crate) fn counts_by_node(graph: &Graph, walk: &Vec<usize>) -> (counts: Vec<u64>)
    requires
        graph.wf(),
        ordered(graph@, walk@),
        forall|i: int| 0 <= i < walk@.len() ==> countable(graph@, #[trigger] walk@[i]),
    ensures
        counts@.len() == graph@.len(),
        forall|i: int|
            0 <= i < walk@.len() ==> counts@[(#[trigger] walk@[i]) as int] == trips(
                graph@,
                walk@[i],
                graph@.len(),
            ),
{
    let ghost dag = graph@;
    let listed = graph.run_counts(walk);
    let len: usize = graph.len();
    let mut counts: Vec<u64> = Vec::new();
    let mut id: usize = 0;
    while id < len
        invariant
            id <= len,
            counts@.len() == id,
        decreases len - id,
    {
        counts.push(0);
        id += 1;
    }
    let mut at: usize = 0;
    while at < walk.len()
        invariant
            dag == graph@,
            ordered(dag, walk@),
            counts@.len() == dag.len(),
            listed@.len() == walk@.len(),
            forall|i: int|
                0 <= i < walk@.len() ==> #[trigger] listed@[i] == trips(dag, walk@[i], dag.len()),
            at <= walk@.len(),
            forall|i: int|
                0 <= i < at ==> counts@[(#[trigger] walk@[i]) as int] == trips(
                    dag,
                    walk@[i],
                    dag.len(),
                ),
        decreases walk@.len() - at,
    {
        let x: usize = walk[at];
        assert(listed@[at as int] == trips(dag, x, dag.len()));
        counts.set(x, listed[at]);
        at += 1;
    }
    counts
}

/// The nodes of a walk in the order in which they want to stand.
fn sort_wanted(
    graph: &Graph,
    walk: &Vec<usize>,
    priorities: &Vec<(i32, Option<i64>)>,
    keys: &Keys,
) -> (sorted: Vec<usize>)
    requires
        graph.wf(),
        ordered(graph@, walk@),
        forall|i: int| 0 <= i < walk@.len() ==> countable(graph@, #[trigger] walk@[i]),
        priorities@.len() == graph@.len(),
        keys.covers(graph@.len()),
    ensures
        sorted@ == stably_sorted(wanted(graph@, priorities@, keys), walk@),
{
    let counts = counts_by_node(graph, walk);
    let table = keys.table(graph);
    proof {
        assert forall|i: int| 0 <= i < walk@.len() implies compares(
            graph@,
            priorities@,
            keys,
            counts@,
            table@,
            #[trigger] walk@[i],
        ) by {
            assert(order_row_ok(*keys, graph@, walk@[i], table@[walk@[i] as int]@));
        }
    }
    let may = |a: usize, b: usize| -> (r: bool)
        requires
            compares(graph@, priorities@, keys, counts@, table@, a),
            compares(graph@, priorities@, keys, counts@, table@, b),
        ensures
            r == wanted(graph@, priorities@, keys)(a, b),
        { may_precede(graph, priorities, keys, &counts, &table, a, b) };
    stable_sort(
        walk,
        may,
        Ghost(wanted(graph@, priorities@, keys)),
        Ghost(|a: usize| compares(graph@, priorities@, keys, counts@, table@, a)),
    )
}

/// For each member of a list of distinct ids below `len`, its position.
pub(crate) fn places_of(sorted: &Vec<usize>, len: usize) -> (places: Vec<usize>)
    requires
        sorted@.no_duplicates(),
        forall|i: int| 0 <= i < sorted@.len() ==> (#[trigger] sorted@[i]) < len,
    ensures
        places@.len() == len,
        forall|i: int| 0 <= i < sorted@.len() ==> places@[(#[trigger] sorted@[i]) as int] == i,
{
    let mut places: Vec<usize> = Vec::new();
    let mut id: usize = 0;
    while id < len
        invariant
            id <= len,
            places@.len() == id,
        decreases len - id,
    {
        places.push(0);
        id += 1;
    }
    let mut at: usize = 0;
    while at < sorted.len()
        invariant
            sorted@.no_duplicates(),
            forall|i: int| 0 <= i < sorted@.len() ==> (#[trigger] sorted@[i]) < len,
            places@.len() == len,
            at <= sorted@.len(),
            forall|i: int| 0 <= i < at ==> places@[(#[trigger] sorted@[i]) as int] == i,
        decreases sorted@.len() - at,
    {
        let x: usize = sorted[at];
        places.set(x, at);
        at += 1;
    }
    places
}

/// The program of the graph below a sink, from a sorted walk: from the end of
/// the program to its start, the next node is always the last of the sorted
/// ones among those whose users all have been taken.
pub(crate) fn take_sorted(graph: &Graph, sink: usize, walk: &Vec<usize>, sorted: &Vec<usize>) -> (list: Vec<
    usize,
>)
    requires
        graph.wf(),
        sink < graph@.len(),
        walk@ == topo(graph@, sink),
        sorted@.no_duplicates(),
        sorted@.len() == walk@.len(),
        forall|x: usize| #[trigger] sorted@.contains(x) <==> walk@.contains(x),
    ensures
        taken(graph@, sink, sorted@, list@.reverse()),
        topological(graph@, sink, list@),
{
    let ghost dag = graph@;
    proof {
        lemma_topo(dag, sink);
        lemma_distinct_len(walk@, dag.len());
        assert forall|i: int| 0 <= i < sorted@.len() implies (#[trigger] sorted@[i]) < dag.len() by {
            assert(sorted@.contains(sorted@[i]));
            assert(walk@.contains(sorted@[i]));
            lemma_reaches_below(dag, sink, sorted@[i]);
        }
    }
    let places = places_of(sorted, graph.len());
    let mut counts = count_users(graph, walk);
    let mut open: Vec<usize> = Vec::new();
    open.push(sink);
    let mut out: Vec<usize> = Vec::new();
    proof {
        assert(out@ =~= Seq::<usize>::empty());
        assert(walk@.contains(sink)) by {
            assert(walk@[walk@.len() - 1] == sink);
        }
        assert forall|x: usize| #[trigger]
            open@.contains(x) <==> walk@.contains(x) && !out@.contains(x) && counts@[x as int]
                == 0 by {
            assert(open@[0] == sink);
            if walk@.contains(x) {
                lemma_reaches_below(dag, sink, x);
                assert(counts@[x as int] == pending(dag, walk@, Seq::empty(), x, walk@.len()));
                lemma_ready(dag, sink, Seq::empty(), x);
                if x == sink {
                    assert forall|u: usize|
                        reaches(dag, sink, u) && (#[trigger] dag[u as int]).srcs.contains(
                            x,
                        ) implies Seq::<usize>::empty().contains(u) by {
                        lemma_reaches_below(dag, sink, u);
                        let k = choose|k: int|
                            0 <= k < dag[u as int].srcs.len() && dag[u as int].srcs[k] == x;
                        assert(dag[u as int].srcs[k] < u);
                    }
                    assert(ready(dag, sink, Seq::empty(), x));
                } else {
                    let user = lemma_has_user(dag, sink, x);
                    assert(dag[user as int].srcs.contains(x));
                    assert(!ready(dag, sink, Seq::empty(), x));
                }
            }
        }
        assert forall|x: usize| #[trigger] walk@.contains(x) implies x < dag.len() by {
            lemma_reaches_below(dag, sink, x);
        }
    }
    while open.len() > 0
        invariant
            graph.wf(),
            dag == graph@,
            sink < dag.len(),
            walk@ == topo(dag, sink),
            ordered(dag, walk@),
            forall|x: usize| #[trigger] walk@.contains(x) <==> reaches(dag, sink, x),
            walk@.len() <= dag.len(),
            sorted@.no_duplicates(),
            forall|x: usize| #[trigger] sorted@.contains(x) <==> walk@.contains(x),
            places@.len() == dag.len(),
            forall|i: int| 0 <= i < sorted@.len() ==> places@[(#[trigger] sorted@[i]) as int] == i,
            taking(dag, walk@, out@, counts@, open@),
            forall|v: usize|
                v < dag.len() ==> #[trigger] counts@[v as int] == pending(
                    dag,
                    walk@,
                    out@,
                    v,
                    walk@.len(),
                ),
            out@.no_duplicates(),
            forall|i: int| 0 <= i < out@.len() ==> walk@.contains(#[trigger] out@[i]),
            forall|v: usize| #[trigger]
                out@.contains(v) ==> pending(dag, walk@, out@, v, walk@.len()) == 0,
            forall|i: int|
                0 <= i < out@.len() ==> takes(
                    dag,
                    sink,
                    sorted@,
                    #[trigger] out@.take(i),
                    out@[i],
                ),
        decreases walk@.len() - out@.len(),
    {
        proof {
            assert forall|i: int| 0 <= i < open@.len() implies (#[trigger] open@[i])
                < places@.len() by {
                assert(open@.contains(open@[i]));
            }
        }
        let at: usize = find_last(&open, &places);
        let u: usize = open[at];
        let ghost had = out@;
        let ghost opened = open@;
        let ghost counted = counts@;
        proof {
            assert(opened.contains(u));
            lemma_ready(dag, sink, had, u);
            assert(ready(dag, sink, had, u));
            assert forall|y: usize| #[trigger] ready(dag, sink, had, y) implies position(sorted@, y)
                <= position(sorted@, u) by {
                lemma_ready(dag, sink, had, y);
                assert(counts@[y as int] == 0);
                assert(opened.contains(y));
                let j = choose|j: int| 0 <= j < opened.len() && opened[j] == y;
                assert(places@[opened[j] as int] <= places@[u as int]);
                assert(sorted@.contains(y) && sorted@.contains(u));
                let p = choose|p: int| 0 <= p < sorted@.len() && sorted@[p] == y;
                let q = choose|q: int| 0 <= q < sorted@.len() && sorted@[q] == u;
                lemma_position(sorted@, p);
                lemma_position(sorted@, q);
            }
            assert(takes(dag, sink, sorted@, had, u));
            // Every source of `u` is still waiting for it.
            assert forall|k: int| 0 <= k < dag[u as int].srcs.len() implies {
                let v = #[trigger] dag[u as int].srcs[k];
                walk@.contains(v) && v != u && !had.contains(v) && counted[v as int] > 0
            } by {
                let v = dag[u as int].srcs[k];
                assert(v < u);
                assert(reaches(dag, u, v)) by {
                    assert(reaches(dag, v, v));
                }
                lemma_reaches_transitive(dag, sink, u, v);
                assert(walk@.contains(v));
                lemma_pending_zero(dag, walk@, had, v, walk@.len());
                let p = choose|p: int| 0 <= p < walk@.len() && walk@[p] == u;
                assert(dag[walk@[p] as int].srcs.contains(v));
            }
        }
        open.remove(at);
        out.push(u);
        proof {
            assert(open@ =~= opened.remove(at as int));
            assert forall|x: usize| #[trigger]
                open@.contains(x) <==> walk@.contains(x) && !out@.contains(x) && counts@[x as int]
                    == 0 by {
                lemma_push_contains(had, u, x);
                if open@.contains(x) {
                    let i = choose|i: int| 0 <= i < open@.len() && open@[i] == x;
                    let j = if i < at {
                        i
                    } else {
                        i + 1
                    };
                    assert(opened[j] == x);
                    assert(opened.contains(x));
                    assert(opened[j] != opened[at as int]);
                }
                if opened.contains(x) && x != u {
                    let j = choose|j: int| 0 <= j < opened.len() && opened[j] == x;
                    let i = if j < at {
                        j
                    } else {
                        j - 1
                    };
                    assert(open@[i] == x);
                }
            }
            assert forall|a: int, b: int| 0 <= a < open@.len() && 0 <= b < open@.len() && a
                != b implies open@[a] != open@[b] by {
                let i = if a < at {
                    a
                } else {
                    a + 1
                };
                let j = if b < at {
                    b
                } else {
                    b + 1
                };
                assert(opened[i] != opened[j]);
            }
            assert forall|k: int| 0 <= k < dag[u as int].srcs.len() implies {
                let v = #[trigger] dag[u as int].srcs[k];
                walk@.contains(v) && !out@.contains(v) && counts@[v as int] > 0
            } by {
                lemma_push_contains(had, u, dag[u as int].srcs[k]);
            }
        }
        release(graph, u, &mut counts, &mut open, Ghost(walk@), Ghost(out@));
        proof {
            let p = choose|p: int| 0 <= p < walk@.len() && walk@[p] == u;
            assert(walk@[p] == u);
            assert forall|v: usize| v < dag.len() implies #[trigger] counts@[v as int] == pending(
                dag,
                walk@,
                out@,
                v,
                walk@.len(),
            ) by {
                lemma_pending_push(dag, walk@, had, u, v, walk@.len());
                assert(counted[v as int] == pending(dag, walk@, had, v, walk@.len()));
            }
            assert forall|v: usize| #[trigger] out@.contains(v) implies pending(
                dag,
                walk@,
                out@,
                v,
                walk@.len(),
            ) == 0 by {
                lemma_push_contains(had, u, v);
                lemma_pending_push(dag, walk@, had, u, v, walk@.len());
                if v == u {
                    assert(counted[u as int] == 0);
                }
            }
            assert forall|i: int| 0 <= i < out@.len() implies takes(
                dag,
                sink,
                sorted@,
                #[trigger] out@.take(i),
                out@[i],
            ) by {
                if i < had.len() {
                    assert(out@.take(i) =~= had.take(i));
                    assert(takes(dag, sink, sorted@, had.take(i), had[i]));
                } else {
                    assert(out@.take(i) =~= had);
                }
            }
            assert forall|i: int, j: int| 0 <= i < out@.len() && 0 <= j < out@.len() && i
                != j implies out@[i] != out@[j] by {
                if i < had.len() && j < had.len() {
                    assert(had[i] != had[j]);
                } else if i < had.len() {
                    assert(had.contains(had[i]));
                } else {
                    assert(had.contains(had[j]));
                }
            }
            assert forall|i: int| 0 <= i < out@.len() implies walk@.contains(#[trigger] out@[i]) by {
                if i < had.len() {
                    assert(out@[i] == had[i]);
                }
            }
            lemma_subset_len(out@, walk@);
        }
    }
    proof {
        assert forall|x: usize| reaches(dag, sink, x) implies #[trigger] out@.contains(x) by {
            if !out@.contains(x) {
                let found = lemma_some_ready(dag, sink, out@, x);
                lemma_ready(dag, sink, out@, found);
                assert(counts@[found as int] == 0);
                assert(open@.contains(found));
            }
        }
        lemma_taken_is_topological(dag, sink, sorted@, out@);
    }
    let mut list: Vec<usize> = Vec::new();
    let mut left: usize = out.len();
    while left > 0
        invariant
            left <= out@.len(),
            list@.len() == out@.len() - left,
            forall|i: int| 0 <= i < list@.len() ==> #[trigger] list@[i] == out@[out@.len() - 1 - i],
        decreases left,
    {
        left -= 1;
        list.push(out[left]);
    }
    assert(list@ =~= out@.reverse());
    assert(list@.reverse() =~= out@);
    list
}

/// The program of the graph below a sink. From the end of the program to its
/// start, the next node is always the one that wants to stand last among those
/// whose users all have been taken.
pub fn oracle_linearize(
    graph: &Graph,
    sink: usize,
    priorities: &Vec<(i32, Option<i64>)>,
    keys: &Keys,
) -> (list: Vec<usize>)
    requires
        graph.wf(),
        sink < graph@.len(),
        forall|x: usize| #[trigger] reaches(graph@, sink, x) ==> countable(graph@, x),
        priorities@.len() == graph@.len(),
        keys.covers(graph@.len()),
    ensures
        taken(
            graph@,
            sink,
            stably_sorted(wanted(graph@, priorities@, keys), topo(graph@, sink)),
            list@.reverse(),
        ),
        topological(graph@, sink, list@),
{
    let ghost dag = graph@;
    let walk = graph.toposort(sink);
    proof {
        lemma_distinct_len(walk@, dag.len());
        assert forall|i: int| 0 <= i < walk@.len() implies countable(dag, #[trigger] walk@[i]) by {
            assert(walk@.contains(walk@[i]));
        }
    }
    let sorted = sort_wanted(graph, &walk, priorities, keys);
    proof {
        lemma_sorted_members(wanted(dag, priorities@, keys), walk@);
    }
    take_sorted(graph, sink, &walk, &sorted)
}

/// Distinct members of a list are no more than the list.
proof fn lemma_subset_len(a: Seq<usize>, b: Seq<usize>)
    requires
        a.no_duplicates(),
        b.no_duplicates(),
        forall|i: int| 0 <= i < a.len() ==> b.contains(#[trigger] a[i]),
    ensures
        a.len() <= b.len(),
{
    a.unique_seq_to_set();
    b.unique_seq_to_set();
    assert(a.to_set().subset_of(b.to_set())) by {
        assert forall|x: usize| a.to_set().contains(x) implies b.to_set().contains(x) by {
            let i = choose|i: int| 0 <= i < a.len() && a[i] == x;
            assert(b.contains(a[i]));
        }
    }
    vstd::set_lib::lemma_len_subset(a.to_set(), b.to_set());
}

/// The order in which nodes want to stand compares any two of them.
pub proof fn lemma_wanted_is_total(
    dag: Seq<NodeView>,
    priorities: Seq<(i32, Option<i64>)>,
    keys: &Keys,
)
    ensures
        total_preorder(wanted(dag, priorities, keys)),
{
    let le = wanted(dag, priorities, keys);
    assert forall|a: usize, b: usize| #![trigger le(a, b)] le(a, b) || le(b, a) by {
        lemma_tree_order_flips(keys.key(dag, a), keys.key(dag, b));
    }
    assert forall|a: usize, b: usize, c: usize|
        #![trigger le(a, b), le(b, c)]
        le(a, b) && le(b, c) implies le(a, c) by {
        if keys.order(dag, a, b) != Order::Greater && keys.order(dag, b, c) != Order::Greater {
            lemma_tree_order_transitive(keys.key(dag, a), keys.key(dag, b), keys.key(dag, c));
        }
    }
}

/// The order of keys compares any two nodes.
pub proof fn lemma_by_key_is_total(dag: Seq<NodeView>, keys: &Keys)
    ensures
        total_preorder(by_key(dag, keys)),
{
    let le = by_key(dag, keys);
    assert forall|a: usize, b: usize| #![trigger le(a, b)] le(a, b) || le(b, a) by {
        lemma_tree_order_flips(keys.key(dag, a), keys.key(dag, b));
    }
    assert forall|a: usize, b: usize, c: usize|
        #![trigger le(a, b), le(b, c)]
        le(a, b) && le(b, c) implies le(a, c) by {
        lemma_tree_order_transitive(keys.key(dag, a), keys.key(dag, b), keys.key(dag, c));
    }
}

/// Ranks of listed nodes: positions in the list when it is sorted by key.
pub open spec fn rank_table(
    dag: Seq<NodeView>,
    keys: &Keys,
    nodes: Seq<usize>,
    ranks: Seq<usize>,
) -> bool {
    let sorted = stably_sorted(by_key(dag, keys), nodes);
    &&& ranks.len() == nodes.len()
    &&& forall|i: int|
        0 <= i < nodes.len() ==> (#[trigger] ranks[i]) < nodes.len() && sorted[ranks[i] as int]
            == nodes[i]
}

/// A node whose key comes before another's has the smaller rank.
pub proof fn lemma_ranks_follow_keys(
    dag: Seq<NodeView>,
    keys: &Keys,
    nodes: Seq<usize>,
    ranks: Seq<usize>,
    i: int,
    j: int,
)
    requires
        rank_table(dag, keys, nodes, ranks),
        0 <= i < nodes.len(),
        0 <= j < nodes.len(),
        keys.order(dag, nodes[i], nodes[j]) == Order::Less,
    ensures
        ranks[i] < ranks[j],
{
    let le = by_key(dag, keys);
    let sorted = stably_sorted(le, nodes);
    lemma_by_key_is_total(dag, keys);
    lemma_stably_sorted(le, nodes);
    lemma_tree_order_flips(keys.key(dag, nodes[i]), keys.key(dag, nodes[j]));
    lemma_tree_order_reflexive(keys.key(dag, nodes[i]));
    assert(sorted[ranks[i] as int] == nodes[i] && sorted[ranks[j] as int] == nodes[j]);
    if ranks[j] < ranks[i] {
        assert(le(sorted[ranks[j] as int], sorted[ranks[i] as int]));
    }
}

/// The ranks of listed nodes by their keys. Nodes with the same key rank in
/// the order of the list.
pub fn oracle_ranks(graph: &Graph, nodes: &Vec<usize>, keys: &Keys) -> (ranks: Vec<usize>)
    requires
        graph.wf(),
        keys.covers(graph@.len()),
        nodes@.no_duplicates(),
        forall|i: int| 0 <= i < nodes@.len() ==> (#[trigger] nodes@[i]) < graph@.len(),
    ensures
        rank_table(graph@, keys, nodes@, ranks@),
{
    let table = keys.table(graph);
    proof {
        assert forall|i: int| 0 <= i < nodes@.len() implies tabled(
            graph@,
            keys,
            table@,
            #[trigger] nodes@[i],
        ) by {
            assert(order_row_ok(*keys, graph@, nodes@[i], table@[nodes@[i] as int]@));
        }
    }
    let may = |a: usize, b: usize| -> (r: bool)
        requires
            tabled(graph@, keys, table@, a),
            tabled(graph@, keys, table@, b),
        ensures
            r == by_key(graph@, keys)(a, b),
        {
            assert(table@[a as int]@[b as int] == keys.order(graph@, a, b));
            match table[a][b] {
                Order::Greater => false,
                _ => true,
            }
        };
    let sorted = stable_sort(
        nodes,
        may,
        Ghost(by_key(graph@, keys)),
        Ghost(|a: usize| tabled(graph@, keys, table@, a)),
    );
    proof {
        lemma_sorted_members(by_key(graph@, keys), nodes@);
        assert forall|i: int| 0 <= i < sorted@.len() implies (#[trigger] sorted@[i])
            < graph@.len() by {
            assert(sorted@.contains(sorted@[i]));
            assert(nodes@.contains(sorted@[i]));
        }
    }
    let places = places_of(&sorted, graph.len());
    let mut ranks: Vec<usize> = Vec::new();
    let mut at: usize = 0;
    while at < nodes.len()
        invariant
            places@.len() == graph@.len(),
            sorted@.len() == nodes@.len(),
            forall|i: int| 0 <= i < sorted@.len() ==> places@[(#[trigger] sorted@[i]) as int] == i,
            forall|x: usize| #[trigger] sorted@.contains(x) <==> nodes@.contains(x),
            forall|i: int| 0 <= i < nodes@.len() ==> (#[trigger] nodes@[i]) < graph@.len(),
            at <= nodes@.len(),
            ranks@.len() == at,
            forall|i: int|
                0 <= i < at ==> (#[trigger] ranks@[i]) < nodes@.len() && sorted@[ranks@[i] as int]
                    == nodes@[i],
        decreases nodes@.len() - at,
    {
        let x: usize = nodes[at];
        assert(nodes@.contains(x));
        assert(sorted@.contains(x));
        let ghost p = choose|p: int| 0 <= p < sorted@.len() && sorted@[p] == x;
        assert(places@[sorted@[p] as int] == p);
        ranks.push(places[x]);
        at += 1;
    }
    ranks
}

/// What two nodes are compared by when only their keys count.
spec fn tabled(dag: Seq<NodeView>, keys: &Keys, table: Seq<Vec<Order>>, a: usize) -> bool {
    &&& a < dag.len()
    &&& table.len() == dag.len()
    &&& order_row_ok(*keys, dag, a, table[a as int]@)
}

/// The position of a node that a list holds.
pub fn position_of(nodes: &[usize], node: usize) -> (at: usize)
    requires
        nodes@.contains(node),
    ensures
        at < nodes@.len(),
        nodes@[at as int] == node,
        forall|i: int| 0 <= i < at ==> nodes@[i] != node,
{
    let mut at: usize = 0;
    while at < nodes.len()
        invariant
            at <= nodes@.len(),
            nodes@.contains(node),
            forall|i: int| 0 <= i < at ==> nodes@[i] != node,
        decreases nodes@.len() - at,
    {
        if nodes[at] == node {
            return at;
        }
        at += 1;
    }
    at
}

/// Whether a list is a program for the graph below a sink.
pub fn is_topological(graph: &Graph, sink: usize, list: &[usize]) -> (ok: bool)
    requires
        graph.wf(),
        sink < graph@.len(),
    ensures
        ok == topological(graph@, sink, list@),
{
    let ghost dag = graph@;
    let rows = graph.reach();
    let len: usize = graph.len();
    if list.len() == 0 || list[list.len() - 1] != sink {
        return false;
    }
    assert(reach_row_ok(dag, sink, rows@[sink as int]@));
    let mut p: usize = 0;
    while p < list.len()
        invariant
            graph.wf(),
            dag == graph@,
            len == dag.len(),
            sink < len,
            rows@.len() == len,
            reach_row_ok(dag, sink, rows@[sink as int]@),
            p <= list@.len(),
            ordered(dag, list@.take(p as int)),
            forall|i: int| 0 <= i < p ==> reaches(dag, sink, #[trigger] list@[i]),
        decreases list@.len() - p,
    {
        let u: usize = list[p];
        let ghost had = list@.take(p as int);
        let ghost now = list@.take(p + 1);
        assert(now =~= had.push(u));
        if u >= len {
            assert(list@[p as int] >= dag.len());
            return false;
        }
        assert(rows@[sink as int]@[u as int] == reaches(dag, sink, u));
        if !rows[sink][u] {
            assert(list@.contains(list@[p as int]));
            return false;
        }
        if found_before(list, p, u) {
            return false;
        }
        assert(!had.contains(u));
        let count: usize = graph.source_count(u);
        let mut k: usize = 0;
        while k < count
            invariant
                graph.wf(),
                dag == graph@,
                u < dag.len(),
                p < list@.len(),
                u == list@[p as int],
                had == list@.take(p as int),
                count == dag[u as int].srcs.len(),
                k <= count,
                forall|j: int|
                    0 <= j < k ==> had.contains(#[trigger] dag[u as int].srcs[j]),
            decreases count - k,
        {
            let src: usize = graph.source(u, k);
            if !found_before(list, p, src) {
                proof {
                    if ordered(dag, list@) {
                        assert(dag[list@[p as int] as int].srcs[k as int] == src);
                        assert(before(list@, p as int, src));
                        let q = choose|q: int| 0 <= q < p && #[trigger] list@[q] == src;
                        assert(had[q] == src);
                    }
                }
                return false;
            }
            k += 1;
        }
        proof {
            lemma_ordered_push(dag, had, u);
        }
        p += 1;
    }
    assert(list@.take(list@.len() as int) =~= list@);
    proof {
        assert(list@[list@.len() - 1] == sink);
        assert(list@.contains(sink));
        assert forall|x: usize| #[trigger] list@.contains(x) <==> reaches(dag, sink, x) by {
            if reaches(dag, sink, x) {
                lemma_ordered_closed(dag, list@, sink, x);
            }
        }
    }
    true
}

/// Whether a list holds `x` before position `p`.
fn found_before(list: &[usize], p: usize, x: usize) -> (found: bool)
    requires
        p <= list@.len(),
    ensures
        found == list@.take(p as int).contains(x),
        found ==> exists|q: int| 0 <= q < p && #[trigger] list@[q] == x,
{
    let mut q: usize = 0;
    while q < p
        invariant
            q <= p <= list@.len(),
            forall|i: int| 0 <= i < q ==> #[trigger] list@[i] != x,
        decreases p - q,
    {
        if list[q] == x {
            assert(list@.take(p as int)[q as int] == x);
            return true;
        }
        q += 1;
    }
    false
}

/// The kinds of nodes that have a place of their own.
pub open spec fn placed(op: Op) -> bool {
    match op {
        Op::Param { slot, .. } => slot <= i64::MAX,
        Op::Variable { .. } => true,
        Op::Buffer { .. } => true,
        Op::Const(_) => true,
        Op::Range { .. } => true,
        _ => false,
    }
}

/// Where a node wants to stand among those that run as often: parameters come
/// first, by slot and variables before them; then storage, shared storage
/// last; constants are not placed early, and ranges come late.
pub fn priority(op: Op) -> (place: (i32, Option<i64>))
    requires
        placed(op),
    ensures
        place == match op {
            Op::Param { slot, .. } => (-20i32, Some(slot as i64)),
            Op::Variable { .. } => (-20i32, Some(-1i64)),
            Op::Buffer { space: AddrSpace::Local, .. } => (-17i32, None),
            Op::Buffer { .. } => (-18i32, None),
            Op::Range { .. } => (5i32, None),
            _ => (0i32, None),
        },
{
    match op {
        Op::Param { slot, .. } => (-20, Some(slot as i64)),
        Op::Variable { .. } => (-20, Some(-1)),
        Op::Buffer { space: AddrSpace::Local, .. } => (-17, None),
        Op::Buffer { .. } => (-18, None),
        Op::Range { .. } => (5, None),
        _ => (0, None),
    }
}

} // verus!
