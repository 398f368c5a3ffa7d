//! Which loops an `End` closes, and which ranges a reduction runs over.

use vstd::prelude::*;

use crate::args::{lemma_lexical_flips, lemma_lexical_transitive, lexical, numbers};
use crate::builders::{end_node, extent_node, lemma_interned_keeps, put, range_node};
use crate::ends::{
    axis_path, by_axis, closed_loops, closes_singly, lemma_ends_close_singly, nested_ends,
    split_end,
};
use crate::flatten::{backedges, flat, flattened, is_backedge, ranges_below, with_ranges};
use crate::graph::{dag_wf, lemma_interned_wf, AxisId, AxisType, DType, NodeView, Op, ReduceOp};
use crate::keys::Order;
use crate::meaning::lemma_arity;
use crate::passes::{extends, lemma_put};
use crate::ranged::{over_ranges, reduce_walks, Reads};
use crate::sort::{lemma_sorted_members, lemma_stably_sorted, stably_sorted, total_preorder};
use crate::topo::{lemma_push_contains, lemma_topo, reaches, topo};

verus! {

proof fn lemma_with_ranges(
    dag: Seq<NodeView>,
    list: Seq<usize>,
    walk: Seq<usize>,
    n: nat,
    x: usize,
)
    requires
        n <= walk.len(),
    ensures
        with_ranges(dag, list, walk, n).contains(x) <==> list.contains(x) || dag[x as int].op is Range
            && walk.take(n as int).contains(x),
        list.no_duplicates() ==> with_ranges(dag, list, walk, n).no_duplicates(),
    decreases n,
{
    if n > 0 {
        lemma_with_ranges(dag, list, walk, (n - 1) as nat, x);
        let rest = with_ranges(dag, list, walk, (n - 1) as nat);
        let last = walk[n - 1];
        assert(walk.take(n as int) =~= walk.take(n - 1).push(last));
        lemma_push_contains(walk.take(n - 1), last, x);
        lemma_push_contains(rest, last, x);
    } else {
        assert(walk.take(0) =~= Seq::empty());
    }
}

/// Whether a loop stands at or below one of the first `n` sources that is no
/// backedge.
pub open spec fn is_loop_below(dag: Seq<NodeView>, srcs: Seq<usize>, n: nat, x: usize) -> bool {
    dag[x as int].op is Range && exists|k: int|
        0 <= k < n && !is_backedge(dag, #[trigger] srcs[k]) && reaches(dag, srcs[k], x)
}

proof fn lemma_ranges_below(dag: Seq<NodeView>, srcs: Seq<usize>, n: nat, x: usize)
    requires
        dag_wf(dag),
        n <= srcs.len(),
        forall|k: int| 0 <= k < srcs.len() ==> (#[trigger] srcs[k]) < dag.len(),
    ensures
        ranges_below(dag, srcs, n).contains(x) <==> is_loop_below(dag, srcs, n, x),
        ranges_below(dag, srcs, n).no_duplicates(),
    decreases n,
{
    if n > 0 {
        lemma_ranges_below(dag, srcs, (n - 1) as nat, x);
        let rest = ranges_below(dag, srcs, (n - 1) as nat);
        let last = srcs[n - 1];
        if !is_backedge(dag, last) {
            let walk = topo(dag, last);
            lemma_topo(dag, last);
            lemma_with_ranges(dag, rest, walk, walk.len(), x);
            assert(walk.take(walk.len() as int) =~= walk);
            assert(walk.contains(x) <==> reaches(dag, last, x));
        }
        assert(is_loop_below(dag, srcs, n, x) <==> is_loop_below(dag, srcs, (n - 1) as nat, x)
            || dag[x as int].op is Range && !is_backedge(dag, last) && reaches(dag, last, x));
    }
}

proof fn lemma_backedges(dag: Seq<NodeView>, srcs: Seq<usize>, n: nat)
    requires
        n <= srcs.len(),
    ensures
        backedges(dag, srcs, n) == srcs.take(n as int).filter(|x: usize| is_backedge(dag, x)),
    decreases n,
{
    let keep = |x: usize| is_backedge(dag, x);
    reveal(Seq::filter);
    if n > 0 {
        lemma_backedges(dag, srcs, (n - 1) as nat);
        let part = srcs.take(n as int);
        assert(part.drop_last() =~= srcs.take(n - 1));
        assert(part.last() == srcs[n - 1]);
    } else {
        assert(srcs.take(0) =~= Seq::empty());
    }
}

/// An `End` whose loops are made flat closes exactly the loops at and below what
/// it closed, each once, and behind them the backedges that it had, in order; it
/// closes them around the same value.
pub proof fn lemma_flattened_end_closes_its_loops(dag: Seq<NodeView>, id: usize)
    requires
        dag_wf(dag),
        id < dag.len(),
        flattened(dag, id) is Some,
        flattened(dag, id)->0.dag.len() <= usize::MAX,
    ensures
        ({
            let new = flattened(dag, id)->0;
            let own = new.dag[new.id as int];
            let closed = dag[id as int].srcs.skip(1);
            exists|loops: Seq<usize>|
                {
                    &&& own.op is End
                    &&& own.dtype == dag[id as int].dtype
                    &&& own.srcs == seq![dag[id as int].srcs[0]] + (loops + closed.filter(
                        |x: usize| is_backedge(dag, x),
                    ))
                    &&& #[trigger] loops.no_duplicates()
                    &&& forall|x: usize| #[trigger]
                        loops.contains(x) <==> is_loop_below(dag, closed, closed.len(), x)
                }
        }),
{
    let node = dag[id as int];
    let new = flattened(dag, id)->0;
    lemma_arity(dag, id);
    let closed = node.srcs.skip(1);
    assert forall|k: int| 0 <= k < closed.len() implies (#[trigger] closed[k]) < dag.len() by {
        assert(dag[id as int].srcs[k + 1] < id);
    }
    let loops = ranges_below(dag, closed, closed.len());
    lemma_backedges(dag, closed, closed.len());
    assert(closed.take(closed.len() as int) =~= closed);
    let want = NodeView {
        op: Op::End,
        dtype: node.dtype,
        srcs: seq![node.srcs[0]] + flat(dag, closed),
    };
    lemma_put(dag, want);
    assert forall|x: usize| #[trigger] loops.contains(x) <==> is_loop_below(
        dag,
        closed,
        closed.len(),
        x,
    ) by {
        lemma_ranges_below(dag, closed, closed.len(), x);
    }
    lemma_ranges_below(dag, closed, closed.len(), 0);
    assert(loops.no_duplicates());
}

proof fn lemma_closed_loops(dag: Seq<NodeView>, srcs: Seq<usize>, n: nat)
    requires
        n <= srcs.len(),
    ensures
        closed_loops(dag, srcs, n) == srcs.take(n as int).filter(|x: usize| !is_backedge(dag, x)),
        forall|i: int|
            0 <= i < closed_loops(dag, srcs, n).len() ==> srcs.contains(
                #[trigger] closed_loops(dag, srcs, n)[i],
            ),
    decreases n,
{
    reveal(Seq::filter);
    if n > 0 {
        lemma_closed_loops(dag, srcs, (n - 1) as nat);
        let part = srcs.take(n as int);
        assert(part.drop_last() =~= srcs.take(n - 1));
        assert(part.last() == srcs[n - 1]);
    } else {
        assert(srcs.take(0) =~= Seq::empty());
    }
}

proof fn lemma_by_axis_is_total(dag: Seq<NodeView>)
    ensures
        total_preorder(by_axis(dag)),
{
    let le = by_axis(dag);
    assert forall|a: usize, b: usize| #![trigger le(a, b)] le(a, b) || le(b, a) by {
        lemma_lexical_flips(
            numbers(axis_path(dag[a as int].op)),
            numbers(axis_path(dag[b as int].op)),
            0,
        );
    }
    assert forall|a: usize, b: usize, c: usize|
        #![trigger le(a, b), le(b, c)]
        le(a, b) && le(b, c) implies le(a, c) by {
        lemma_lexical_transitive(
            numbers(axis_path(dag[a as int].op)),
            numbers(axis_path(dag[b as int].op)),
            numbers(axis_path(dag[c as int].op)),
            0,
        );
    }
}

/// Whether loops come in the order of the paths of their axes.
pub open spec fn follow_their_axes(dag: Seq<NodeView>, loops: Seq<usize>) -> bool {
    forall|i: int, j: int|
        0 <= i < j < loops.len() ==> lexical(
            numbers(axis_path(dag[#[trigger] loops[i] as int].op)),
            numbers(axis_path(dag[#[trigger] loops[j] as int].op)),
            0,
        ) != Order::Greater
}

/// An `End` that closes several loops becomes one `End` for each of them, around
/// the same value, in the order of the paths of their axes from the outside in;
/// no loop is lost and none comes twice. Its backedges stay around all of them.
pub proof fn lemma_split_end_closes_every_loop(dag: Seq<NodeView>, id: usize)
    requires
        dag_wf(dag),
        id < dag.len(),
        dag[id as int].op is End,
        dag.len() + dag[id as int].srcs.len() + 1 <= usize::MAX,
        exists|k: int|
            1 <= k < dag[id as int].srcs.len() && !is_backedge(
                dag,
                #[trigger] dag[id as int].srcs[k],
            ),
        split_end(dag, id).dag.len() <= usize::MAX,
    ensures
        ({
            let new = split_end(dag, id);
            let node = dag[id as int];
            let closed = node.srcs.skip(1);
            let edges = closed.filter(|x: usize| is_backedge(dag, x));
            let inner = if edges.len() == 0 {
                new.id
            } else {
                new.dag[new.id as int].srcs[0]
            };
            &&& edges.len() > 0 ==> new.dag[new.id as int].op is End && new.dag[new.id as int].srcs.skip(
                1,
            ) == edges
            &&& exists|order: Seq<usize>|
                {
                    &&& order.to_multiset() == closed.filter(
                        |x: usize| !is_backedge(dag, x),
                    ).to_multiset()
                    &&& #[trigger] follow_their_axes(dag, order)
                    &&& closes_singly(new.dag, inner, node.srcs[0], order)
                }
        }),
{
    let node = dag[id as int];
    let new = split_end(dag, id);
    lemma_arity(dag, id);
    let closed = node.srcs.skip(1);
    let n = closed.len();
    lemma_closed_loops(dag, closed, n);
    lemma_backedges(dag, closed, n);
    assert(closed.take(n as int) =~= closed);
    let loops = closed_loops(dag, closed, n);
    let edges = backedges(dag, closed, n);
    let order = stably_sorted(by_axis(dag), loops);
    lemma_stably_sorted(by_axis(dag), loops);
    lemma_sorted_members(by_axis(dag), loops);
    lemma_by_axis_is_total(dag);
    assert(follow_their_axes(dag, order));
    assert forall|i: int| 0 <= i < order.len() implies (#[trigger] order[i]) < dag.len() by {
        assert(order.contains(order[i]));
        assert(loops.contains(order[i]));
        let j = loops.index_of(order[i]);
        assert(closed.contains(loops[j]));
        let m = closed.index_of(loops[j]);
        assert(dag[id as int].srcs[m + 1] < id);
    }
    assert(dag[id as int].srcs[0] < id);
    assert(loops.len() <= n) by {
        let keep = |x: usize| !is_backedge(dag, x);
        lemma_filter_is_shorter(closed, keep);
    }
    assert(loops.len() > 0) by {
        let k = choose|k: int|
            1 <= k < node.srcs.len() && !is_backedge(dag, #[trigger] dag[id as int].srcs[k]);
        lemma_closed_holds(dag, closed, n, k - 1);
    }
    lemma_ends_close_singly(dag, node.srcs[0], order, 0);
    assert(order.skip(0) =~= order);
    let ends = nested_ends(dag, node.srcs[0], order, 0);
    if edges.len() > 0 {
        let want = end_node(ends.id, edges);
        lemma_put(ends.dag, want);
        assert(want.srcs.skip(1) =~= edges);
        assert(want.srcs[0] == ends.id);
        lemma_singly_kept(ends.dag, new.dag, ends.id, node.srcs[0], order);
    }
}

proof fn lemma_filter_is_shorter(list: Seq<usize>, keep: spec_fn(usize) -> bool)
    ensures
        list.filter(keep).len() <= list.len(),
    decreases list.len(),
{
    reveal(Seq::filter);
    if list.len() > 0 {
        lemma_filter_is_shorter(list.drop_last(), keep);
    }
}

proof fn lemma_closed_holds(dag: Seq<NodeView>, srcs: Seq<usize>, n: nat, k: int)
    requires
        0 <= k < n <= srcs.len(),
        !is_backedge(dag, srcs[k]),
    ensures
        closed_loops(dag, srcs, n).len() > 0,
    decreases n,
{
    if k < n - 1 {
        lemma_closed_holds(dag, srcs, (n - 1) as nat, k);
    }
}

proof fn lemma_singly_kept(
    dag: Seq<NodeView>,
    more: Seq<NodeView>,
    id: usize,
    value: usize,
    loops: Seq<usize>,
)
    requires
        dag_wf(dag),
        extends(dag, more),
        id < dag.len(),
        closes_singly(dag, id, value, loops),
    ensures
        closes_singly(more, id, value, loops),
    decreases loops.len(),
{
    if loops.len() > 0 {
        assert(more[id as int] == dag[id as int]);
        assert(dag[id as int].srcs[0] < id);
        lemma_singly_kept(dag, more, dag[id as int].srcs[0], value, loops.skip(1));
    }
}

/// Whether a node walks an axis of some size for a reduction: a range over as many
/// steps, or zero where there is one.
pub open spec fn walks_axis(dag: Seq<NodeView>, id: usize, size: usize) -> bool {
    let node = dag[id as int];
    if size == 1 {
        node == extent_node(0)
    } else {
        &&& node.op matches Op::Range { kind: AxisType::Reduce, .. }
        &&& node.srcs.len() == 1
        &&& dag[node.srcs[0] as int] == extent_node(size as i64)
    }
}

proof fn lemma_walks_grow(dag: Seq<NodeView>, next: usize, sizes: Seq<usize>, n: nat, m: nat)
    requires
        n <= m,
    ensures
        reduce_walks(dag, next, sizes, n).dag.len() <= reduce_walks(dag, next, sizes, m).dag.len(),
    decreases m,
{
    if n < m {
        lemma_walks_grow(dag, next, sizes, n, (m - 1) as nat);
        let rest = reduce_walks(dag, next, sizes, (m - 1) as nat);
        let size = sizes[m - 1];
        lemma_interned_keeps(rest.dag, extent_node(0));
        let ended = put(rest.dag, extent_node(size as i64));
        lemma_interned_keeps(rest.dag, extent_node(size as i64));
        lemma_interned_keeps(
            ended.dag,
            range_node(
                ended.id,
                AxisId::Unrenumbered(rest.next),
                AxisType::Reduce,
                DType::WeakInt,
            ),
        );
    }
}

proof fn lemma_walks(dag: Seq<NodeView>, next: usize, sizes: Seq<usize>, n: nat)
    requires
        dag_wf(dag),
        n <= sizes.len(),
        reduce_walks(dag, next, sizes, n).dag.len() <= usize::MAX,
    ensures
        ({
            let walks = reduce_walks(dag, next, sizes, n);
            &&& dag_wf(walks.dag)
            &&& extends(dag, walks.dag)
            &&& walks.srcs.len() == n
            &&& forall|k: int|
                0 <= k < n ==> (#[trigger] walks.srcs[k]) < walks.dag.len() && walks_axis(
                    walks.dag,
                    walks.srcs[k],
                    sizes[k],
                )
        }),
    decreases n,
{
    if n > 0 {
        let rest = reduce_walks(dag, next, sizes, (n - 1) as nat);
        let walks = reduce_walks(dag, next, sizes, n);
        lemma_walks_grow(dag, next, sizes, (n - 1) as nat, n);
        lemma_walks(dag, next, sizes, (n - 1) as nat);
        let size = sizes[n - 1];
        if size == 1 {
            lemma_interned_wf(rest.dag, extent_node(0));
            lemma_put(rest.dag, extent_node(0));
        } else {
            let ended = put(rest.dag, extent_node(size as i64));
            let want = range_node(
                ended.id,
                AxisId::Unrenumbered(rest.next),
                AxisType::Reduce,
                DType::WeakInt,
            );
            lemma_interned_keeps(ended.dag, want);
            lemma_interned_wf(rest.dag, extent_node(size as i64));
            lemma_put(rest.dag, extent_node(size as i64));
            lemma_interned_wf(ended.dag, want);
            lemma_put(ended.dag, want);
        }
        assert forall|k: int| 0 <= k < n implies (#[trigger] walks.srcs[k]) < walks.dag.len()
            && walks_axis(walks.dag, walks.srcs[k], sizes[k]) by {
            if k < n - 1 {
                assert(walks.srcs[k] == rest.srcs[k]);
                let at = rest.srcs[k];
                assert(walks.dag[at as int] == rest.dag[at as int]);
                if sizes[k] != 1 {
                    assert(rest.dag[at as int].srcs[0] < at);
                }
            }
        }
    }
}

/// A reduction of leading axes that is given ranges reduces with the same
/// operation over exactly the ranges that walk those axes, each over as many
/// steps as its axis has, and over none of the ranges that walk the result.
pub proof fn lemma_reduction_runs_over_its_leading_axes(
    dag: Seq<NodeView>,
    next: usize,
    sizes: Seq<usize>,
    node: NodeView,
    srcs: Seq<usize>,
    outputs: Seq<usize>,
    reads: Reads,
    id: usize,
    with: ReduceOp,
    count: usize,
)
    requires
        dag_wf(dag),
        node.op == (Op::AxisReduce { with, count }),
        count <= sizes.len(),
        reduce_walks(dag, next, sizes, count as nat).dag.len() <= usize::MAX,
        reads.contains_key(id),
        reads[id]@ == reduce_walks(dag, next, sizes, count as nat).srcs + outputs,
    ensures
        ({
            let walks = reduce_walks(dag, next, sizes, count as nat);
            let new = over_ranges(node, srcs, reads, id);
            let over = new.srcs.skip(srcs.len() as int);
            &&& new.op == Op::Reduce(with)
            &&& new.dtype == node.dtype
            &&& new.srcs.len() == srcs.len() + count
            &&& new.srcs.take(srcs.len() as int) == srcs
            &&& forall|k: int|
                0 <= k < count ==> walks_axis(walks.dag, #[trigger] over[k], sizes[k])
        }),
{
    let walks = reduce_walks(dag, next, sizes, count as nat);
    lemma_walks(dag, next, sizes, count as nat);
    let new = over_ranges(node, srcs, reads, id);
    assert(reads[id]@.take(count as int) =~= walks.srcs);
    assert(new.srcs == srcs + walks.srcs);
    assert(new.srcs.take(srcs.len() as int) =~= srcs);
    let over = new.srcs.skip(srcs.len() as int);
    assert(over =~= walks.srcs);
}

} // verus!
