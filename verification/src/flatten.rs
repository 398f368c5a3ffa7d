//! Loops that an `End` closes through expressions over them.

use vstd::prelude::*;

use crate::builders::{lemma_interned_keeps, put, Built};
use crate::graph::{dag_wf, DType, Graph, NodeView, Op};
use crate::late::made;
use crate::meaning::lemma_arity;
use crate::passes::sources;
use crate::shape::same_list;
use crate::topo::{lemma_ordered_closed, lemma_topo, ordered, reaches, topo};

verus! {

/// Whether a source of an `End` is a backedge of a reduction rather than a
/// loop: it is a truth value, or no value at all.
pub open spec fn is_backedge(dag: Seq<NodeView>, id: usize) -> bool {
    dag[id as int].dtype == DType::Bool || dag[id as int].dtype == DType::Void
}

/// A list with the loops among the first `n` nodes of a walk, each once.
pub open spec fn with_ranges(
    dag: Seq<NodeView>,
    list: Seq<usize>,
    walk: Seq<usize>,
    n: nat,
) -> Seq<usize>
    decreases n,
{
    if n == 0 {
        list
    } else {
        let rest = with_ranges(dag, list, walk, (n - 1) as nat);
        if dag[walk[n - 1] as int].op is Range && !rest.contains(walk[n - 1]) {
            rest.push(walk[n - 1])
        } else {
            rest
        }
    }
}

/// The loops at and below the first `n` sources that are no backedges, each
/// once, sources first.
pub open spec fn ranges_below(dag: Seq<NodeView>, srcs: Seq<usize>, n: nat) -> Seq<usize>
    decreases n,
{
    if n == 0 {
        Seq::empty()
    } else {
        let rest = ranges_below(dag, srcs, (n - 1) as nat);
        if is_backedge(dag, srcs[n - 1]) {
            rest
        } else {
            with_ranges(dag, rest, topo(dag, srcs[n - 1]), topo(dag, srcs[n - 1]).len())
        }
    }
}

/// The backedges among the first `n` sources.
pub open spec fn backedges(dag: Seq<NodeView>, srcs: Seq<usize>, n: nat) -> Seq<usize>
    decreases n,
{
    if n == 0 {
        Seq::empty()
    } else {
        let rest = backedges(dag, srcs, (n - 1) as nat);
        if is_backedge(dag, srcs[n - 1]) {
            rest.push(srcs[n - 1])
        } else {
            rest
        }
    }
}

/// What an `End` closes: the loops themselves, and behind them the backedges.
pub open spec fn flat(dag: Seq<NodeView>, srcs: Seq<usize>) -> Seq<usize> {
    ranges_below(dag, srcs, srcs.len()) + backedges(dag, srcs, srcs.len())
}

/// An `End` that closes loops themselves, if it did not already. The
/// computation is left as it is, with any `End` in it; and an `End` that would
/// close nothing is left alone.
pub open spec fn flattened(dag: Seq<NodeView>, id: usize) -> Option<Built> {
    let node = dag[id as int];
    if node.op is End {
        let closed = node.srcs.skip(1);
        let list = flat(dag, closed);
        if list == closed || list.len() == 0 {
            None
        } else {
            Some(
                put(
                    dag,
                    NodeView {
                        op: Op::End,
                        dtype: node.dtype,
                        srcs: seq![node.srcs[0]] + list,
                    },
                ),
            )
        }
    } else {
        None
    }
}

pub(crate) fn backedge(graph: &Graph, id: usize) -> (r: bool)
    requires
        id < graph@.len(),
    ensures
        r == is_backedge(graph@, id),
{
    let dtype = graph.dtype(id);
    dtype == DType::Bool || dtype == DType::Void
}

fn holds(list: &Vec<usize>, id: usize) -> (r: bool)
    ensures
        r == list@.contains(id),
{
    let mut k: usize = 0;
    while k < list.len()
        invariant
            k <= list@.len(),
            forall|j: int| 0 <= j < k ==> list@[j] != id,
        decreases list@.len() - k,
    {
        if list[k] == id {
            return true;
        }
        k += 1;
    }
    false
}

fn find_flat(graph: &Graph, srcs: &Vec<usize>) -> (list: Vec<usize>)
    requires
        graph.wf(),
        forall|k: int| 0 <= k < srcs@.len() ==> (#[trigger] srcs@[k]) < graph@.len(),
    ensures
        list@ == flat(graph@, srcs@),
        forall|k: int| 0 <= k < list@.len() ==> (#[trigger] list@[k]) < graph@.len(),
{
    let ghost dag = graph@;
    let mut list: Vec<usize> = Vec::new();
    let mut n: usize = 0;
    while n < srcs.len()
        invariant
            graph.wf(),
            dag == graph@,
            forall|k: int| 0 <= k < srcs@.len() ==> (#[trigger] srcs@[k]) < dag.len(),
            n <= srcs@.len(),
            list@ == ranges_below(dag, srcs@, n as nat),
            forall|k: int| 0 <= k < list@.len() ==> (#[trigger] list@[k]) < dag.len(),
        decreases srcs@.len() - n,
    {
        let src: usize = srcs[n];
        if !backedge(graph, src) {
            let walk = graph.toposort(src);
            proof {
                lemma_topo(dag, src);
            }
            let ghost first = list@;
            let mut p: usize = 0;
            while p < walk.len()
                invariant
                    graph.wf(),
                    dag == graph@,
                    src < dag.len(),
                    walk@ == topo(dag, src),
                    forall|q: int| 0 <= q < walk@.len() ==> (#[trigger] walk@[q]) < dag.len(),
                    p <= walk@.len(),
                    list@ == with_ranges(dag, first, walk@, p as nat),
                    forall|k: int| 0 <= k < list@.len() ==> (#[trigger] list@[k]) < dag.len(),
                decreases walk@.len() - p,
            {
                let u: usize = walk[p];
                let range: bool = match graph.op(u) {
                    Op::Range { .. } => true,
                    _ => false,
                };
                if range && !holds(&list, u) {
                    list.push(u);
                }
                p += 1;
            }
        }
        n += 1;
    }
    let ghost ranges = list@;
    let mut m: usize = 0;
    while m < srcs.len()
        invariant
            dag == graph@,
            forall|k: int| 0 <= k < srcs@.len() ==> (#[trigger] srcs@[k]) < dag.len(),
            m <= srcs@.len(),
            list@ == ranges + backedges(dag, srcs@, m as nat),
            forall|k: int| 0 <= k < list@.len() ==> (#[trigger] list@[k]) < dag.len(),
        decreases srcs@.len() - m,
    {
        if backedge(graph, srcs[m]) {
            list.push(srcs[m]);
            assert(list@ =~= ranges + backedges(dag, srcs@, (m + 1) as nat));
        }
        m += 1;
    }
    list
}

/// Lets an `End` close the loops themselves; see `flattened`.
pub fn flatten_range_impl(graph: &mut Graph, id: usize) -> (new: Option<usize>)
    requires
        old(graph).wf(),
        id < old(graph)@.len(),
    ensures
        made(old(graph)@, *final(graph), flattened(old(graph)@, id), new),
{
    let ghost dag = graph@;
    proof {
        lemma_arity(dag, id);
    }
    match graph.op(id) {
        Op::End => {},
        _ => {
            return None;
        },
    }
    let dtype = graph.dtype(id);
    let all = sources(graph, id);
    let computation: usize = all[0];
    let mut closed: Vec<usize> = Vec::new();
    let mut k: usize = 1;
    while k < all.len()
        invariant
            1 <= k <= all@.len(),
            closed@ == all@.subrange(1, k as int),
        decreases all@.len() - k,
    {
        closed.push(all[k]);
        k += 1;
        assert(closed@ =~= all@.subrange(1, k as int));
    }
    assert(closed@ =~= all@.skip(1));
    assert forall|k: int| 0 <= k < closed@.len() implies (#[trigger] closed@[k]) < dag.len() by {
        assert(closed@[k] == all@[k + 1]);
    }
    let list = find_flat(graph, &closed);
    if list.len() == 0 || same_list(&list, &closed) {
        return None;
    }
    let new: usize = graph.led(Op::End, dtype, computation, list.as_slice());
    proof {
        lemma_interned_keeps(
            dag,
            NodeView { op: Op::End, dtype, srcs: seq![computation] + list@ },
        );
    }
    Some(new)
}

/// A list of loops in which each loop comes once, and behind all loops that it
/// depends on.
spec fn is_settled(dag: Seq<NodeView>, list: Seq<usize>) -> bool {
    &&& list.no_duplicates()
    &&& forall|i: int|
        0 <= i < list.len() ==> (#[trigger] list[i]) < dag.len() && dag[list[i] as int].op is Range
            && !is_backedge(dag, list[i])
    &&& forall|i: int, x: usize|
        #![trigger list[i], reaches(dag, list[i], x)]
        0 <= i < list.len() && reaches(dag, list[i], x) && dag[x as int].op is Range ==> list.take(
            i + 1,
        ).contains(x)
}

proof fn lemma_with_ranges_settles(
    dag: Seq<NodeView>,
    list: Seq<usize>,
    root: usize,
    n: nat,
)
    requires
        dag_wf(dag),
        root < dag.len(),
        ranges_have_values(dag),
        is_settled(dag, list),
        n <= topo(dag, root).len(),
    ensures
        is_settled(dag, with_ranges(dag, list, topo(dag, root), n)),
        forall|p: int|
            0 <= p < n && dag[(#[trigger] topo(dag, root)[p]) as int].op is Range ==> with_ranges(
                dag,
                list,
                topo(dag, root),
                n,
            ).contains(topo(dag, root)[p]),
    decreases n,
{
    let walk = topo(dag, root);
    lemma_topo(dag, root);
    if n > 0 {
        lemma_with_ranges_settles(dag, list, root, (n - 1) as nat);
        let rest = with_ranges(dag, list, walk, (n - 1) as nat);
        let all = with_ranges(dag, list, walk, n);
        let u = walk[n - 1];
        if dag[u as int].op is Range && !rest.contains(u) {
            assert forall|i: int, x: usize|
                #![trigger all[i], reaches(dag, all[i], x)]
                0 <= i < all.len() && reaches(dag, all[i], x) && dag[x as int].op is Range implies
                all.take(i + 1).contains(x) by {
                if i < rest.len() {
                    assert(rest[i] == all[i]);
                    assert(reaches(dag, rest[i], x));
                    assert(rest.take(i + 1).contains(x));
                    assert(all.take(i + 1) =~= rest.take(i + 1));
                } else {
                    assert(all.take(i + 1) =~= all);
                    if x == u {
                        assert(all[i] == u);
                        assert(all.contains(x));
                    } else {
                        let some = walk.take(n as int);
                        lemma_prefix_ordered(dag, walk, n as int);
                        assert(some[n - 1] == u);
                        assert(some.contains(u));
                        lemma_ordered_closed(dag, some, u, x);
                        let p = choose|p: int| 0 <= p < some.len() && some[p] == x;
                        assert(walk[p] == x);
                        assert(p < n - 1);
                        assert(rest.contains(walk[p]));
                        let q = choose|q: int| 0 <= q < rest.len() && rest[q] == x;
                        assert(all[q] == x);
                    }
                }
            }
            assert forall|i: int, j: int| 0 <= i < j < all.len() implies all[i] != all[j] by {
                assert(all[i] == rest[i]);
                if j == rest.len() {
                    if all[i] == u {
                        assert(rest.contains(u));
                    }
                } else {
                    assert(all[j] == rest[j]);
                }
            }
            assert forall|i: int| 0 <= i < all.len() implies (#[trigger] all[i]) < dag.len()
                && dag[all[i] as int].op is Range && !is_backedge(dag, all[i]) by {
                if i < rest.len() {
                    assert(all[i] == rest[i]);
                }
            }
        }
        assert forall|p: int|
            0 <= p < n && dag[(#[trigger] walk[p]) as int].op is Range implies all.contains(
            walk[p],
        ) by {
            if p < n - 1 {
                assert(rest.contains(walk[p]));
                let q = choose|q: int| 0 <= q < rest.len() && rest[q] == walk[p];
                assert(all[q] == walk[p]);
            } else if !rest.contains(u) {
                assert(all[rest.len() as int] == u);
            }
        }
    }
}

proof fn lemma_prefix_ordered(dag: Seq<NodeView>, walk: Seq<usize>, n: int)
    requires
        ordered(dag, walk),
        0 <= n <= walk.len(),
    ensures
        ordered(dag, walk.take(n)),
{
    let some = walk.take(n);
    assert forall|p: int, k: int|
        #![trigger dag[some[p] as int].srcs[k]]
        0 <= p < some.len() && 0 <= k < dag[some[p] as int].srcs.len() implies crate::topo::before(
        some,
        p,
        dag[some[p] as int].srcs[k],
    ) by {
        assert(walk[p] == some[p]);
        assert(crate::topo::before(walk, p, dag[walk[p] as int].srcs[k]));
        let q = choose|q: int| 0 <= q < p && #[trigger] walk[q] == dag[walk[p] as int].srcs[k];
        assert(some[q] == walk[q]);
    }
}

/// Every loop has a counter that is a number.
pub open spec fn ranges_have_values(dag: Seq<NodeView>) -> bool {
    forall|i: usize|
        i < dag.len() && (#[trigger] dag[i as int]).op is Range ==> !is_backedge(dag, i)
}

proof fn lemma_ranges_below_settle(dag: Seq<NodeView>, srcs: Seq<usize>, n: nat)
    requires
        dag_wf(dag),
        ranges_have_values(dag),
        n <= srcs.len(),
        forall|k: int| 0 <= k < srcs.len() ==> (#[trigger] srcs[k]) < dag.len(),
    ensures
        is_settled(dag, ranges_below(dag, srcs, n)),
    decreases n,
{
    if n > 0 {
        lemma_ranges_below_settle(dag, srcs, (n - 1) as nat);
        let rest = ranges_below(dag, srcs, (n - 1) as nat);
        if !is_backedge(dag, srcs[n - 1]) {
            assert(srcs[n - 1] < dag.len());
            lemma_with_ranges_settles(
                dag,
                rest,
                srcs[n - 1],
                topo(dag, srcs[n - 1]).len(),
            );
        }
    }
}

proof fn lemma_known_ranges_add_nothing(
    dag: Seq<NodeView>,
    list: Seq<usize>,
    walk: Seq<usize>,
    n: nat,
)
    requires
        n <= walk.len(),
        forall|p: int|
            0 <= p < n && dag[(#[trigger] walk[p]) as int].op is Range ==> list.contains(walk[p]),
    ensures
        with_ranges(dag, list, walk, n) == list,
    decreases n,
{
    if n > 0 {
        lemma_known_ranges_add_nothing(dag, list, walk, (n - 1) as nat);
        assert(dag[walk[n - 1] as int].op is Range ==> list.contains(walk[n - 1]));
    }
}

/// Over a settled list of loops the loops below are the list itself.
proof fn lemma_settled_list(
    dag: Seq<NodeView>,
    list: Seq<usize>,
    tail: Seq<usize>,
    n: nat,
)
    requires
        dag_wf(dag),
        is_settled(dag, list),
        n <= list.len(),
    ensures
        ranges_below(dag, list + tail, n) == list.take(n as int),
        backedges(dag, list + tail, n) == Seq::<usize>::empty(),
    decreases n,
{
    let srcs = list + tail;
    if n == 0 {
        assert(list.take(0) =~= Seq::<usize>::empty());
    } else {
        lemma_settled_list(dag, list, tail, (n - 1) as nat);
        let rest = list.take(n - 1);
        let r = list[n - 1];
        assert(srcs[n - 1] == r);
        let walk = topo(dag, r);
        lemma_topo(dag, r);
        let len = walk.len();
        assert(walk[len - 1] == r);
        assert forall|p: int|
            0 <= p < len - 1 && dag[(#[trigger] walk[p]) as int].op is Range implies rest.contains(
            walk[p],
        ) by {
            let x = walk[p];
            assert(walk.contains(x));
            assert(reaches(dag, list[n - 1], x));
            assert(list.take(n as int).contains(x));
            let q = choose|q: int| 0 <= q < list.take(n as int).len() && list.take(n as int)[q] == x;
            assert(walk[p] != walk[len - 1]);
            assert(q < n - 1);
            assert(rest[q] == x);
        }
        lemma_known_ranges_add_nothing(dag, rest, walk, (len - 1) as nat);
        assert(!rest.contains(r)) by {
            if rest.contains(r) {
                let q = choose|q: int| 0 <= q < rest.len() && rest[q] == r;
                assert(list[q] == list[n - 1]);
            }
        }
        assert(list.take(n as int) =~= rest.push(r));
    }
}

proof fn lemma_backedge_tail(
    dag: Seq<NodeView>,
    list: Seq<usize>,
    tail: Seq<usize>,
    n: nat,
)
    requires
        dag_wf(dag),
        is_settled(dag, list),
        n <= tail.len(),
        forall|k: int| 0 <= k < tail.len() ==> is_backedge(dag, #[trigger] tail[k]),
    ensures
        ranges_below(dag, list + tail, (list.len() + n) as nat) == list,
        backedges(dag, list + tail, (list.len() + n) as nat) == tail.take(n as int),
    decreases n,
{
    let srcs = list + tail;
    if n == 0 {
        lemma_settled_list(dag, list, tail, list.len());
        assert(list.take(list.len() as int) =~= list);
        assert(tail.take(0) =~= Seq::<usize>::empty());
    } else {
        lemma_backedge_tail(dag, list, tail, (n - 1) as nat);
        assert(srcs[list.len() + n - 1] == tail[n - 1]);
        assert(is_backedge(dag, tail[n - 1]));
        assert(tail.take(n as int) =~= tail.take(n - 1).push(tail[n - 1]));
    }
}

proof fn lemma_backedges(dag: Seq<NodeView>, srcs: Seq<usize>, n: nat)
    requires
        n <= srcs.len(),
    ensures
        forall|k: int|
            0 <= k < backedges(dag, srcs, n).len() ==> is_backedge(
                dag,
                #[trigger] backedges(dag, srcs, n)[k],
            ),
    decreases n,
{
    if n > 0 {
        lemma_backedges(dag, srcs, (n - 1) as nat);
        let rest = backedges(dag, srcs, (n - 1) as nat);
        let all = backedges(dag, srcs, n);
        assert forall|k: int| 0 <= k < all.len() implies is_backedge(dag, #[trigger] all[k]) by {
            if k < rest.len() {
                assert(all[k] == rest[k]);
            }
        }
    }
}

/// What is flat stays as it is: what an `End` closes once its loops are flat,
/// it closes when they are flattened again.
pub proof fn lemma_flat_is_flat(dag: Seq<NodeView>, srcs: Seq<usize>)
    requires
        dag_wf(dag),
        ranges_have_values(dag),
        forall|k: int| 0 <= k < srcs.len() ==> (#[trigger] srcs[k]) < dag.len(),
    ensures
        flat(dag, flat(dag, srcs)) == flat(dag, srcs),
{
    let list = ranges_below(dag, srcs, srcs.len());
    let tail = backedges(dag, srcs, srcs.len());
    lemma_ranges_below_settle(dag, srcs, srcs.len());
    lemma_backedges(dag, srcs, srcs.len());
    lemma_backedge_tail(dag, list, tail, tail.len());
    assert(tail.take(tail.len() as int) =~= tail);
    assert((list + tail).len() == list.len() + tail.len());
}

} // verus!
