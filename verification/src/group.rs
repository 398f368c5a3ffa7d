//! Grouped reductions: threads reduce their own parts into shared memory, and
//! a loop of its own puts the parts together.

use vstd::prelude::*;

use crate::builders::{lemma_interned_keeps, put, Built};
use crate::graph::{
    dag_wf, AddrSpace, AxisType, DType, Graph, NodeView, Op, GROUP_LOOP,
};
use crate::late::made;
use crate::meaning::lemma_arity;
use crate::pad::Listed;
use crate::passes::{extends, grown, lemma_put, sources};
use crate::topo::{lemma_topo, topo};

verus! {

/// Whether a node is a loop of a kind.
pub open spec fn is_loop_of(dag: Seq<NodeView>, id: usize, kind: AxisType) -> bool {
    dag[id as int].op matches Op::Range { kind: own, .. } && own == kind
}

/// The loops of a kind among the first `n` of some nodes, or what is left
/// without them.
pub open spec fn sifted(
    dag: Seq<NodeView>,
    list: Seq<usize>,
    kind: AxisType,
    keep: bool,
    n: nat,
) -> Seq<usize>
    decreases n,
{
    if n == 0 {
        Seq::empty()
    } else {
        let rest = sifted(dag, list, kind, keep, (n - 1) as nat);
        if is_loop_of(dag, list[n - 1], kind) == keep {
            rest.push(list[n - 1])
        } else {
            rest
        }
    }
}

/// The loop that puts together the parts of a grouped one: as long, waiting for
/// the same, over an axis of its own.
pub open spec fn final_loop(node: NodeView) -> Option<NodeView> {
    match node.op {
        Op::Range { axis, .. } => match axis.part(GROUP_LOOP) {
            Some(own) => Some(
                NodeView {
                    op: Op::Range { axis: own, kind: AxisType::Reduce },
                    dtype: node.dtype,
                    srcs: node.srcs,
                },
            ),
            None => None,
        },
        _ => None,
    }
}

/// Whether all of the first `n` grouped loops have a final loop.
pub open spec fn have_final_loops(dag: Seq<NodeView>, list: Seq<usize>, n: nat) -> bool {
    forall|k: int|
        0 <= k < n && k < list.len() ==> final_loop(dag[#[trigger] list[k] as int]) is Some
}

/// The final loops of the first `n` grouped ones.
pub open spec fn final_loops(dag: Seq<NodeView>, list: Seq<usize>, n: nat) -> Listed
    decreases n,
{
    if n == 0 {
        Listed { dag, srcs: Seq::empty() }
    } else {
        let rest = final_loops(dag, list, (n - 1) as nat);
        let new = put(rest.dag, final_loop(dag[list[n - 1] as int])->0);
        Listed { dag: new.dag, srcs: rest.srcs.push(new.id) }
    }
}

/// A reduction over some loops.
pub open spec fn reduce_node(node: NodeView, value: usize, loops: Seq<usize>) -> NodeView {
    NodeView { op: node.op, dtype: node.dtype, srcs: seq![value] + loops }
}

/// A reduction with grouped loops, as a reduction over its other loops that is
/// staged in shared memory along the local loops below it and the grouped
/// ones, and reduced from there by the final loops.
pub open spec fn grouped_reduce(dag: Seq<NodeView>, id: usize) -> Option<Built> {
    let node = dag[id as int];
    let loops = node.srcs.skip(1);
    let grouped = sifted(dag, loops, AxisType::GroupReduce, true, loops.len());
    if !(node.op is Reduce) || grouped.len() == 0 || !have_final_loops(
        dag,
        grouped,
        grouped.len(),
    ) {
        None
    } else {
        let others = sifted(dag, loops, AxisType::GroupReduce, false, loops.len());
        let walk = topo(dag, id);
        let locals = sifted(dag, walk, AxisType::Local, true, walk.len());
        let partial = put(dag, reduce_node(node, node.srcs[0], others));
        let ends = final_loops(partial.dag, grouped, grouped.len());
        let stage = put(
            ends.dag,
            NodeView {
                op: Op::Stage { space: AddrSpace::Local, removable: true },
                dtype: node.dtype,
                srcs: seq![partial.id] + locals + grouped,
            },
        );
        let read = put(
            stage.dag,
            NodeView {
                op: Op::Index,
                dtype: node.dtype,
                srcs: seq![stage.id] + locals + ends.srcs,
            },
        );
        Some(put(read.dag, reduce_node(node, read.id, ends.srcs)))
    }
}

fn sift(graph: &Graph, list: &Vec<usize>, kind: AxisType, keep: bool) -> (kept: Vec<usize>)
    requires
        graph.wf(),
        forall|k: int| 0 <= k < list@.len() ==> (#[trigger] list@[k]) < graph@.len(),
    ensures
        kept@ == sifted(graph@, list@, kind, keep, list@.len()),
        forall|k: int| 0 <= k < kept@.len() ==> (#[trigger] kept@[k]) < graph@.len(),
        keep ==> forall|k: int|
            0 <= k < kept@.len() ==> is_loop_of(graph@, #[trigger] kept@[k], kind),
{
    let mut kept: Vec<usize> = Vec::new();
    let mut n: usize = 0;
    while n < list.len()
        invariant
            graph.wf(),
            n <= list@.len(),
            forall|k: int| 0 <= k < list@.len() ==> (#[trigger] list@[k]) < graph@.len(),
            kept@ == sifted(graph@, list@, kind, keep, n as nat),
            forall|k: int| 0 <= k < kept@.len() ==> (#[trigger] kept@[k]) < graph@.len(),
            keep ==> forall|k: int|
                0 <= k < kept@.len() ==> is_loop_of(graph@, #[trigger] kept@[k], kind),
        decreases list@.len() - n,
    {
        let id: usize = list[n];
        let same: bool = match graph.op(id) {
            Op::Range { kind: own, .. } => own == kind,
            _ => false,
        };
        if same == keep {
            kept.push(id);
        }
        n += 1;
    }
    kept
}

fn put_final_loops(graph: &mut Graph, list: &Vec<usize>) -> (ids: Vec<usize>)
    requires
        old(graph).wf(),
        forall|k: int| 0 <= k < list@.len() ==> (#[trigger] list@[k]) < old(graph)@.len(),
        have_final_loops(old(graph)@, list@, list@.len()),
    ensures
        final(graph).wf(),
        extends(old(graph)@, final(graph)@),
        final_loops(old(graph)@, list@, list@.len()) == (Listed {
            dag: final(graph)@,
            srcs: ids@,
        }),
        forall|k: int| 0 <= k < ids@.len() ==> (#[trigger] ids@[k]) < final(graph)@.len(),
{
    let ghost dag = graph@;
    let mut ids: Vec<usize> = Vec::new();
    let mut n: usize = 0;
    while n < list.len()
        invariant
            graph.wf(),
            n <= list@.len(),
            extends(dag, graph@),
            forall|k: int| 0 <= k < list@.len() ==> (#[trigger] list@[k]) < dag.len(),
            have_final_loops(dag, list@, list@.len()),
            final_loops(dag, list@, n as nat) == (Listed { dag: graph@, srcs: ids@ }),
            forall|k: int| 0 <= k < ids@.len() ==> (#[trigger] ids@[k]) < graph@.len(),
        decreases list@.len() - n,
    {
        let id: usize = list[n];
        let ghost held = graph@;
        assert(graph@[id as int] == dag[id as int]);
        assert(final_loop(dag[list@[n as int] as int]) is Some);
        proof {
            lemma_arity(graph@, id);
        }
        if let Op::Range { axis, .. } = graph.op(id) {
            if let Some(own) = axis.group_reduce_loop() {
                let dtype = graph.dtype(id);
                let srcs = sources(graph, id);
                let op = Op::Range { axis: own, kind: AxisType::Reduce };
                let new: usize = graph.node(op, dtype, srcs.as_slice());
                proof {
                    lemma_interned_keeps(held, NodeView { op, dtype, srcs: srcs@ });
                }
                ids.push(new);
            }
        }
        n += 1;
    }
    ids
}

/// Takes the grouped loops of a reduction apart; nothing where it has none, or
/// where one of their axes has no room for another part. See `grouped_reduce`.
pub fn group_for_reduce(graph: &mut Graph, id: usize) -> (new: Option<usize>)
    requires
        old(graph).wf(),
        id < old(graph)@.len(),
    ensures
        made(old(graph)@, *final(graph), grouped_reduce(old(graph)@, id), new),
{
    let ghost dag = graph@;
    let ghost node = dag[id as int];
    proof {
        lemma_arity(dag, id);
    }
    let op = graph.op(id);
    match op {
        Op::Reduce(_) => {},
        _ => {
            return None;
        },
    }
    let dtype = graph.dtype(id);
    let value: usize = graph.source(id, 0);
    let count: usize = graph.source_count(id);
    let mut loops: Vec<usize> = Vec::new();
    let mut k: usize = 1;
    while k < count
        invariant
            graph.wf(),
            graph@ == dag,
            id < dag.len(),
            node == dag[id as int],
            count == node.srcs.len(),
            1 <= k <= count,
            loops@ == node.srcs.subrange(1, k as int),
            forall|i: int| 0 <= i < loops@.len() ==> (#[trigger] loops@[i]) < dag.len(),
        decreases count - k,
    {
        let src: usize = graph.source(id, k);
        loops.push(src);
        assert(loops@ =~= node.srcs.subrange(1, k + 1));
        k += 1;
    }
    assert(loops@ =~= node.srcs.skip(1));
    let grouped = sift(graph, &loops, AxisType::GroupReduce, true);
    if grouped.len() == 0 {
        return None;
    }
    let mut n: usize = 0;
    while n < grouped.len()
        invariant
            graph.wf(),
            graph@ == dag,
            id < dag.len(),
            node == dag[id as int],
            node.op is Reduce,
            n <= grouped@.len(),
            loops@ == node.srcs.skip(1),
            grouped@ == sifted(dag, loops@, AxisType::GroupReduce, true, loops@.len()),
            forall|k: int| 0 <= k < grouped@.len() ==> (#[trigger] grouped@[k]) < dag.len(),
            forall|k: int|
                0 <= k < grouped@.len() ==> is_loop_of(
                    dag,
                    #[trigger] grouped@[k],
                    AxisType::GroupReduce,
                ),
            have_final_loops(dag, grouped@, n as nat),
        decreases grouped@.len() - n,
    {
        let room: bool = match graph.op(grouped[n]) {
            Op::Range { axis, .. } => match axis.group_reduce_loop() {
                Some(_) => true,
                None => false,
            },
            _ => false,
        };
        assert(final_loop(dag[grouped@[n as int] as int]) is Some == room);
        if !room {
            return None;
        }
        n += 1;
    }
    let others = sift(graph, &loops, AxisType::GroupReduce, false);
    let walk = graph.toposort(id);
    proof {
        lemma_topo(dag, id);
    }
    let locals = sift(graph, &walk, AxisType::Local, true);
    let partial: usize = put_list(graph, op, dtype, value, &others, &Vec::new());
    let ghost partial_dag = graph@;
    assert(seq![value] + others@ + Seq::<usize>::empty() =~= seq![value] + others@);
    proof {
        assert forall|k: int| 0 <= k < grouped@.len() implies final_loop(
            partial_dag[#[trigger] grouped@[k] as int],
        ) is Some by {
            assert(partial_dag[grouped@[k] as int] == dag[grouped@[k] as int]);
        }
    }
    let ends = put_final_loops(graph, &grouped);
    let space = Op::Stage { space: AddrSpace::Local, removable: true };
    let stage: usize = put_list(graph, space, dtype, partial, &locals, &grouped);
    let read: usize = put_list(graph, Op::Index, dtype, stage, &locals, &ends);
    assert(seq![read] + ends@ + Seq::<usize>::empty() =~= seq![read] + ends@);
    let new: usize = put_list(graph, op, dtype, read, &ends, &Vec::new());
    Some(new)
}

fn put_list(
    graph: &mut Graph,
    op: Op,
    dtype: DType,
    first: usize,
    more: &Vec<usize>,
    last: &Vec<usize>,
) -> (id: usize)
    requires
        old(graph).wf(),
        op is Reduce || op is Stage || op is Index,
        first < old(graph)@.len(),
        forall|k: int| 0 <= k < more@.len() ==> (#[trigger] more@[k]) < old(graph)@.len(),
        forall|k: int| 0 <= k < last@.len() ==> (#[trigger] last@[k]) < old(graph)@.len(),
    ensures
        grown(
            old(graph)@,
            *final(graph),
            put(old(graph)@, NodeView { op, dtype, srcs: seq![first] + more@ + last@ }),
            id,
        ),
{
    let mut srcs: Vec<usize> = Vec::new();
    srcs.push(first);
    push_list(&mut srcs, more);
    push_list(&mut srcs, last);
    assert(srcs@ =~= seq![first] + more@ + last@);
    assert forall|k: int| 0 <= k < srcs@.len() implies (#[trigger] srcs@[k]) < graph@.len() by {
        if 1 <= k < 1 + more@.len() {
            assert(srcs@[k] == more@[k - 1]);
        } else if k >= 1 + more@.len() {
            assert(srcs@[k] == last@[k - 1 - more@.len()]);
        }
    }
    proof {
        lemma_interned_keeps(graph@, NodeView { op, dtype, srcs: srcs@ });
    }
    graph.node(op, dtype, srcs.as_slice())
}

fn push_list(list: &mut Vec<usize>, more: &Vec<usize>)
    ensures
        final(list)@ == old(list)@ + more@,
{
    let ghost held = list@;
    let mut n: usize = 0;
    while n < more.len()
        invariant
            n <= more@.len(),
            list@ == held + more@.take(n as int),
        decreases more@.len() - n,
    {
        list.push(more[n]);
        assert(list@ =~= held + more@.take(n + 1));
        n += 1;
    }
    assert(more@.take(more@.len() as int) =~= more@);
}

pub(crate) proof fn lemma_sifted(dag: Seq<NodeView>, list: Seq<usize>, kind: AxisType, keep: bool, n: nat)
    requires
        n <= list.len(),
    ensures
        forall|k: int|
            0 <= k < sifted(dag, list, kind, keep, n).len() ==> {
                let x = #[trigger] sifted(dag, list, kind, keep, n)[k];
                is_loop_of(dag, x, kind) == keep && list.contains(x)
            },
    decreases n,
{
    if n > 0 {
        let rest = sifted(dag, list, kind, keep, (n - 1) as nat);
        let whole = sifted(dag, list, kind, keep, n);
        lemma_sifted(dag, list, kind, keep, (n - 1) as nat);
        assert(list.contains(list[n - 1]));
        assert forall|k: int| 0 <= k < whole.len() implies {
            let x = #[trigger] whole[k];
            is_loop_of(dag, x, kind) == keep && list.contains(x)
        } by {
            if k < rest.len() {
                assert(whole[k] == rest[k]);
            } else {
                assert(whole[k] == list[n - 1]);
            }
        }
    }
}

pub(crate) proof fn lemma_final_loops(dag: Seq<NodeView>, list: Seq<usize>, n: nat)
    requires
        n <= list.len(),
        forall|k: int| 0 <= k < list.len() ==> (#[trigger] list[k]) < dag.len(),
        have_final_loops(dag, list, list.len()),
        final_loops(dag, list, n).dag.len() <= usize::MAX,
    ensures
        ({
            let ends = final_loops(dag, list, n);
            &&& extends(dag, ends.dag)
            &&& ends.srcs.len() == n
            &&& forall|k: int|
                0 <= k < n ==> (#[trigger] ends.srcs[k]) < ends.dag.len() && Some(
                    ends.dag[ends.srcs[k] as int],
                ) == final_loop(dag[list[k] as int])
        }),
    decreases n,
{
    if n > 0 {
        let rest = final_loops(dag, list, (n - 1) as nat);
        assert(final_loop(dag[list[n - 1] as int]) is Some);
        let node = final_loop(dag[list[n - 1] as int])->0;
        lemma_interned_keeps(rest.dag, node);
        lemma_final_loops(dag, list, (n - 1) as nat);
        lemma_put(rest.dag, node);
    }
}

/// What a grouped reduction becomes reduces over final loops alone: each is as
/// long as its grouped loop and waits for the same, and its axis is the grouped
/// one's with one step more.
pub proof fn lemma_grouped_loops_are_gone(dag: Seq<NodeView>, id: usize)
    requires
        dag_wf(dag),
        id < dag.len(),
        grouped_reduce(dag, id) is Some,
        (grouped_reduce(dag, id)->0).dag.len() <= usize::MAX,
    ensures
        ({
            let new = grouped_reduce(dag, id)->0;
            let node = new.dag[new.id as int];
            let loops = dag[id as int].srcs.skip(1);
            let grouped = sifted(dag, loops, AxisType::GroupReduce, true, loops.len());
            &&& node.op == dag[id as int].op
            &&& node.dtype == dag[id as int].dtype
            &&& node.srcs.len() == grouped.len() + 1
            &&& forall|k: int|
                0 <= k < grouped.len() ==> Some(new.dag[#[trigger] node.srcs[k + 1] as int])
                    == final_loop(dag[grouped[k] as int])
            &&& forall|k: int|
                0 <= k < grouped.len() ==> !is_loop_of(
                    new.dag,
                    #[trigger] node.srcs[k + 1],
                    AxisType::GroupReduce,
                )
        }),
{
    let node = dag[id as int];
    let loops = node.srcs.skip(1);
    let grouped = sifted(dag, loops, AxisType::GroupReduce, true, loops.len());
    let others = sifted(dag, loops, AxisType::GroupReduce, false, loops.len());
    let walk = topo(dag, id);
    let locals = sifted(dag, walk, AxisType::Local, true, walk.len());
    let first = reduce_node(node, node.srcs[0], others);
    let partial = put(dag, first);
    let ends = final_loops(partial.dag, grouped, grouped.len());
    let kept = NodeView {
        op: Op::Stage { space: AddrSpace::Local, removable: true },
        dtype: node.dtype,
        srcs: seq![partial.id] + locals + grouped,
    };
    let stage = put(ends.dag, kept);
    let at = NodeView {
        op: Op::Index,
        dtype: node.dtype,
        srcs: seq![stage.id] + locals + ends.srcs,
    };
    let read = put(stage.dag, at);
    let last = reduce_node(node, read.id, ends.srcs);
    lemma_arity(dag, id);
    lemma_sifted(dag, loops, AxisType::GroupReduce, true, loops.len());
    lemma_interned_keeps(dag, first);
    lemma_interned_keeps(ends.dag, kept);
    lemma_interned_keeps(stage.dag, at);
    lemma_interned_keeps(read.dag, last);
    assert forall|k: int| 0 <= k < grouped.len() implies (#[trigger] grouped[k]) < dag.len() by {
        assert(loops.contains(grouped[k]));
        let j = choose|j: int| 0 <= j < loops.len() && loops[j] == grouped[k];
        assert(node.srcs[j + 1] == grouped[k]);
    }
    assert forall|k: int| 0 <= k < grouped.len() implies final_loop(
        partial.dag[#[trigger] grouped[k] as int],
    ) is Some by {
        assert(partial.dag[grouped[k] as int] == dag[grouped[k] as int]);
    }
    lemma_final_loops(partial.dag, grouped, grouped.len());
    lemma_put(read.dag, last);
    let new = put(read.dag, last);
    assert(new.dag[new.id as int] == last);
    assert forall|k: int| 0 <= k < grouped.len() implies Some(
        new.dag[#[trigger] last.srcs[k + 1] as int],
    ) == final_loop(dag[grouped[k] as int]) && !is_loop_of(
        new.dag,
        last.srcs[k + 1],
        AxisType::GroupReduce,
    ) by {
        assert(last.srcs[k + 1] == ends.srcs[k]);
        assert(partial.dag[grouped[k] as int] == dag[grouped[k] as int]);
        let x = ends.srcs[k] as int;
        assert(stage.dag[x] == ends.dag[x]);
        assert(read.dag[x] == stage.dag[x]);
        assert(new.dag[x] == read.dag[x]);
    }
}

} // verus!
