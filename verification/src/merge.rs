//! Loops that fill registers, closed together where they are the same.

use vstd::prelude::*;

use crate::bufferize::{find_storage, storage};
use crate::builders::{end_node, lemma_interned_keeps, put, Built};
use crate::graph::{dag_wf, lemma_id_of, lemma_interned_wf, AddrSpace, DType, Graph, NodeView, Op};
use crate::meaning::lemma_arity;
use crate::passes::{extends, grown, lemma_put, sources};
use crate::shape::same_list;
use crate::subst::{substitute, substituted};
use crate::topo::{lemma_push_contains, lemma_reaches_below, lemma_topo, topo};

verus! {

/// Whether a node reads a register behind what it waits for.
pub open spec fn is_register_read(dag: Seq<NodeView>, id: usize) -> bool {
    dag[id as int].op is After && (dag[storage(dag, id) as int].op matches Op::Buffer { space, .. }
        && space == AddrSpace::Reg)
}

/// Whether a node waits for another one.
pub open spec fn waits_for(dag: Seq<NodeView>, id: usize, other: usize) -> bool {
    exists|k: int| 1 <= k < dag[id as int].srcs.len() && #[trigger] dag[id as int].srcs[k] == other
}

/// Whether a node closes loops and a register is read behind it.
pub open spec fn is_read_end(dag: Seq<NodeView>, walk: Seq<usize>, id: usize) -> bool {
    dag[id as int].op is End && exists|p: int|
        0 <= p < walk.len() && is_register_read(dag, #[trigger] walk[p]) && waits_for(
            dag,
            walk[p],
            id,
        )
}

/// The nodes of that kind among the first `n` of a walk.
pub open spec fn read_ends(dag: Seq<NodeView>, walk: Seq<usize>, n: nat) -> Seq<usize>
    decreases n,
{
    if n == 0 {
        Seq::empty()
    } else {
        let rest = read_ends(dag, walk, (n - 1) as nat);
        if is_read_end(dag, walk, walk[n - 1]) {
            rest.push(walk[n - 1])
        } else {
            rest
        }
    }
}

/// What is computed in the loops of a node, by any of the first `n` that close
/// the same loops.
pub open spec fn computed_with(dag: Seq<NodeView>, list: Seq<usize>, id: usize, n: nat) -> Seq<usize>
    decreases n,
{
    if n == 0 {
        Seq::empty()
    } else {
        let rest = computed_with(dag, list, id, (n - 1) as nat);
        if dag[list[n - 1] as int].srcs.skip(1) == dag[id as int].srcs.skip(1) {
            rest.push(dag[list[n - 1] as int].srcs[0])
        } else {
            rest
        }
    }
}

/// Loops closed over several computations.
pub open spec fn closed_over(dag: Seq<NodeView>, parts: Seq<usize>, loops: Seq<usize>) -> Built {
    let group = put(dag, NodeView { op: Op::Group, dtype: DType::Void, srcs: parts });
    put(group.dag, end_node(group.id, loops))
}

/// A graph, and what goes in the place of nodes of it.
pub struct Merged {
    pub dag: Seq<NodeView>,
    pub pairs: Seq<(usize, usize)>,
}

/// What goes in the place of the first `n` nodes that close loops: where others
/// close the same loops, one node that closes them over all.
pub open spec fn merged(dag: Seq<NodeView>, list: Seq<usize>, n: nat) -> Merged
    decreases n,
{
    if n == 0 {
        Merged { dag, pairs: Seq::empty() }
    } else {
        let rest = merged(dag, list, (n - 1) as nat);
        let id = list[n - 1];
        let parts = computed_with(dag, list, id, list.len());
        if parts.len() < 2 {
            rest
        } else {
            let one = closed_over(rest.dag, parts, dag[id as int].srcs.skip(1));
            Merged { dag: one.dag, pairs: rest.pairs.push((id, one.id)) }
        }
    }
}

/// Everything at and below a root, with the same loops that fill registers
/// closed together.
pub open spec fn ends_merged(dag: Seq<NodeView>, root: usize) -> Built {
    let walk = topo(dag, root);
    let list = read_ends(dag, walk, walk.len());
    let done = merged(dag, list, list.len());
    if done.pairs.len() == 0 {
        Built { dag, id: root }
    } else {
        substituted(done.dag, root, done.pairs)
    }
}

fn reads_register(graph: &Graph, id: usize) -> (r: bool)
    requires
        graph.wf(),
        id < graph@.len(),
    ensures
        r == is_register_read(graph@, id),
{
    match graph.op(id) {
        Op::After => match graph.op(find_storage(graph, id)) {
            Op::Buffer { space, .. } => space == AddrSpace::Reg,
            _ => false,
        },
        _ => false,
    }
}

fn does_wait(graph: &Graph, id: usize, other: usize) -> (r: bool)
    requires
        graph.wf(),
        id < graph@.len(),
    ensures
        r == waits_for(graph@, id, other),
{
    let list = sources(graph, id);
    let mut k: usize = 1;
    while k < list.len()
        invariant
            list@ == graph@[id as int].srcs,
            k >= 1,
            forall|j: int| 1 <= j < k && j < list@.len() ==> list@[j] != other,
        decreases list@.len() - k,
    {
        if list[k] == other {
            assert(graph@[id as int].srcs[k as int] == other);
            return true;
        }
        k += 1;
    }
    false
}

fn find_read_ends(graph: &Graph, walk: &Vec<usize>) -> (list: Vec<usize>)
    requires
        graph.wf(),
        forall|i: int| 0 <= i < walk@.len() ==> (#[trigger] walk@[i]) < graph@.len(),
    ensures
        list@ == read_ends(graph@, walk@, walk@.len()),
        forall|i: int|
            0 <= i < list@.len() ==> (#[trigger] list@[i]) < graph@.len()
                && graph@[list@[i] as int].op is End,
{
    let mut list: Vec<usize> = Vec::new();
    let mut n: usize = 0;
    while n < walk.len()
        invariant
            graph.wf(),
            forall|i: int| 0 <= i < walk@.len() ==> (#[trigger] walk@[i]) < graph@.len(),
            n <= walk@.len(),
            list@ == read_ends(graph@, walk@, n as nat),
            forall|i: int|
                0 <= i < list@.len() ==> (#[trigger] list@[i]) < graph@.len()
                    && graph@[list@[i] as int].op is End,
        decreases walk@.len() - n,
    {
        let id: usize = walk[n];
        assert(walk@[n as int] < graph@.len());
        if matches!(graph.op(id), Op::End) {
            let mut found = false;
            let mut p: usize = 0;
            while p < walk.len()
                invariant
                    graph.wf(),
                    forall|i: int| 0 <= i < walk@.len() ==> (#[trigger] walk@[i]) < graph@.len(),
                    p <= walk@.len(),
                    found == exists|q: int|
                        0 <= q < p && is_register_read(graph@, #[trigger] walk@[q]) && waits_for(
                            graph@,
                            walk@[q],
                            id,
                        ),
                decreases walk@.len() - p,
            {
                assert(walk@[p as int] < graph@.len());
                if reads_register(graph, walk[p]) && does_wait(graph, walk[p], id) {
                    found = true;
                }
                p += 1;
            }
            if found {
                list.push(id);
            }
        }
        n += 1;
    }
    list
}

fn find_parts(
    graph: &Graph,
    list: &Vec<usize>,
    loops: &Vec<usize>,
    Ghost(dag): Ghost<Seq<NodeView>>,
    Ghost(id): Ghost<usize>,
) -> (parts: Vec<usize>)
    requires
        graph.wf(),
        dag_wf(dag),
        extends(dag, graph@),
        id < dag.len(),
        loops@ == dag[id as int].srcs.skip(1),
        forall|i: int|
            0 <= i < list@.len() ==> (#[trigger] list@[i]) < dag.len() && dag[list@[i] as int].op is End,
    ensures
        parts@ == computed_with(dag, list@, id, list@.len()),
        forall|i: int| 0 <= i < parts@.len() ==> (#[trigger] parts@[i]) < dag.len(),
{
    let mut parts: Vec<usize> = Vec::new();
    let mut n: usize = 0;
    while n < list.len()
        invariant
            graph.wf(),
            dag_wf(dag),
            extends(dag, graph@),
            id < dag.len(),
            loops@ == dag[id as int].srcs.skip(1),
            forall|i: int|
                0 <= i < list@.len() ==> (#[trigger] list@[i]) < dag.len()
                    && dag[list@[i] as int].op is End,
            n <= list@.len(),
            parts@ == computed_with(dag, list@, id, n as nat),
            forall|i: int| 0 <= i < parts@.len() ==> (#[trigger] parts@[i]) < dag.len(),
        decreases list@.len() - n,
    {
        let e: usize = list[n];
        proof {
            assert(list@[n as int] < dag.len());
            lemma_arity(dag, e);
            assert(graph@[e as int] == dag[e as int]);
        }
        let value: usize = graph.source(e, 0);
        let other = closed_by(graph, e);
        if same_list(&other, loops) {
            parts.push(value);
        }
        n += 1;
    }
    parts
}

fn closed_by(graph: &Graph, id: usize) -> (loops: Vec<usize>)
    requires
        graph.wf(),
        id < graph@.len(),
        graph@[id as int].op is End,
    ensures
        loops@ == graph@[id as int].srcs.skip(1),
        forall|i: int| 0 <= i < loops@.len() ==> (#[trigger] loops@[i]) < id,
{
    proof {
        lemma_arity(graph@, id);
    }
    let mut loops = sources(graph, id);
    let ghost all = loops@;
    loops.remove(0);
    assert(loops@ =~= all.skip(1));
    assert forall|i: int| 0 <= i < loops@.len() implies (#[trigger] loops@[i]) < id by {
        assert(all[i + 1] < id);
    }
    loops
}

/// Closes the same loops that fill registers together; see `ends_merged`.
pub fn merge_register_read_ends(graph: &mut Graph, root: usize) -> (new: usize)
    requires
        old(graph).wf(),
        root < old(graph)@.len(),
    ensures
        grown(old(graph)@, *final(graph), ends_merged(old(graph)@, root), new),
{
    let ghost dag = graph@;
    let walk = graph.toposort(root);
    proof {
        lemma_topo(dag, root);
        assert forall|i: int| 0 <= i < walk@.len() implies (#[trigger] walk@[i]) < dag.len() by {
            assert(walk@.contains(walk@[i]));
            lemma_reaches_below(dag, root, walk@[i]);
        }
    }
    let list = find_read_ends(graph, &walk);
    let mut pairs: Vec<(usize, usize)> = Vec::new();
    let mut n: usize = 0;
    while n < list.len()
        invariant
            graph.wf(),
            dag_wf(dag),
            extends(dag, graph@),
            root < dag.len(),
            forall|i: int|
                0 <= i < list@.len() ==> (#[trigger] list@[i]) < dag.len()
                    && dag[list@[i] as int].op is End,
            n <= list@.len(),
            merged(dag, list@, n as nat) == (Merged { dag: graph@, pairs: pairs@ }),
            pairs@.len() == 0 ==> graph@ == dag,
            forall|i: int| 0 <= i < pairs@.len() ==> (#[trigger] pairs@[i]).1 < graph@.len(),
        decreases list@.len() - n,
    {
        let id: usize = list[n];
        proof {
            assert(list@[n as int] < dag.len());
            lemma_arity(dag, id);
            assert(graph@[id as int] == dag[id as int]);
        }
        let loops = closed_by(graph, id);
        let parts = find_parts(graph, &list, &loops, Ghost(dag), Ghost(id));
        if parts.len() >= 2 {
            let ghost before = graph@;
            proof {
                assert forall|i: int| 0 <= i < parts@.len() implies (#[trigger] parts@[i])
                    < graph@.len() by {
                    assert(parts@[i] < dag.len());
                }
            }
            let group: usize = graph.node(Op::Group, DType::Void, parts.as_slice());
            let ghost mid = graph@;
            let end: usize = graph.end(group, loops.as_slice());
            proof {
                assert forall|i: int| 0 <= i < dag.len() implies #[trigger] graph@[i] == dag[i] by {
                    assert(before[i] == dag[i]);
                    assert(mid[i] == before[i]);
                }
            }
            pairs.push((id, end));
        }
        n += 1;
    }
    if pairs.len() == 0 {
        return root;
    }
    let ghost mid = graph@;
    let new: usize = substitute(graph, root, &pairs);
    assert forall|i: int| 0 <= i < dag.len() implies #[trigger] graph@[i] == dag[i] by {
        assert(mid[i] == dag[i]);
    }
    new
}

proof fn lemma_computed_with(dag: Seq<NodeView>, list: Seq<usize>, a: usize, b: usize, n: nat)
    requires
        dag[a as int].srcs.skip(1) == dag[b as int].srcs.skip(1),
    ensures
        computed_with(dag, list, a, n) == computed_with(dag, list, b, n),
    decreases n,
{
    if n > 0 {
        lemma_computed_with(dag, list, a, b, (n - 1) as nat);
    }
}

proof fn lemma_computed_below(dag: Seq<NodeView>, list: Seq<usize>, id: usize, n: nat)
    requires
        dag_wf(dag),
        n <= list.len(),
        forall|i: int|
            0 <= i < list.len() ==> (#[trigger] list[i]) < dag.len() && dag[list[i] as int].op is End,
    ensures
        forall|i: int|
            0 <= i < computed_with(dag, list, id, n).len() ==> (#[trigger] computed_with(
                dag,
                list,
                id,
                n,
            )[i]) < dag.len(),
    decreases n,
{
    if n > 0 {
        lemma_computed_below(dag, list, id, (n - 1) as nat);
        let e = list[n - 1];
        assert(e < dag.len());
        lemma_arity(dag, e);
        assert(dag[e as int].srcs[0] < e);
        let rest = computed_with(dag, list, id, (n - 1) as nat);
        let parts = computed_with(dag, list, id, n);
        assert forall|i: int| 0 <= i < parts.len() implies (#[trigger] parts[i]) < dag.len() by {
            if i < rest.len() {
                assert(parts[i] == rest[i]);
            }
        }
    }
}

proof fn lemma_merged_grows(dag: Seq<NodeView>, list: Seq<usize>, n: nat)
    ensures
        extends(dag, merged(dag, list, n).dag),
    decreases n,
{
    if n > 0 {
        let rest = merged(dag, list, (n - 1) as nat);
        let id = list[n - 1];
        let parts = computed_with(dag, list, id, list.len());
        lemma_merged_grows(dag, list, (n - 1) as nat);
        let group = NodeView { op: Op::Group, dtype: DType::Void, srcs: parts };
        let grouped = put(rest.dag, group);
        lemma_interned_keeps(rest.dag, group);
        lemma_interned_keeps(grouped.dag, end_node(grouped.id, dag[id as int].srcs.skip(1)));
    }
}

/// Whether a node closes the loops of another over what is computed in them.
spec fn closes_all(
    dag: Seq<NodeView>,
    more: Seq<NodeView>,
    list: Seq<usize>,
    pair: (usize, usize),
) -> bool {
    exists|group: usize|
        {
            &&& pair.1 < more.len()
            &&& group < more.len()
            &&& (#[trigger] more[group as int]) == (NodeView {
                op: Op::Group,
                dtype: DType::Void,
                srcs: computed_with(dag, list, pair.0, list.len()),
            })
            &&& more[pair.1 as int] == end_node(group, dag[pair.0 as int].srcs.skip(1))
        }
}

proof fn lemma_merged(dag: Seq<NodeView>, list: Seq<usize>, n: nat)
    requires
        dag_wf(dag),
        n <= list.len(),
        forall|i: int|
            0 <= i < list.len() ==> (#[trigger] list[i]) < dag.len() && dag[list[i] as int].op is End,
        merged(dag, list, n).dag.len() <= usize::MAX,
    ensures
        dag_wf(merged(dag, list, n).dag),
        forall|p: int|
            0 <= p < merged(dag, list, n).pairs.len() ==> closes_all(
                dag,
                merged(dag, list, n).dag,
                list,
                #[trigger] merged(dag, list, n).pairs[p],
            ),
    decreases n,
{
    if n > 0 {
        let rest = merged(dag, list, (n - 1) as nat);
        let done = merged(dag, list, n);
        let id = list[n - 1];
        let parts = computed_with(dag, list, id, list.len());
        let loops = dag[id as int].srcs.skip(1);
        let group = NodeView { op: Op::Group, dtype: DType::Void, srcs: parts };
        let grouped = put(rest.dag, group);
        let end = end_node(grouped.id, loops);
        lemma_merged_grows(dag, list, (n - 1) as nat);
        lemma_interned_keeps(rest.dag, group);
        lemma_interned_keeps(grouped.dag, end);
        lemma_merged(dag, list, (n - 1) as nat);
        if parts.len() >= 2 {
            lemma_computed_below(dag, list, id, list.len());
            assert forall|k: int| 0 <= k < parts.len() implies (#[trigger] group.srcs[k])
                < rest.dag.len() by {
                assert(parts[k] < dag.len());
            }
            lemma_interned_wf(rest.dag, group);
            lemma_put(rest.dag, group);
            assert(list[n - 1] < dag.len());
            lemma_arity(dag, id);
            assert forall|k: int| 0 <= k < end.srcs.len() implies (#[trigger] end.srcs[k])
                < grouped.dag.len() by {
                if k > 0 {
                    assert(dag[id as int].srcs[k] < id);
                    assert(end.srcs[k] == loops[k - 1]);
                }
            }
            lemma_interned_wf(grouped.dag, end);
            lemma_put(grouped.dag, end);
            assert forall|p: int| 0 <= p < done.pairs.len() implies closes_all(
                dag,
                done.dag,
                list,
                #[trigger] done.pairs[p],
            ) by {
                if p < rest.pairs.len() {
                    assert(done.pairs[p] == rest.pairs[p]);
                    assert(closes_all(dag, rest.dag, list, rest.pairs[p]));
                    let g = choose|g: usize|
                        {
                            &&& rest.pairs[p].1 < rest.dag.len()
                            &&& g < rest.dag.len()
                            &&& (#[trigger] rest.dag[g as int]) == (NodeView {
                                op: Op::Group,
                                dtype: DType::Void,
                                srcs: computed_with(dag, list, rest.pairs[p].0, list.len()),
                            })
                            &&& rest.dag[rest.pairs[p].1 as int] == end_node(
                                g,
                                dag[rest.pairs[p].0 as int].srcs.skip(1),
                            )
                        };
                    assert(grouped.dag[g as int] == rest.dag[g as int]);
                    assert(done.dag[g as int] == grouped.dag[g as int]);
                    let e = rest.pairs[p].1 as int;
                    assert(grouped.dag[e] == rest.dag[e]);
                    assert(done.dag[e] == grouped.dag[e]);
                } else {
                    assert(done.dag[grouped.id as int] == grouped.dag[grouped.id as int]);
                }
            }
        }
    }
}

/// Nodes that close the same loops make way for one node.
pub proof fn lemma_same_loops_close_once(dag: Seq<NodeView>, list: Seq<usize>, p: int, q: int)
    requires
        dag_wf(dag),
        forall|i: int|
            0 <= i < list.len() ==> (#[trigger] list[i]) < dag.len() && dag[list[i] as int].op is End,
        merged(dag, list, list.len()).dag.len() <= usize::MAX,
        0 <= p < merged(dag, list, list.len()).pairs.len(),
        0 <= q < merged(dag, list, list.len()).pairs.len(),
        ({
            let pairs = merged(dag, list, list.len()).pairs;
            dag[pairs[p].0 as int].srcs.skip(1) == dag[pairs[q].0 as int].srcs.skip(1)
        }),
    ensures
        merged(dag, list, list.len()).pairs[p].1 == merged(dag, list, list.len()).pairs[q].1,
{
    let done = merged(dag, list, list.len());
    lemma_merged(dag, list, list.len());
    let a = done.pairs[p];
    let b = done.pairs[q];
    lemma_computed_with(dag, list, a.0, b.0, list.len());
    assert(closes_all(dag, done.dag, list, a));
    assert(closes_all(dag, done.dag, list, b));
    let g = choose|g: usize|
        {
            &&& a.1 < done.dag.len()
            &&& g < done.dag.len()
            &&& (#[trigger] done.dag[g as int]) == (NodeView {
                op: Op::Group,
                dtype: DType::Void,
                srcs: computed_with(dag, list, a.0, list.len()),
            })
            &&& done.dag[a.1 as int] == end_node(g, dag[a.0 as int].srcs.skip(1))
        };
    let h = choose|h: usize|
        {
            &&& b.1 < done.dag.len()
            &&& h < done.dag.len()
            &&& (#[trigger] done.dag[h as int]) == (NodeView {
                op: Op::Group,
                dtype: DType::Void,
                srcs: computed_with(dag, list, b.0, list.len()),
            })
            &&& done.dag[b.1 as int] == end_node(h, dag[b.0 as int].srcs.skip(1))
        };
    lemma_id_of(done.dag, g);
    lemma_id_of(done.dag, h);
    assert(g == h);
    lemma_id_of(done.dag, a.1);
    lemma_id_of(done.dag, b.1);
}

proof fn lemma_computed_holds(dag: Seq<NodeView>, list: Seq<usize>, id: usize, n: nat, x: usize)
    requires
        n <= list.len(),
    ensures
        computed_with(dag, list, id, n).contains(x) <==> exists|i: int|
            0 <= i < n && dag[(#[trigger] list[i]) as int].srcs.skip(1) == dag[id as int].srcs.skip(1)
                && dag[list[i] as int].srcs[0] == x,
    decreases n,
{
    if n > 0 {
        lemma_computed_holds(dag, list, id, (n - 1) as nat, x);
        let rest = computed_with(dag, list, id, (n - 1) as nat);
        let last = dag[list[n - 1] as int];
        lemma_push_contains(rest, last.srcs[0], x);
        if computed_with(dag, list, id, n).contains(x) && !rest.contains(x) {
            assert(last.srcs.skip(1) == dag[id as int].srcs.skip(1) && last.srcs[0] == x);
        }
    }
}

/// What goes in the place of a node that closes loops closes the same loops, over
/// a group of exactly what all nodes compute that close those loops.
pub proof fn lemma_merged_end_closes_over_all(dag: Seq<NodeView>, list: Seq<usize>, p: int, x: usize)
    requires
        dag_wf(dag),
        forall|i: int|
            0 <= i < list.len() ==> (#[trigger] list[i]) < dag.len() && dag[list[i] as int].op is End,
        merged(dag, list, list.len()).dag.len() <= usize::MAX,
        0 <= p < merged(dag, list, list.len()).pairs.len(),
    ensures
        ({
            let done = merged(dag, list, list.len());
            let (before, after) = done.pairs[p];
            let own = done.dag[after as int];
            let group = done.dag[own.srcs[0] as int];
            &&& own.op is End
            &&& own.srcs.skip(1) == dag[before as int].srcs.skip(1)
            &&& group.op is Group
            &&& group.srcs.contains(x) <==> exists|i: int|
                0 <= i < list.len() && dag[(#[trigger] list[i]) as int].srcs.skip(1)
                    == dag[before as int].srcs.skip(1) && dag[list[i] as int].srcs[0] == x
        }),
{
    let done = merged(dag, list, list.len());
    lemma_merged(dag, list, list.len());
    let pair = done.pairs[p];
    assert(closes_all(dag, done.dag, list, pair));
    let group = choose|group: usize|
        {
            &&& pair.1 < done.dag.len()
            &&& group < done.dag.len()
            &&& (#[trigger] done.dag[group as int]) == (NodeView {
                op: Op::Group,
                dtype: DType::Void,
                srcs: computed_with(dag, list, pair.0, list.len()),
            })
            &&& done.dag[pair.1 as int] == end_node(group, dag[pair.0 as int].srcs.skip(1))
        };
    let want = end_node(group, dag[pair.0 as int].srcs.skip(1));
    assert(want.srcs.skip(1) =~= dag[pair.0 as int].srcs.skip(1));
    assert(want.srcs[0] == group);
    lemma_computed_holds(dag, list, pair.0, list.len(), x);
}

} // verus!
