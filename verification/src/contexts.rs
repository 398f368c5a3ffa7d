//! Reductions in different places given loops of their own.

use vstd::prelude::*;

use crate::builders::{lemma_interned_keeps, put, Built};
use crate::graph::{dag_wf, AxisId, AxisType, Graph, NodeView, Op};
use crate::limits::{find_open_loops, open_loops, paired, put_renewed, renewed};
use crate::meaning::lemma_arity;
use crate::passes::{extends, grown, lemma_put, sources};
use crate::reduce::tail;
use crate::shape::{copy_of, same_list};
use crate::subst::{lemma_substituted_grows, substitute, substituted};
use crate::topo::{lemma_reaches_below, lemma_topo, topo};

verus! {

/// Whether a node reduces a value over loops.
pub open spec fn reduces_loops(dag: Seq<NodeView>, id: usize) -> bool {
    let node = dag[id as int];
    node.op is Reduce && node.srcs.len() > 1 && forall|k: int|
        1 <= k < node.srcs.len() ==> dag[#[trigger] node.srcs[k] as int].op is Range
}

/// The nodes of that kind among the first `n` of a walk.
pub open spec fn reductions_in(dag: Seq<NodeView>, walk: Seq<usize>, n: nat) -> Seq<usize>
    decreases n,
{
    if n == 0 {
        Seq::empty()
    } else {
        let rest = reductions_in(dag, walk, (n - 1) as nat);
        if reduces_loops(dag, walk[n - 1]) {
            rest.push(walk[n - 1])
        } else {
            rest
        }
    }
}

/// The loops that a node reduces over.
pub open spec fn own_loops(dag: Seq<NodeView>, id: usize) -> Seq<usize> {
    dag[id as int].srcs.skip(1)
}

/// The loops around a node.
pub open spec fn context(dag: Seq<NodeView>, id: usize) -> Seq<usize> {
    open_loops(dag, id, dag.len())
}

/// Whether two nodes reduce over the same loops, in the same place.
pub open spec fn same_place(dag: Seq<NodeView>, a: usize, b: usize) -> bool {
    own_loops(dag, a) == own_loops(dag, b) && context(dag, a) == context(dag, b)
}

/// The first of the first `n` nodes of a list that reduces over the same loops
/// in the same place as a node.
pub open spec fn leader(dag: Seq<NodeView>, list: Seq<usize>, id: usize, n: nat) -> Option<int>
    decreases n,
{
    if n == 0 {
        None
    } else {
        match leader(dag, list, id, (n - 1) as nat) {
            Some(k) => Some(k),
            None => if same_place(dag, list[n - 1], id) {
                Some(n - 1)
            } else {
                None
            },
        }
    }
}

/// Whether one of the first `n` nodes of a list reduces over the same loops.
pub open spec fn are_taken(dag: Seq<NodeView>, list: Seq<usize>, id: usize, n: nat) -> bool {
    exists|k: int| 0 <= k < n && own_loops(dag, #[trigger] list[k]) == own_loops(dag, id)
}

/// A graph in which reductions have loops of their own, what goes in their
/// place, the loops that each has, and the next free number of a loop.
pub struct Separated {
    pub dag: Seq<NodeView>,
    pub pairs: Seq<(usize, usize)>,
    pub loops: Seq<Seq<usize>>,
    pub next: usize,
}

/// The first `n` reductions of a list with loops of their own: the first place
/// that loops are reduced in keeps them, and every other one has them anew.
/// Where numbers for loops run out, the loops stay.
pub open spec fn separated(dag: Seq<NodeView>, list: Seq<usize>, next: usize, n: nat) -> Separated
    decreases n,
{
    if n == 0 {
        Separated { dag, pairs: Seq::empty(), loops: Seq::empty(), next }
    } else {
        let before = separated(dag, list, next, (n - 1) as nat);
        let id = list[n - 1];
        let own = own_loops(dag, id);
        let (now, given, after) = match leader(dag, list, id, (n - 1) as nat) {
            Some(k) => (before.dag, before.loops[k], before.next),
            None => if are_taken(dag, list, id, (n - 1) as nat) && before.next + own.len()
                <= usize::MAX {
                let fresh = renewed(before.dag, before.next, own, own.len());
                (fresh.dag, fresh.loops, fresh.next)
            } else {
                (before.dag, own, before.next)
            },
        };
        if given == own {
            Separated { dag: now, pairs: before.pairs, loops: before.loops.push(given), next: after }
        } else {
            let node = dag[id as int];
            let value = substituted(now, node.srcs[0], before.pairs + paired(own, given));
            let new = put(
                value.dag,
                NodeView { op: node.op, dtype: node.dtype, srcs: seq![value.id] + given },
            );
            Separated {
                dag: new.dag,
                pairs: before.pairs.push((id, new.id)),
                loops: before.loops.push(given),
                next: after,
            }
        }
    }
}

/// The number of a loop.
pub open spec fn axis_number(axis: AxisId) -> usize {
    axis.root()
}

/// A number above those of all loops among the first `n` nodes, as far as there
/// is one.
pub open spec fn free_number(dag: Seq<NodeView>, n: nat) -> usize
    decreases n,
{
    if n == 0 {
        0
    } else {
        let rest = free_number(dag, (n - 1) as nat);
        match dag[n - 1].op {
            Op::Range { axis, .. } if axis_number(axis) >= rest => if axis_number(axis)
                == usize::MAX {
                usize::MAX
            } else {
                (axis_number(axis) + 1) as usize
            },
            _ => rest,
        }
    }
}

/// Everything at and below a root, with reductions in different places over
/// loops of their own.
pub open spec fn places_separated(dag: Seq<NodeView>, root: usize) -> Built {
    let walk = topo(dag, root);
    let list = reductions_in(dag, walk, walk.len());
    let done = separated(dag, list, free_number(dag, dag.len()), list.len());
    if done.pairs.len() == 0 {
        Built { dag: done.dag, id: root }
    } else {
        substituted(done.dag, root, done.pairs)
    }
}

fn reduces(graph: &Graph, id: usize) -> (r: bool)
    requires
        graph.wf(),
        id < graph@.len(),
    ensures
        r == reduces_loops(graph@, id),
{
    match graph.op(id) {
        Op::Reduce(_) => {},
        _ => {
            return false;
        },
    }
    let count: usize = graph.source_count(id);
    if count <= 1 {
        return false;
    }
    let mut k: usize = 1;
    while k < count
        invariant
            graph.wf(),
            id < graph@.len(),
            count == graph@[id as int].srcs.len(),
            1 <= k <= count,
            forall|j: int|
                1 <= j < k ==> graph@[#[trigger] graph@[id as int].srcs[j] as int].op is Range,
        decreases count - k,
    {
        let src: usize = graph.source(id, k);
        if !matches!(graph.op(src), Op::Range { .. }) {
            assert(!(graph@[graph@[id as int].srcs[k as int] as int].op is Range));
            return false;
        }
        k += 1;
    }
    true
}

fn find_reductions(graph: &Graph, walk: &Vec<usize>) -> (list: Vec<usize>)
    requires
        graph.wf(),
        forall|i: int| 0 <= i < walk@.len() ==> (#[trigger] walk@[i]) < graph@.len(),
    ensures
        list@ == reductions_in(graph@, walk@, walk@.len()),
        forall|i: int|
            0 <= i < list@.len() ==> (#[trigger] list@[i]) < graph@.len() && reduces_loops(
                graph@,
                list@[i],
            ),
{
    let mut list: Vec<usize> = Vec::new();
    let mut n: usize = 0;
    while n < walk.len()
        invariant
            graph.wf(),
            forall|i: int| 0 <= i < walk@.len() ==> (#[trigger] walk@[i]) < graph@.len(),
            n <= walk@.len(),
            list@ == reductions_in(graph@, walk@, n as nat),
            forall|i: int|
                0 <= i < list@.len() ==> (#[trigger] list@[i]) < graph@.len() && reduces_loops(
                    graph@,
                    list@[i],
                ),
        decreases walk@.len() - n,
    {
        let id: usize = walk[n];
        assert(walk@[n as int] < graph@.len());
        if reduces(graph, id) {
            list.push(id);
        }
        n += 1;
    }
    list
}

fn find_free_number(graph: &Graph) -> (number: usize)
    requires
        graph.wf(),
    ensures
        number == free_number(graph@, graph@.len()),
{
    let mut number: usize = 0;
    let mut n: usize = 0;
    let len: usize = graph.len();
    while n < len
        invariant
            graph.wf(),
            len == graph@.len(),
            n <= len,
            number == free_number(graph@, n as nat),
        decreases len - n,
    {
        match graph.op(n) {
            Op::Range { axis, .. } => {
                let own: usize = axis.number();
                if own >= number {
                    number = if own == usize::MAX {
                        own
                    } else {
                        own + 1
                    };
                }
            },
            _ => {},
        }
        n += 1;
    }
    number
}

/// What is read of the reductions before any of them is changed.
spec fn tables_ok(
    dag: Seq<NodeView>,
    list: Seq<usize>,
    owns: Seq<Vec<usize>>,
    contexts: Seq<Vec<usize>>,
) -> bool {
    &&& owns.len() == list.len()
    &&& contexts.len() == list.len()
    &&& forall|i: int| 0 <= i < list.len() ==> (#[trigger] owns[i])@ == own_loops(dag, list[i])
    &&& forall|i: int| 0 <= i < list.len() ==> (#[trigger] contexts[i])@ == context(dag, list[i])
}

fn find_leader(
    list: &Vec<usize>,
    owns: &Vec<Vec<usize>>,
    contexts: &Vec<Vec<usize>>,
    n: usize,
    Ghost(dag): Ghost<Seq<NodeView>>,
) -> (found: (Option<usize>, bool))
    requires
        tables_ok(dag, list@, owns@, contexts@),
        n < list@.len(),
    ensures
        match found.0 {
            Some(k) => leader(dag, list@, list@[n as int], n as nat) == Some(k as int) && k < n,
            None => leader(dag, list@, list@[n as int], n as nat) is None,
        },
        found.1 == are_taken(dag, list@, list@[n as int], n as nat),
{
    let mut first: Option<usize> = None;
    let mut taken: bool = false;
    let mut k: usize = 0;
    while k < n
        invariant
            tables_ok(dag, list@, owns@, contexts@),
            k <= n < list@.len(),
            match first {
                Some(j) => leader(dag, list@, list@[n as int], k as nat) == Some(j as int) && j < k,
                None => leader(dag, list@, list@[n as int], k as nat) is None,
            },
            taken == are_taken(dag, list@, list@[n as int], k as nat),
        decreases n - k,
    {
        assert(owns@[k as int]@ == own_loops(dag, list@[k as int]));
        assert(owns@[n as int]@ == own_loops(dag, list@[n as int]));
        assert(contexts@[k as int]@ == context(dag, list@[k as int]));
        assert(contexts@[n as int]@ == context(dag, list@[n as int]));
        let same: bool = same_list(&owns[k], &owns[n]);
        proof {
            if are_taken(dag, list@, list@[n as int], k as nat) {
                let j = choose|j: int|
                    0 <= j < k && own_loops(dag, #[trigger] list@[j]) == own_loops(
                        dag,
                        list@[n as int],
                    );
                assert(own_loops(dag, list@[j]) == own_loops(dag, list@[n as int]));
            }
        }
        if same {
            assert(own_loops(dag, list@[k as int]) == own_loops(dag, list@[n as int]));
            taken = true;
        }
        if first.is_none() && same && same_list(&contexts[k], &contexts[n]) {
            first = Some(k);
        }
        k += 1;
    }
    (first, taken)
}

fn find_owns(graph: &Graph, list: &Vec<usize>) -> (owns: Vec<Vec<usize>>)
    requires
        graph.wf(),
        forall|i: int|
            0 <= i < list@.len() ==> (#[trigger] list@[i]) < graph@.len() && reduces_loops(
                graph@,
                list@[i],
            ),
    ensures
        owns@.len() == list@.len(),
        forall|i: int|
            0 <= i < list@.len() ==> (#[trigger] owns@[i])@ == own_loops(graph@, list@[i]),
{
    let mut owns: Vec<Vec<usize>> = Vec::new();
    let mut n: usize = 0;
    while n < list.len()
        invariant
            graph.wf(),
            forall|i: int|
                0 <= i < list@.len() ==> (#[trigger] list@[i]) < graph@.len() && reduces_loops(
                    graph@,
                    list@[i],
                ),
            n <= list@.len(),
            owns@.len() == n,
            forall|i: int| 0 <= i < n ==> (#[trigger] owns@[i])@ == own_loops(graph@, list@[i]),
        decreases list@.len() - n,
    {
        assert(reduces_loops(graph@, list@[n as int]));
        let all = sources(graph, list[n]);
        owns.push(tail(&all));
        n += 1;
    }
    owns
}

fn find_contexts(graph: &Graph, list: &Vec<usize>) -> (contexts: Vec<Vec<usize>>)
    requires
        graph.wf(),
        forall|i: int| 0 <= i < list@.len() ==> (#[trigger] list@[i]) < graph@.len(),
    ensures
        contexts@.len() == list@.len(),
        forall|i: int|
            0 <= i < list@.len() ==> (#[trigger] contexts@[i])@ == context(graph@, list@[i]),
{
    let mut contexts: Vec<Vec<usize>> = Vec::new();
    let mut n: usize = 0;
    while n < list.len()
        invariant
            graph.wf(),
            forall|i: int| 0 <= i < list@.len() ==> (#[trigger] list@[i]) < graph@.len(),
            n <= list@.len(),
            contexts@.len() == n,
            forall|i: int| 0 <= i < n ==> (#[trigger] contexts@[i])@ == context(graph@, list@[i]),
        decreases list@.len() - n,
    {
        assert(list@[n as int] < graph@.len());
        contexts.push(find_open_loops(graph, list[n]));
        n += 1;
    }
    contexts
}

fn join_pairs(pairs: &Vec<(usize, usize)>, own: &Vec<usize>, given: &Vec<usize>) -> (all: Vec<
    (usize, usize),
>)
    requires
        own@.len() == given@.len(),
    ensures
        all@ == pairs@ + paired(own@, given@),
{
    let mut all: Vec<(usize, usize)> = Vec::new();
    let mut k: usize = 0;
    while k < pairs.len()
        invariant
            k <= pairs@.len(),
            all@ == pairs@.take(k as int),
        decreases pairs@.len() - k,
    {
        all.push(pairs[k]);
        k += 1;
        assert(all@ =~= pairs@.take(k as int));
    }
    assert(all@ =~= pairs@);
    let mut n: usize = 0;
    while n < own.len()
        invariant
            own@.len() == given@.len(),
            n <= own@.len(),
            all@ == pairs@ + paired(own@, given@).take(n as int),
        decreases own@.len() - n,
    {
        all.push((own[n], given[n]));
        n += 1;
        assert(all@ =~= pairs@ + paired(own@, given@).take(n as int));
    }
    assert(paired(own@, given@).take(own@.len() as int) =~= paired(own@, given@));
    all
}

/// The loops that a reduction is given, made anew where they are needed so.
fn give_loops(
    graph: &mut Graph,
    rows: &Vec<Vec<usize>>,
    own: &Vec<usize>,
    found: (Option<usize>, bool),
    next: usize,
) -> (given: (Vec<usize>, usize))
    requires
        old(graph).wf(),
        found.0 matches Some(k) ==> k < rows@.len() && rows@[k as int]@.len() == own@.len()
            && forall|i: int|
            0 <= i < own@.len() ==> (#[trigger] rows@[k as int]@[i]) < old(graph)@.len(),
        forall|i: int|
            0 <= i < own@.len() ==> (#[trigger] own@[i]) < old(graph)@.len() && old(
                graph,
            )@[own@[i] as int].op is Range,
    ensures
        final(graph).wf(),
        extends(old(graph)@, final(graph)@),
        given.0@.len() == own@.len(),
        forall|i: int|
            0 <= i < given.0@.len() ==> (#[trigger] given.0@[i]) < final(graph)@.len(),
        match found.0 {
            Some(k) => final(graph)@ == old(graph)@ && given.0@ == rows@[k as int]@ && given.1
                == next,
            None => if found.1 && next + own@.len() <= usize::MAX {
                let fresh = renewed(old(graph)@, next, own@, own@.len());
                final(graph)@ == fresh.dag && given.0@ == fresh.loops && given.1 == fresh.next
            } else {
                final(graph)@ == old(graph)@ && given.0@ == own@ && given.1 == next
            },
        },
{
    match found.0 {
        Some(k) => (copy_of(&rows[k]), next),
        None => {
            if found.1 && next <= usize::MAX - own.len() {
                put_renewed(graph, next, own)
            } else {
                (copy_of(own), next)
            }
        },
    }
}

/// Gives reductions in different places loops of their own; see
/// `places_separated`.
pub fn separate_places(graph: &mut Graph, root: usize) -> (new: usize)
    requires
        old(graph).wf(),
        root < old(graph)@.len(),
    ensures
        grown(old(graph)@, *final(graph), places_separated(old(graph)@, root), new),
{
    let ghost dag = graph@;
    let walk = graph.toposort(root);
    proof {
        lemma_topo(dag, root);
        assert forall|i: int| 0 <= i < walk@.len() implies (#[trigger] walk@[i]) < dag.len() by {
            assert(walk@.contains(walk@[i]));
            lemma_reaches_below(dag, root, walk@[i]);
        }
    }
    let list = find_reductions(graph, &walk);
    let owns = find_owns(graph, &list);
    let contexts = find_contexts(graph, &list);
    let start: usize = find_free_number(graph);
    let mut next: usize = start;
    let mut rows: Vec<Vec<usize>> = Vec::new();
    let mut pairs: Vec<(usize, usize)> = Vec::new();
    let mut n: usize = 0;
    while n < list.len()
        invariant
            graph.wf(),
            dag_wf(dag),
            extends(dag, graph@),
            root < dag.len(),
            tables_ok(dag, list@, owns@, contexts@),
            forall|i: int|
                0 <= i < list@.len() ==> (#[trigger] list@[i]) < dag.len() && reduces_loops(
                    dag,
                    list@[i],
                ),
            n <= list@.len(),
            graph@ == separated(dag, list@, start, n as nat).dag,
            pairs@ == separated(dag, list@, start, n as nat).pairs,
            next == separated(dag, list@, start, n as nat).next,
            rows@.len() == n,
            separated(dag, list@, start, n as nat).loops.len() == n,
            forall|i: int|
                0 <= i < n ==> (#[trigger] rows@[i])@ == separated(
                    dag,
                    list@,
                    start,
                    n as nat,
                ).loops[i] && rows@[i]@.len() == own_loops(dag, list@[i]).len(),
            forall|i: int, k: int|
                0 <= i < n && 0 <= k < rows@[i]@.len() ==> (#[trigger] rows@[i]@[k]) < graph@.len(),
            forall|i: int| 0 <= i < pairs@.len() ==> (#[trigger] pairs@[i]).1 < graph@.len(),
        decreases list@.len() - n,
    {
        let id: usize = list[n];
        let ghost before = separated(dag, list@, start, n as nat);
        proof {
            assert(list@[n as int] < dag.len());
            assert(reduces_loops(dag, list@[n as int]));
            lemma_arity(dag, id);
            assert(graph@[id as int] == dag[id as int]);
            assert(owns@[n as int]@ == own_loops(dag, id));
            assert forall|i: int| 0 <= i < owns@[n as int]@.len() implies (#[trigger] owns@[
                n as int
            ]@[i]) < graph@.len() && graph@[owns@[n as int]@[i] as int].op is Range by {
                assert(owns@[n as int]@[i] == dag[id as int].srcs[i + 1]);
                assert(dag[id as int].srcs[i + 1] < id);
                assert(graph@[dag[id as int].srcs[i + 1] as int]
                    == dag[dag[id as int].srcs[i + 1] as int]);
            }
        }
        let found = find_leader(&list, &owns, &contexts, n, Ghost(dag));
        proof {
            match found.0 {
                Some(k) => {
                    lemma_leader(dag, list@, id, n as nat);
                    assert(rows@[k as int]@.len() == own_loops(dag, list@[k as int]).len());
                },
                None => {},
            }
        }
        let given = give_loops(graph, &rows, &owns[n], found, next);
        next = given.1;
        let ghost now = graph@;
        proof {
            assert(extends(dag, now));
        }
        if !same_list(&given.0, &owns[n]) {
            let op = graph.op(id);
            let dtype = graph.dtype(id);
            let value: usize = graph.source(id, 0);
            let all = join_pairs(&pairs, &owns[n], &given.0);
            proof {
                assert forall|i: int| 0 <= i < all@.len() implies (#[trigger] all@[i]).1
                    < graph@.len() by {
                    if i < pairs@.len() {
                        assert(all@[i] == pairs@[i]);
                    } else {
                        assert(all@[i] == paired(owns@[n as int]@, given.0@)[i - pairs@.len()]);
                    }
                }
                assert(dag[id as int].srcs[0] < id);
            }
            let moved: usize = substitute(graph, value, &all);
            let ghost held = graph@;
            proof {
                lemma_interned_keeps(
                    held,
                    NodeView { op, dtype, srcs: seq![moved] + given.0@ },
                );
            }
            let new: usize = graph.led(op, dtype, moved, given.0.as_slice());
            pairs.push((id, new));
        }
        rows.push(given.0);
        n += 1;
    }
    if pairs.len() == 0 {
        root
    } else {
        substitute(graph, root, &pairs)
    }
}

proof fn lemma_leader(dag: Seq<NodeView>, list: Seq<usize>, id: usize, n: nat)
    ensures
        leader(dag, list, id, n) matches Some(k) ==> 0 <= k < n && same_place(
            dag,
            list[k],
            id,
        ),
    decreases n,
{
    if n > 0 {
        lemma_leader(dag, list, id, (n - 1) as nat);
    }
}

/// The number of the loop that a node is.
pub open spec fn number_at(dag: Seq<NodeView>, id: usize) -> int {
    match dag[id as int].op {
        Op::Range { axis, .. } => axis_number(axis) as int,
        _ => -1,
    }
}

proof fn lemma_free_number(dag: Seq<NodeView>, i: int, n: nat)
    requires
        0 <= i < n <= dag.len(),
        dag[i].op is Range,
        free_number(dag, n) < usize::MAX,
    ensures
        number_at(dag, i as usize) < free_number(dag, n) || i > usize::MAX,
        free_number(dag, (n - 1) as nat) <= free_number(dag, n),
    decreases n,
{
    if i < n - 1 {
        lemma_free_number(dag, i, (n - 1) as nat);
    }
}

/// Whether a list of loops can be made anew.
pub open spec fn are_renewable(dag: Seq<NodeView>, loops: Seq<usize>) -> bool {
    forall|k: int|
        0 <= k < loops.len() ==> (#[trigger] loops[k]) < dag.len() && (dag[loops[k] as int].op
            matches Op::Range { kind, .. } && kind != AxisType::Device)
}

proof fn lemma_renewed(dag: Seq<NodeView>, next: usize, loops: Seq<usize>, n: nat)
    requires
        are_renewable(dag, loops),
        n <= loops.len(),
        next + n <= usize::MAX,
        renewed(dag, next, loops, n).dag.len() <= usize::MAX,
    ensures
        ({
            let new = renewed(dag, next, loops, n);
            &&& extends(dag, new.dag)
            &&& new.next == next + n
            &&& new.loops.len() == n
            &&& forall|k: int|
                0 <= k < n ==> (#[trigger] new.loops[k]) < new.dag.len() && number_at(
                    new.dag,
                    new.loops[k],
                ) == next + k
        }),
    decreases n,
{
    if n > 0 {
        let before = renewed(dag, next, loops, (n - 1) as nat);
        let node = dag[loops[n - 1] as int];
        assert(loops[n - 1] < dag.len());
        let new = renewed(dag, next, loops, n);
        match node.op {
            Op::Range { kind, .. } => {
                let one = NodeView {
                    op: Op::Range { axis: AxisId::Unrenumbered(before.next), kind },
                    dtype: node.dtype,
                    srcs: node.srcs,
                };
                lemma_interned_keeps(before.dag, one);
                lemma_renewed(dag, next, loops, (n - 1) as nat);
                lemma_put(before.dag, one);
                assert forall|k: int| 0 <= k < n implies (#[trigger] new.loops[k]) < new.dag.len()
                    && number_at(new.dag, new.loops[k]) == next + k by {
                    if k < n - 1 {
                        assert(new.loops[k] == before.loops[k]);
                        assert(new.dag[before.loops[k] as int] == before.dag[before.loops[k] as int]);
                    }
                }
            },
            _ => {},
        }
    }
}

/// Whether there are numbers for the loops of the first `n` reductions.
pub open spec fn has_numbers(dag: Seq<NodeView>, list: Seq<usize>, start: usize, n: nat) -> bool {
    forall|k: int|
        0 <= k < n ==> (#[trigger] separated(dag, list, start, k as nat)).next + own_loops(
            dag,
            list[k],
        ).len() <= usize::MAX
}

/// What a reduction of a list is given: the loops of the first in the same
/// place, which are its own, or new ones whose numbers start with the next free
/// one.
spec fn is_given(
    dag: Seq<NodeView>,
    list: Seq<usize>,
    start: usize,
    now: Seq<NodeView>,
    loops: Seq<Seq<usize>>,
    k: int,
) -> bool {
    &&& loops[k].len() > 0
    &&& loops[k][0] < now.len()
    &&& match leader(dag, list, list[k], k as nat) {
        Some(l) => loops[k] == loops[l],
        None => if are_taken(dag, list, list[k], k as nat) {
            number_at(now, loops[k][0]) == separated(dag, list, start, k as nat).next
        } else {
            loops[k] == own_loops(dag, list[k])
        },
    }
}

/// Whether a reduction of a list is given new loops.
spec fn is_renewed(dag: Seq<NodeView>, list: Seq<usize>, k: int) -> bool {
    leader(dag, list, list[k], k as nat) is None && are_taken(dag, list, list[k], k as nat)
}

#[verifier::rlimit(60)]
#[verifier::spinoff_prover]
proof fn lemma_given(dag: Seq<NodeView>, list: Seq<usize>, start: usize, n: nat)
    requires
        n <= list.len(),
        forall|k: int|
            0 <= k < list.len() ==> are_renewable(dag, own_loops(dag, #[trigger] list[k]))
                && own_loops(dag, list[k]).len() > 0,
        has_numbers(dag, list, start, n),
        separated(dag, list, start, n).dag.len() <= usize::MAX,
    ensures
        ({
            let done = separated(dag, list, start, n);
            &&& extends(dag, done.dag)
            &&& done.loops.len() == n
            &&& forall|k: int|
                0 <= k < n ==> #[trigger] is_given(dag, list, start, done.dag, done.loops, k)
            &&& forall|k: int|
                0 <= k < n && #[trigger] is_renewed(dag, list, k) ==> separated(
                    dag,
                    list,
                    start,
                    k as nat,
                ).next < done.next
            &&& start <= done.next
        }),
    decreases n,
{
    if n > 0 {
        let m = (n - 1) as nat;
        let before = separated(dag, list, start, m);
        let done = separated(dag, list, start, n);
        let id = list[n - 1];
        let own = own_loops(dag, id);
        assert(separated(dag, list, start, m).next + own_loops(dag, list[m as int]).len()
            <= usize::MAX);
        let fresh = renewed(before.dag, before.next, own, own.len());
        let (now, given) = match leader(dag, list, id, m) {
            Some(k) => (before.dag, before.loops[k]),
            None => if are_taken(dag, list, id, m) {
                (fresh.dag, fresh.loops)
            } else {
                (before.dag, own)
            },
        };
        let node = dag[id as int];
        let value = substituted(now, node.srcs[0], before.pairs + paired(own, given));
        let last = NodeView { op: node.op, dtype: node.dtype, srcs: seq![value.id] + given };
        lemma_substituted_grows(now, node.srcs[0], before.pairs + paired(own, given));
        lemma_interned_keeps(value.dag, last);
        assert(now.len() <= done.dag.len());
        assert(extends(now, done.dag));
        lemma_renewed_grows(before.dag, before.next, own, own.len());
        lemma_given(dag, list, start, m);
        assert(are_renewable(dag, own_loops(dag, list[m as int])));
        assert forall|k: int| 0 <= k < own.len() implies (#[trigger] own[k]) < before.dag.len()
            && (before.dag[own[k] as int].op matches Op::Range { kind, .. } && kind
            != AxisType::Device) by {
            assert(before.dag[own[k] as int] == dag[own[k] as int]);
        }
        if leader(dag, list, id, m) is None && are_taken(dag, list, id, m) {
            lemma_renewed(before.dag, before.next, own, own.len());
        }
        lemma_leader(dag, list, id, m);
        assert forall|k: int| 0 <= k < n implies #[trigger] is_given(
            dag,
            list,
            start,
            done.dag,
            done.loops,
            k,
        ) by {
            lemma_leader(dag, list, list[k], k as nat);
            if k < m {
                assert(is_given(dag, list, start, before.dag, before.loops, k));
                assert(done.loops[k] == before.loops[k]);
                assert(done.dag[before.loops[k][0] as int] == before.dag[before.loops[k][0] as int]);
                match leader(dag, list, list[k], k as nat) {
                    Some(l) => {
                        assert(done.loops[l] == before.loops[l]);
                    },
                    None => {},
                }
            } else {
                assert(done.loops[k] == given);
                match leader(dag, list, list[k], k as nat) {
                    Some(l) => {
                        assert(done.loops[l] == before.loops[l]);
                        assert(is_given(dag, list, start, before.dag, before.loops, l));
                    },
                    None => {},
                }
            }
        }
        assert forall|k: int| 0 <= k < n && #[trigger] is_renewed(dag, list, k) implies separated(
            dag,
            list,
            start,
            k as nat,
        ).next < done.next by {
            if k < m {
                assert(is_renewed(dag, list, k));
            }
        }
    }
}

proof fn lemma_renewed_grows(dag: Seq<NodeView>, next: usize, loops: Seq<usize>, n: nat)
    ensures
        extends(dag, renewed(dag, next, loops, n).dag),
    decreases n,
{
    if n > 0 {
        let before = renewed(dag, next, loops, (n - 1) as nat);
        lemma_renewed_grows(dag, next, loops, (n - 1) as nat);
        match dag[loops[n - 1] as int].op {
            Op::Range { kind, .. } => {
                lemma_interned_keeps(
                    before.dag,
                    NodeView {
                        op: Op::Range { axis: AxisId::Unrenumbered(before.next), kind },
                        dtype: dag[loops[n - 1] as int].dtype,
                        srcs: dag[loops[n - 1] as int].srcs,
                    },
                );
            },
            _ => {},
        }
    }
}

proof fn lemma_separated_grows(dag: Seq<NodeView>, list: Seq<usize>, start: usize, m: nat, n: nat)
    requires
        m <= n,
    ensures
        separated(dag, list, start, m).dag.len() <= separated(dag, list, start, n).dag.len(),
    decreases n,
{
    if m < n {
        let before = separated(dag, list, start, (n - 1) as nat);
        let id = list[n - 1];
        let own = own_loops(dag, id);
        lemma_separated_grows(dag, list, start, m, (n - 1) as nat);
        lemma_renewed_grows(before.dag, before.next, own, own.len());
        let (now, given) = match leader(dag, list, id, (n - 1) as nat) {
            Some(k) => (before.dag, before.loops[k]),
            None => if are_taken(dag, list, id, (n - 1) as nat) && before.next + own.len()
                <= usize::MAX {
                let fresh = renewed(before.dag, before.next, own, own.len());
                (fresh.dag, fresh.loops)
            } else {
                (before.dag, own)
            },
        };
        let node = dag[id as int];
        let value = substituted(now, node.srcs[0], before.pairs + paired(own, given));
        lemma_substituted_grows(now, node.srcs[0], before.pairs + paired(own, given));
        lemma_interned_keeps(
            value.dag,
            NodeView { op: node.op, dtype: node.dtype, srcs: seq![value.id] + given },
        );
    }
}

proof fn lemma_leader_is_first(dag: Seq<NodeView>, list: Seq<usize>, id: usize, n: nat, m: int)
    requires
        0 <= m < n,
        same_place(dag, list[m], id),
    ensures
        leader(dag, list, id, n) matches Some(k) && k <= m,
    decreases n,
{
    if m < n - 1 {
        lemma_leader_is_first(dag, list, id, (n - 1) as nat, m);
    } else {
        lemma_leader(dag, list, id, (n - 1) as nat);
    }
}

/// The first reduction in the place of another one.
pub open spec fn first_in_place(dag: Seq<NodeView>, list: Seq<usize>, k: int) -> int {
    match leader(dag, list, list[k], k as nat) {
        Some(l) => l,
        None => k,
    }
}

proof fn lemma_first_in_place(dag: Seq<NodeView>, list: Seq<usize>, k: int)
    requires
        0 <= k < list.len(),
    ensures
        ({
            let l = first_in_place(dag, list, k);
            &&& 0 <= l <= k
            &&& same_place(dag, list[l], list[k])
            &&& leader(dag, list, list[l], l as nat) is None
        }),
{
    lemma_leader(dag, list, list[k], k as nat);
    let l = first_in_place(dag, list, k);
    lemma_leader(dag, list, list[l], l as nat);
    match leader(dag, list, list[l], l as nat) {
        Some(m) => {
            lemma_leader_is_first(dag, list, list[k], k as nat, m);
        },
        None => {},
    }
}

proof fn lemma_leaders_differ(dag: Seq<NodeView>, list: Seq<usize>, x: int, y: int)
    requires
        dag.len() <= usize::MAX,
        forall|k: int|
            0 <= k < list.len() ==> are_renewable(dag, own_loops(dag, #[trigger] list[k]))
                && own_loops(dag, list[k]).len() > 0,
        free_number(dag, dag.len()) < usize::MAX,
        has_numbers(dag, list, free_number(dag, dag.len()), list.len()),
        separated(dag, list, free_number(dag, dag.len()), list.len()).dag.len() <= usize::MAX,
        0 <= x < y < list.len(),
        leader(dag, list, list[x], x as nat) is None,
        leader(dag, list, list[y], y as nat) is None,
        own_loops(dag, list[x]) == own_loops(dag, list[y]),
    ensures
        ({
            let done = separated(dag, list, free_number(dag, dag.len()), list.len());
            done.loops[x] != done.loops[y]
        }),
{
    let start = free_number(dag, dag.len());
    let done = separated(dag, list, start, list.len());
    let upto = separated(dag, list, start, y as nat);
    lemma_given(dag, list, start, list.len());
    lemma_separated_grows(dag, list, start, y as nat, list.len());
    lemma_given(dag, list, start, y as nat);
    assert(own_loops(dag, list[x]) == own_loops(dag, list[y]));
    assert(are_taken(dag, list, list[y], y as nat));
    assert(is_given(dag, list, start, done.dag, done.loops, x));
    assert(is_given(dag, list, start, done.dag, done.loops, y));
    assert(number_at(done.dag, done.loops[y][0]) == upto.next);
    if are_taken(dag, list, list[x], x as nat) {
        assert(is_renewed(dag, list, x));
        assert(number_at(done.dag, done.loops[x][0]) == separated(dag, list, start, x as nat).next);
    } else {
        let own = own_loops(dag, list[x]);
        assert(done.loops[x] == own);
        assert(are_renewable(dag, own_loops(dag, list[x])));
        assert(own[0] < dag.len());
        assert(done.dag[own[0] as int] == dag[own[0] as int]);
        lemma_free_number(dag, own[0] as int, dag.len());
    }
}

/// Reductions over the same loops in different places are given different
/// loops, as long as there are numbers for them.
pub proof fn lemma_places_have_their_own_loops(
    dag: Seq<NodeView>,
    list: Seq<usize>,
    i: int,
    j: int,
)
    requires
        dag.len() <= usize::MAX,
        forall|k: int|
            0 <= k < list.len() ==> are_renewable(dag, own_loops(dag, #[trigger] list[k]))
                && own_loops(dag, list[k]).len() > 0,
        free_number(dag, dag.len()) < usize::MAX,
        has_numbers(dag, list, free_number(dag, dag.len()), list.len()),
        separated(dag, list, free_number(dag, dag.len()), list.len()).dag.len() <= usize::MAX,
        0 <= i < list.len(),
        0 <= j < list.len(),
        own_loops(dag, list[i]) == own_loops(dag, list[j]),
        context(dag, list[i]) != context(dag, list[j]),
    ensures
        ({
            let done = separated(dag, list, free_number(dag, dag.len()), list.len());
            done.loops[i] != done.loops[j]
        }),
{
    let start = free_number(dag, dag.len());
    let done = separated(dag, list, start, list.len());
    let x = first_in_place(dag, list, i);
    let y = first_in_place(dag, list, j);
    lemma_first_in_place(dag, list, i);
    lemma_first_in_place(dag, list, j);
    lemma_given(dag, list, start, list.len());
    assert(is_given(dag, list, start, done.dag, done.loops, i));
    assert(is_given(dag, list, start, done.dag, done.loops, j));
    assert(done.loops[i] == done.loops[x]);
    assert(done.loops[j] == done.loops[y]);
    if x < y {
        lemma_leaders_differ(dag, list, x, y);
    } else {
        lemma_leaders_differ(dag, list, y, x);
    }
}

} // verus!
