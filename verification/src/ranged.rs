//! Reductions of leading axes as reductions over the ranges that walk them.

use vstd::prelude::*;

use crate::builders::{lemma_interned_keeps, put, Built};
use crate::graph::{arity_ok, dag_wf, lemma_interned_wf, AxisType, DType, Graph, NodeView, Op};
use crate::indexing::{number_after, sized_range, IndexingContext};
use crate::meaning::lemma_arity;
use crate::passes::{extends, grown, lemma_put, with_srcs, Walked};
use crate::shape::{copy_of, dims, find_dims};
use crate::subst::{
    find_visible, is_body, is_opaque, lemma_visible_source, moved_outside, opaque_op, visible,
};
use crate::topo::{lemma_reaches_below, lemma_topo, ordered, reaches, topo};

verus! {

broadcast use vstd::std_specs::hash::group_hash_axioms;

/// Ranges that were made one after another, and the next free number.
pub struct Walks {
    pub dag: Seq<NodeView>,
    pub srcs: Seq<usize>,
    pub next: usize,
}

/// Ranges that reduce along the first `n` of some sizes.
pub open spec fn reduce_walks(dag: Seq<NodeView>, next: usize, sizes: Seq<usize>, n: nat) -> Walks
    decreases n,
{
    if n == 0 {
        Walks { dag, srcs: Seq::empty(), next }
    } else {
        let rest = reduce_walks(dag, next, sizes, (n - 1) as nat);
        let range = sized_range(rest.dag, rest.next, sizes[n - 1], AxisType::Reduce);
        Walks {
            dag: range.dag,
            srcs: rest.srcs.push(range.id),
            next: number_after(rest.next, sizes[n - 1]),
        }
    }
}

/// Whether ranges can be made for a reduction of leading axes: the shape of
/// what it reduces is known and has as many axes, their sizes are extents, and
/// there are numbers for them.
pub open spec fn can_walk(dag: Seq<NodeView>, next: usize, id: usize) -> bool {
    match dag[id as int].op {
        Op::AxisReduce { count, .. } => match dims(dag, dag[id as int].srcs[0]) {
            Some(sizes) => {
                &&& count <= sizes.len()
                &&& next + count <= usize::MAX
                &&& forall|k: int| 0 <= k < count ==> (#[trigger] sizes[k]) <= i64::MAX
            },
            None => false,
        },
        _ => false,
    }
}

/// The ranges that a reduction of leading axes is given.
pub open spec fn walks_of(dag: Seq<NodeView>, next: usize, id: usize) -> Walks {
    match dag[id as int].op {
        Op::AxisReduce { count, .. } => reduce_walks(
            dag,
            next,
            dims(dag, dag[id as int].srcs[0])->0,
            count as nat,
        ),
        _ => Walks { dag, srcs: Seq::empty(), next },
    }
}

/// Gives a reduction of leading axes its ranges: what it gives is walked by
/// `outputs`, and what it reads by a new range for each reduced axis and then
/// by those. Nothing is done where no ranges can be made; see `can_walk`.
pub fn walk_reduction(
    ctx: &mut IndexingContext,
    graph: &mut Graph,
    id: usize,
    outputs: &Vec<usize>,
) -> (done: bool)
    requires
        old(graph).wf(),
        id < old(graph)@.len(),
    ensures
        done == can_walk(old(graph)@, old(ctx).next, id),
        final(graph).wf(),
        extends(old(graph)@, final(graph)@),
        !done ==> final(graph)@ == old(graph)@ && *final(ctx) == *old(ctx),
        done ==> {
            let walks = walks_of(old(graph)@, old(ctx).next, id);
            &&& final(graph)@ == walks.dag
            &&& final(ctx).next == walks.next
            &&& final(ctx).inputs@ == old(ctx).inputs@.insert(id, final(ctx).inputs@[id])
            &&& final(ctx).inputs@[id]@ == walks.srcs + outputs@
            &&& final(ctx).outputs@ == old(ctx).outputs@.insert(id, final(ctx).outputs@[id])
            &&& final(ctx).outputs@[id]@ == outputs@
            &&& final(ctx).realize_map@ == old(ctx).realize_map@
            &&& final(ctx).pinned@ == old(ctx).pinned@
            &&& forall|k: int|
                0 <= k < walks.srcs.len() ==> (#[trigger] walks.srcs[k]) < final(graph)@.len()
        },
{
    let ghost dag = graph@;
    proof {
        lemma_arity(dag, id);
    }
    let count: usize = match graph.op(id) {
        Op::AxisReduce { count, .. } => count,
        _ => {
            return false;
        },
    };
    let value: usize = graph.source(id, 0);
    let sizes = match find_dims(graph, value) {
        Some(sizes) => sizes,
        None => {
            return false;
        },
    };
    if count > sizes.len() || count > usize::MAX - ctx.next {
        return false;
    }
    let mut k: usize = 0;
    while k < count
        invariant
            k <= count <= sizes@.len(),
            forall|j: int| 0 <= j < k ==> (#[trigger] sizes@[j]) <= i64::MAX,
            dims(dag, value) == Some(sizes@),
            dag[id as int].op matches Op::AxisReduce { count: own, .. } && own == count,
            dag[id as int].srcs[0] == value,
            graph.wf(),
            graph@ == dag,
            *ctx == *old(ctx),
            dag == old(graph)@,
        decreases count - k,
    {
        if sizes[k] as u64 > 0x7fff_ffff_ffff_ffff {
            return false;
        }
        k += 1;
    }
    let ghost start = ctx.next;
    let mut list: Vec<usize> = Vec::new();
    let mut n: usize = 0;
    while n < count
        invariant
            n <= count <= sizes@.len(),
            forall|j: int| 0 <= j < count ==> (#[trigger] sizes@[j]) <= i64::MAX,
            start + count <= usize::MAX,
            ctx.next <= start + n,
            graph.wf(),
            extends(dag, graph@),
            ctx.same_tables(old(ctx)),
            reduce_walks(dag, start, sizes@, n as nat) == (Walks {
                dag: graph@,
                srcs: list@,
                next: ctx.next,
            }),
            forall|j: int| 0 <= j < list@.len() ==> (#[trigger] list@[j]) < graph@.len(),
        decreases count - n,
    {
        let range: usize = ctx.new_range(graph, sizes[n], AxisType::Reduce);
        list.push(range);
        n += 1;
    }
    let ghost walks = list@;
    let given = copy_of(outputs);
    let mut m: usize = 0;
    while m < outputs.len()
        invariant
            m <= outputs@.len(),
            list@ == walks + outputs@.take(m as int),
        decreases outputs@.len() - m,
    {
        list.push(outputs[m]);
        assert(list@ =~= walks + outputs@.take(m + 1));
        m += 1;
    }
    assert(outputs@.take(outputs@.len() as int) =~= outputs@);
    ctx.set_ranges(id, list, given);
    true
}

/// The ranges that walk what each node reads.
pub type Reads = Map<usize, Vec<usize>>;

/// Whether a node is a reduction of leading axes whose ranges are known.
pub open spec fn is_walked(node: NodeView, reads: Reads, id: usize) -> bool {
    node.op matches Op::AxisReduce { count, .. } && reads.contains_key(id) && count
        <= reads[id]@.len()
}

/// A node over other sources; a reduction of leading axes reduces over the
/// ranges that walk those axes.
pub open spec fn over_ranges(node: NodeView, srcs: Seq<usize>, reads: Reads, id: usize) -> NodeView {
    match node.op {
        Op::AxisReduce { with, count } if is_walked(node, reads, id) => NodeView {
            op: Op::Reduce(with),
            dtype: node.dtype,
            srcs: srcs + reads[id]@.take(count as int),
        },
        _ => with_srcs(node, srcs),
    }
}

/// The first `n` nodes of a walk, with reductions over ranges.
pub open spec fn ranged_walk(
    dag: Seq<NodeView>,
    root: usize,
    reads: Reads,
    walk: Seq<usize>,
    n: nat,
) -> Walked
    decreases n,
{
    if n == 0 {
        Walked { dag, stands: Map::empty() }
    } else {
        let rest = ranged_walk(dag, root, reads, walk, (n - 1) as nat);
        let u = walk[n - 1];
        let node = dag[u as int];
        if !visible(dag, root, u) {
            rest
        } else {
            let new = put(
                rest.dag,
                over_ranges(node, moved_outside(node, rest.stands), reads, u),
            );
            Walked { dag: new.dag, stands: rest.stands.insert(u, new.id) }
        }
    }
}

/// Everything at and below a root, with reductions over ranges. Opaque bodies
/// stay as they are.
pub open spec fn ranged(dag: Seq<NodeView>, root: usize, reads: Reads) -> Built {
    let walk = topo(dag, root);
    let done = ranged_walk(dag, root, reads, walk, walk.len());
    Built { dag: done.dag, id: done.stands[root] }
}

/// Whether all ranges that are known stand in a graph.
pub open spec fn reads_in(dag: Seq<NodeView>, reads: Reads) -> bool {
    forall|u: usize, k: int|
        reads.contains_key(u) && 0 <= k < reads[u]@.len() ==> (#[trigger] reads[u]@[k]) < dag.len()
}

/// Turns reductions of leading axes whose ranges are known into reductions
/// over them; see `ranged`.
pub fn reduce_over_ranges(graph: &mut Graph, ctx: &IndexingContext, root: usize) -> (new: usize)
    requires
        old(graph).wf(),
        root < old(graph)@.len(),
        reads_in(old(graph)@, ctx.inputs@),
    ensures
        final(graph).wf(),
        final(graph)@ == ranged(old(graph)@, root, ctx.inputs@).dag,
        new == ranged(old(graph)@, root, ctx.inputs@).id,
        new < final(graph)@.len(),
        extends(old(graph)@, final(graph)@),
{
    let ghost dag = graph@;
    let ghost reads = ctx.inputs@;
    let walk = graph.toposort(root);
    let seen = find_visible(graph, root);
    proof {
        lemma_topo(dag, root);
    }
    let mut stands: Vec<usize> = Vec::new();
    let mut id: usize = 0;
    while id < root
        invariant
            id <= root,
            stands@.len() == id,
        decreases root - id,
    {
        stands.push(0);
        id += 1;
    }
    stands.push(0);
    let mut n: usize = 0;
    while n < walk.len()
        invariant
            graph.wf(),
            dag_wf(dag),
            extends(dag, graph@),
            root < dag.len(),
            reads == ctx.inputs@,
            reads_in(dag, reads),
            walk@ == topo(dag, root),
            ordered(dag, walk@),
            forall|x: usize| #[trigger] walk@.contains(x) <==> reaches(dag, root, x),
            seen@.len() == root + 1,
            forall|x: usize| x <= root ==> #[trigger] seen@[x as int] == visible(dag, root, x),
            stands@.len() == root + 1,
            n <= walk@.len(),
            graph@ == ranged_walk(dag, root, reads, walk@, n as nat).dag,
            forall|p: int|
                0 <= p < n && visible(dag, root, #[trigger] walk@[p]) ==> stands@[walk@[p] as int]
                    == ranged_walk(dag, root, reads, walk@, n as nat).stands[walk@[p]]
                    && stands@[walk@[p] as int] < graph@.len(),
        decreases walk@.len() - n,
    {
        let u: usize = walk[n];
        let ghost node = dag[u as int];
        let ghost rest = ranged_walk(dag, root, reads, walk@, n as nat);
        proof {
            assert(walk@.contains(u));
            lemma_reaches_below(dag, root, u);
            lemma_arity(dag, u);
            assert(graph@[u as int] == node);
        }
        if seen[u] {
            let ghost held = graph@;
            let ghost before = stands@;
            let op = graph.op(u);
            let dtype = graph.dtype(u);
            let count: usize = graph.source_count(u);
            let hidden: bool = opaque_op(op);
            let mut list: Vec<usize> = Vec::new();
            let mut k: usize = 0;
            while k < count
                invariant
                    graph.wf(),
                    dag_wf(dag),
                    graph@ == held,
                    extends(dag, held),
                    ordered(dag, walk@),
                    n < walk@.len(),
                    u == walk@[n as int],
                    u <= root < dag.len(),
                    visible(dag, root, u),
                    node == dag[u as int],
                    graph@[u as int] == node,
                    op == node.op,
                    hidden == is_opaque(op),
                    count == node.srcs.len(),
                    stands@.len() == root + 1,
                    forall|p: int|
                        0 <= p < n && visible(dag, root, #[trigger] walk@[p])
                            ==> stands@[walk@[p] as int] == rest.stands[walk@[p]]
                            && stands@[walk@[p] as int] < graph@.len(),
                    k <= count,
                    list@ == moved_outside(node, rest.stands).take(k as int),
                    forall|j: int| 0 <= j < list@.len() ==> (#[trigger] list@[j]) < graph@.len(),
                decreases count - k,
            {
                let src: usize = graph.source(u, k);
                if hidden && k == 0 {
                    list.push(src);
                } else {
                    proof {
                        lemma_visible_source(dag, root, u, k as int);
                        assert(dag[walk@[n as int] as int].srcs[k as int] == src);
                        let q = choose|q: int| 0 <= q < n && #[trigger] walk@[q] == src;
                        assert(walk@[q] == src);
                    }
                    list.push(stands[src]);
                }
                k += 1;
                assert(list@ =~= moved_outside(node, rest.stands).take(k as int));
            }
            assert(list@ =~= moved_outside(node, rest.stands));
            let new: usize = put_over_ranges(graph, ctx, u, op, dtype, list, Ghost(node), Ghost(dag));
            stands.set(u, new);
            proof {
                let now = ranged_walk(dag, root, reads, walk@, (n + 1) as nat);
                assert(now.stands == rest.stands.insert(u, new));
                assert forall|p: int|
                    0 <= p < n + 1 && visible(dag, root, #[trigger] walk@[p]) implies stands@[walk@[p] as int]
                    == now.stands[walk@[p]] && stands@[walk@[p] as int] < graph@.len() by {
                    if p < n {
                        assert(walk@[p] != walk@[n as int]);
                        assert(before[walk@[p] as int] == rest.stands[walk@[p]]);
                    }
                }
            }
        }
        n += 1;
    }
    proof {
        assert(walk@[walk@.len() - 1] == root);
        assert(visible(dag, root, root));
    }
    stands[root]
}

fn put_over_ranges(
    graph: &mut Graph,
    ctx: &IndexingContext,
    id: usize,
    op: Op,
    dtype: DType,
    srcs: Vec<usize>,
    Ghost(node): Ghost<NodeView>,
    Ghost(dag): Ghost<Seq<NodeView>>,
) -> (new: usize)
    requires
        old(graph).wf(),
        extends(dag, old(graph)@),
        reads_in(dag, ctx.inputs@),
        op == node.op,
        dtype == node.dtype,
        arity_ok(op, srcs@.len()),
        forall|j: int| 0 <= j < srcs@.len() ==> (#[trigger] srcs@[j]) < old(graph)@.len(),
    ensures
        grown(
            old(graph)@,
            *final(graph),
            put(old(graph)@, over_ranges(node, srcs@, ctx.inputs@, id)),
            new,
        ),
{
    let ghost held = graph@;
    let mut list = srcs;
    let mut kind = op;
    if let Op::AxisReduce { with, count } = op {
        if let Some(ranges) = ctx.input_ranges(id) {
            if count <= ranges.len() {
                kind = Op::Reduce(with);
                let mut k: usize = 0;
                while k < count
                    invariant
                        k <= count <= ranges@.len(),
                        list@ == srcs@ + ranges@.take(k as int),
                        ctx.inputs@.contains_key(id),
                        *ranges == ctx.inputs@[id],
                        reads_in(dag, ctx.inputs@),
                        extends(dag, held),
                        forall|j: int| 0 <= j < list@.len() ==> (#[trigger] list@[j]) < held.len(),
                    decreases count - k,
                {
                    assert(ctx.inputs@[id]@[k as int] < dag.len());
                    list.push(ranges[k]);
                    assert(list@ =~= srcs@ + ranges@.take(k + 1));
                    k += 1;
                }
            }
        }
    }
    let ghost want = over_ranges(node, srcs@, ctx.inputs@, id);
    assert(want == (NodeView { op: kind, dtype, srcs: list@ }));
    proof {
        lemma_interned_keeps(held, want);
    }
    graph.node(kind, dtype, list.as_slice())
}

/// Whether no reduction of leading axes stands at a node or below it, outside
/// of opaque bodies.
pub open spec fn is_ranged(dag: Seq<NodeView>, id: usize) -> bool
    decreases id,
{
    let node = dag[id as int];
    &&& !(node.op is AxisReduce)
    &&& forall|k: int|
        #![trigger node.srcs[k]]
        0 <= k < node.srcs.len() && !is_body(node.op, k) && node.srcs[k] < id ==> is_ranged(
            dag,
            node.srcs[k],
        )
}

proof fn lemma_ranged_extends(dag: Seq<NodeView>, more: Seq<NodeView>, id: usize)
    requires
        extends(dag, more),
        dag_wf(dag),
        id < dag.len(),
        is_ranged(dag, id),
    ensures
        is_ranged(more, id),
    decreases id,
{
    let node = dag[id as int];
    assert(more[id as int] == node);
    assert forall|k: int|
        #![trigger node.srcs[k]]
        0 <= k < node.srcs.len() && !is_body(node.op, k) && node.srcs[k] < id implies is_ranged(
        more,
        node.srcs[k],
    ) by {
        lemma_ranged_extends(dag, more, node.srcs[k]);
    }
}

/// Where no reduction of leading axes stands at a node or below it, what is
/// visible from the node is none.
pub proof fn lemma_ranged_all_the_way(dag: Seq<NodeView>, root: usize, id: usize)
    requires
        dag_wf(dag),
        root < dag.len(),
        is_ranged(dag, root),
        visible(dag, root, id),
    ensures
        is_ranged(dag, id),
        !(dag[id as int].op is AxisReduce),
    decreases root - id,
{
    if id != root {
        let (p, k) = choose|p: usize, k: int|
            #![trigger dag[p as int].srcs[k]]
            id < p <= root && 0 <= k < dag[p as int].srcs.len() && dag[p as int].srcs[k] == id
                && !is_body(dag[p as int].op, k) && visible(dag, root, p);
        lemma_ranged_all_the_way(dag, root, p);
        assert(dag[p as int].srcs[k] == id);
    }
}

proof fn lemma_ranged_walk(dag: Seq<NodeView>, root: usize, reads: Reads, n: nat)
    requires
        dag_wf(dag),
        root < dag.len() <= usize::MAX,
        reads_in(dag, reads),
        n <= topo(dag, root).len(),
        ranged_walk(dag, root, reads, topo(dag, root), n).dag.len() <= usize::MAX,
        forall|u: usize| #[trigger]
            visible(dag, root, u) && dag[u as int].op is AxisReduce ==> is_walked(
                dag[u as int],
                reads,
                u,
            ),
        forall|u: usize, k: int|
            reads.contains_key(u) && 0 <= k < reads[u]@.len() ==> is_ranged(
                dag,
                #[trigger] reads[u]@[k],
            ),
    ensures
        ({
            let walk = topo(dag, root);
            let done = ranged_walk(dag, root, reads, walk, n);
            &&& dag_wf(done.dag)
            &&& extends(dag, done.dag)
            &&& forall|p: int|
                0 <= p < n && visible(dag, root, #[trigger] walk[p]) ==> done.stands[walk[p]]
                    < done.dag.len() && is_ranged(done.dag, done.stands[walk[p]])
        }),
    decreases n,
{
    let walk = topo(dag, root);
    lemma_topo(dag, root);
    if n > 0 {
        let rest = ranged_walk(dag, root, reads, walk, (n - 1) as nat);
        let u = walk[n - 1];
        let node = dag[u as int];
        let done = ranged_walk(dag, root, reads, walk, n);
        if visible(dag, root, u) {
            let srcs = moved_outside(node, rest.stands);
            let want = over_ranges(node, srcs, reads, u);
            lemma_interned_keeps(rest.dag, want);
            lemma_ranged_walk(dag, root, reads, (n - 1) as nat);
            assert(walk.contains(u));
            lemma_reaches_below(dag, root, u);
            lemma_arity(dag, u);
            lemma_sources_are_ranged(dag, root, reads, n);
            lemma_interned_wf(rest.dag, want);
            lemma_put(rest.dag, want);
            let new = put(rest.dag, want);
            assert(new.dag[new.id as int] == want);
            assert forall|k: int|
                #![trigger want.srcs[k]]
                0 <= k < want.srcs.len() && !is_body(want.op, k) && want.srcs[k]
                    < new.id implies is_ranged(new.dag, want.srcs[k]) by {
                lemma_ranged_extends(rest.dag, new.dag, want.srcs[k]);
            }
            assert(is_ranged(new.dag, new.id));
            assert forall|p: int| 0 <= p < n && visible(dag, root, #[trigger] walk[p]) implies
                done.stands[walk[p]] < done.dag.len() && is_ranged(
                done.dag,
                done.stands[walk[p]],
            ) by {
                if p < n - 1 {
                    assert(walk[p] != walk[n - 1]);
                    lemma_ranged_extends(rest.dag, new.dag, rest.stands[walk[p]]);
                }
            }
        } else {
            lemma_ranged_walk(dag, root, reads, (n - 1) as nat);
        }
    }
}

proof fn lemma_sources_are_ranged(dag: Seq<NodeView>, root: usize, reads: Reads, n: nat)
    requires
        dag_wf(dag),
        root < dag.len() <= usize::MAX,
        reads_in(dag, reads),
        0 < n <= topo(dag, root).len(),
        visible(dag, root, topo(dag, root)[n - 1]),
        dag[topo(dag, root)[n - 1] as int].op is AxisReduce ==> is_walked(
            dag[topo(dag, root)[n - 1] as int],
            reads,
            topo(dag, root)[n - 1],
        ),
        forall|u: usize, k: int|
            reads.contains_key(u) && 0 <= k < reads[u]@.len() ==> is_ranged(
                dag,
                #[trigger] reads[u]@[k],
            ),
        ({
            let walk = topo(dag, root);
            let rest = ranged_walk(dag, root, reads, walk, (n - 1) as nat);
            &&& dag_wf(rest.dag)
            &&& extends(dag, rest.dag)
            &&& forall|p: int|
                0 <= p < n - 1 && visible(dag, root, #[trigger] walk[p]) ==> rest.stands[walk[p]]
                    < rest.dag.len() && is_ranged(rest.dag, rest.stands[walk[p]])
        }),
    ensures
        ({
            let walk = topo(dag, root);
            let rest = ranged_walk(dag, root, reads, walk, (n - 1) as nat);
            let u = walk[n - 1];
            let node = dag[u as int];
            let want = over_ranges(node, moved_outside(node, rest.stands), reads, u);
            &&& !(want.op is AxisReduce)
            &&& arity_ok(want.op, want.srcs.len())
            &&& forall|k: int|
                #![trigger want.srcs[k]]
                0 <= k < want.srcs.len() ==> want.srcs[k] < rest.dag.len() && (!is_body(
                    want.op,
                    k,
                ) ==> is_ranged(rest.dag, want.srcs[k]))
        }),
{
    let walk = topo(dag, root);
    lemma_topo(dag, root);
    let rest = ranged_walk(dag, root, reads, walk, (n - 1) as nat);
    let u = walk[n - 1];
    let node = dag[u as int];
    let srcs = moved_outside(node, rest.stands);
    let want = over_ranges(node, srcs, reads, u);
    assert(walk.contains(u));
    lemma_reaches_below(dag, root, u);
    lemma_arity(dag, u);
    assert(srcs.len() == node.srcs.len());
    assert forall|k: int|
        #![trigger want.srcs[k]]
        0 <= k < want.srcs.len() implies want.srcs[k] < rest.dag.len() && (!is_body(want.op, k)
        ==> is_ranged(rest.dag, want.srcs[k])) by {
        if k >= srcs.len() {
            let range = reads[u]@[k - srcs.len()];
            assert(want.srcs[k] == range);
            lemma_ranged_extends(dag, rest.dag, range);
        } else {
            assert(want.srcs[k] == srcs[k]);
            assert(node.srcs[k] < u);
            if is_body(node.op, k) {
                assert(srcs[k] == node.srcs[k]);
            } else {
                lemma_visible_source(dag, root, u, k);
                assert(dag[walk[n - 1] as int].srcs[k] == node.srcs[k]);
                let q = choose|q: int| 0 <= q < n - 1 && #[trigger] walk[q] == node.srcs[k];
                assert(walk[q] == node.srcs[k]);
                assert(srcs[k] == rest.stands[walk[q]]);
            }
        }
    }
}

/// Once every visible reduction of leading axes has its ranges, none is left:
/// what is visible afterwards reduces over ranges alone.
pub proof fn lemma_no_axis_reduction_is_left(
    dag: Seq<NodeView>,
    root: usize,
    reads: Reads,
    id: usize,
)
    requires
        dag_wf(dag),
        root < dag.len() <= usize::MAX,
        reads_in(dag, reads),
        ranged(dag, root, reads).dag.len() <= usize::MAX,
        forall|u: usize| #[trigger]
            visible(dag, root, u) && dag[u as int].op is AxisReduce ==> is_walked(
                dag[u as int],
                reads,
                u,
            ),
        forall|u: usize, k: int|
            reads.contains_key(u) && 0 <= k < reads[u]@.len() ==> is_ranged(
                dag,
                #[trigger] reads[u]@[k],
            ),
        visible(ranged(dag, root, reads).dag, ranged(dag, root, reads).id, id),
    ensures
        !(ranged(dag, root, reads).dag[id as int].op is AxisReduce),
{
    let walk = topo(dag, root);
    lemma_topo(dag, root);
    lemma_ranged_walk(dag, root, reads, walk.len());
    assert(walk[walk.len() - 1] == root);
    assert(visible(dag, root, root));
    let new = ranged(dag, root, reads);
    lemma_ranged_all_the_way(new.dag, new.id, id);
}

} // verus!
