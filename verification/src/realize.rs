//! Which arguments of kernels are stored before the kernels run.

use vstd::prelude::*;

use crate::graph::{Graph, NodeView, Op};
use crate::indexing::IndexingContext;
use crate::meaning::lemma_arity;
use crate::passes::sources;

verus! {

/// What a node is a reshaped view of.
pub open spec fn unshaped(dag: Seq<NodeView>, id: usize) -> usize
    decreases id,
{
    let node = dag[id as int];
    if node.op is Reshape && node.srcs.len() > 0 && node.srcs[0] < id {
        unshaped(dag, node.srcs[0])
    } else {
        id
    }
}

/// Whether a node has storage already, or needs none.
pub open spec fn is_always_contiguous(op: Op) -> bool {
    match op {
        Op::Buffer { .. }
        | Op::Param { .. }
        | Op::After
        | Op::Contiguous
        | Op::Copy
        | Op::MStack
        | Op::MSelect(_)
        | Op::Bind
        | Op::Const(_) => true,
        _ => false,
    }
}

/// Whether an argument of a kernel is stored for it.
pub open spec fn needs_storage(dag: Seq<NodeView>, arg: usize) -> bool {
    !is_always_contiguous(dag[unshaped(dag, arg) as int].op)
}

/// What is stored once the first `n` sources of a call are, the body aside.
pub open spec fn stored_for(
    dag: Seq<NodeView>,
    srcs: Seq<usize>,
    n: nat,
    before: Map<usize, Option<Vec<usize>>>,
) -> Map<usize, Option<Vec<usize>>>
    decreases n,
{
    if n <= 1 {
        before
    } else {
        let rest = stored_for(dag, srcs, (n - 1) as nat, before);
        if needs_storage(dag, srcs[n - 1]) {
            rest.insert(unshaped(dag, srcs[n - 1]), None)
        } else {
            rest
        }
    }
}

/// Whose storage must stay once that of the first `n` sources of a call must.
pub open spec fn pinned_for(
    dag: Seq<NodeView>,
    srcs: Seq<usize>,
    n: nat,
    before: Set<usize>,
) -> Set<usize>
    decreases n,
{
    if n <= 1 {
        before
    } else {
        let rest = pinned_for(dag, srcs, (n - 1) as nat, before);
        if needs_storage(dag, srcs[n - 1]) {
            rest.insert(unshaped(dag, srcs[n - 1]))
        } else {
            rest
        }
    }
}

fn find_unshaped(graph: &Graph, id: usize) -> (found: usize)
    requires
        graph.wf(),
        id < graph@.len(),
    ensures
        found == unshaped(graph@, id),
        found <= id,
{
    let mut at: usize = id;
    while matches!(graph.op(at), Op::Reshape)
        invariant
            graph.wf(),
            at <= id < graph@.len(),
            unshaped(graph@, at) == unshaped(graph@, id),
        decreases at,
    {
        proof {
            lemma_arity(graph@, at);
        }
        at = graph.source(at, 0);
    }
    at
}

fn always_contiguous(op: Op) -> (r: bool)
    ensures
        r == is_always_contiguous(op),
{
    matches!(
        op,
        Op::Buffer { .. }
        | Op::Param { .. }
        | Op::After
        | Op::Contiguous
        | Op::Copy
        | Op::MStack
        | Op::MSelect(_)
        | Op::Bind
        | Op::Const(_)
    )
}

/// Stores the arguments of a kernel that have no storage. The kernel reads them
/// from there, so that their storage must stay. A reshaped view is stored as
/// what it is a view of.
pub fn realize_arguments(graph: &Graph, id: usize, ctx: &mut IndexingContext)
    requires
        graph.wf(),
        id < graph@.len(),
    ensures
        final(ctx).inputs@ == old(ctx).inputs@,
        final(ctx).outputs@ == old(ctx).outputs@,
        final(ctx).next == old(ctx).next,
        graph@[id as int].op is Call ==> {
            let srcs = graph@[id as int].srcs;
            &&& final(ctx).realize_map@ == stored_for(
                graph@,
                srcs,
                srcs.len(),
                old(ctx).realize_map@,
            )
            &&& final(ctx).pinned@ == pinned_for(graph@, srcs, srcs.len(), old(ctx).pinned@)
        },
        !(graph@[id as int].op is Call) ==> final(ctx).same_tables(old(ctx)),
{
    match graph.op(id) {
        Op::Call => {},
        _ => {
            return ;
        },
    }
    let list = sources(graph, id);
    proof {
        lemma_arity(graph@, id);
    }
    let mut k: usize = 1;
    while k < list.len()
        invariant
            graph.wf(),
            id < graph@.len(),
            list@ == graph@[id as int].srcs,
            forall|i: int| 0 <= i < list@.len() ==> (#[trigger] list@[i]) < id,
            1 <= k <= list@.len(),
            ctx.inputs@ == old(ctx).inputs@,
            ctx.outputs@ == old(ctx).outputs@,
            ctx.next == old(ctx).next,
            ctx.realize_map@ == stored_for(graph@, list@, k as nat, old(ctx).realize_map@),
            ctx.pinned@ == pinned_for(graph@, list@, k as nat, old(ctx).pinned@),
        decreases list@.len() - k,
    {
        assert(list@[k as int] < id);
        let base: usize = find_unshaped(graph, list[k]);
        if !always_contiguous(graph.op(base)) {
            ctx.pin_realize(base);
        }
        k += 1;
    }
}

/// Every argument of a kernel has storage, or is stored for it, and what is
/// stored for it stays.
pub proof fn lemma_arguments_have_storage(
    dag: Seq<NodeView>,
    srcs: Seq<usize>,
    n: nat,
    map: Map<usize, Option<Vec<usize>>>,
    pinned: Set<usize>,
)
    requires
        n <= srcs.len(),
    ensures
        forall|k: int|
            1 <= k < n ==> is_always_contiguous(
                dag[unshaped(dag, #[trigger] srcs[k]) as int].op,
            ) || (stored_for(dag, srcs, n, map).contains_key(unshaped(dag, srcs[k])) && pinned_for(
                dag,
                srcs,
                n,
                pinned,
            ).contains(unshaped(dag, srcs[k]))),
    decreases n,
{
    if n > 1 {
        lemma_arguments_have_storage(dag, srcs, (n - 1) as nat, map, pinned);
    }
}

} // verus!
