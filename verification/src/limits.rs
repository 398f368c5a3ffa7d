//! How many arguments a kernel takes, and what is staged where a device allows
//! fewer.

use vstd::prelude::*;

use crate::builders::{put, Built};
use crate::graph::{dag_wf, AddrSpace, AxisId, AxisType, Graph, NodeView, Op};
use crate::indexing::IndexingContext;
use crate::meaning::lemma_arity;
use crate::passes::{extends, grown, sources};
use crate::scope::{in_scope, lemma_scope_is_range_below, row_ok};
use crate::subst::{substitute, substituted};

verus! {

/// Whether a kernel that computes a node reads a storage. A value behind others
/// is read from its own storage alone, a staged value is storage, and storage
/// inside a kernel is no argument.
pub open spec fn reads(dag: Seq<NodeView>, id: usize, r: usize) -> bool
    decreases id,
{
    let node = dag[id as int];
    match node.op {
        Op::Buffer { space, .. } => r == id && space == AddrSpace::Global,
        Op::Param { addrspace, .. } => r == id && (addrspace is None || addrspace == Some(
            AddrSpace::Global,
        )),
        Op::Stage { .. } => r == id,
        Op::After => node.srcs.len() > 0 && node.srcs[0] < id && reads(dag, node.srcs[0], r),
        _ => exists|k: int|
            0 <= k < node.srcs.len() && (#[trigger] node.srcs[k]) < id && reads(
                dag,
                node.srcs[k],
                r,
            ),
    }
}

/// How many of the first `n` nodes are storage that a kernel reads.
pub open spec fn argument_count(dag: Seq<NodeView>, id: usize, n: nat) -> nat
    decreases n,
{
    if n == 0 {
        0
    } else {
        argument_count(dag, id, (n - 1) as nat) + (if reads(dag, id, (n - 1) as usize) {
            1nat
        } else {
            0nat
        })
    }
}

/// Whether an operation works element by element.
pub open spec fn combines_elements(op: Op) -> bool {
    op is Unary || op is Binary || op is Ternary || op is Cast || op is BitCast
}

/// Whether a kernel takes more arguments than a device allows; what it stores is
/// one of them.
pub open spec fn is_over(dag: Seq<NodeView>, id: usize, max: usize) -> bool {
    argument_count(dag, id, dag.len()) >= max
}

spec fn reads_row(dag: Seq<NodeView>, id: usize, row: Seq<bool>) -> bool {
    &&& row.len() == dag.len()
    &&& forall|r: usize| r < dag.len() ==> #[trigger] row[r as int] == reads(dag, id, r)
}

fn find_row(graph: &Graph, id: usize, rows: &Vec<Vec<bool>>) -> (row: Vec<bool>)
    requires
        graph.wf(),
        id < graph@.len(),
        rows@.len() == id,
        forall|i: usize| i < id ==> reads_row(graph@, i, #[trigger] rows@[i as int]@),
    ensures
        reads_row(graph@, id, row@),
{
    proof {
        lemma_arity(graph@, id);
    }
    let len: usize = graph.len();
    let mut row: Vec<bool> = Vec::new();
    let op = graph.op(id);
    let count: usize = graph.source_count(id);
    let mut r: usize = 0;
    while r < len
        invariant
            graph.wf(),
            len == graph@.len(),
            id < len,
            r <= len,
            op == graph@[id as int].op,
            op is After ==> graph@[id as int].srcs.len() > 0,
            count == graph@[id as int].srcs.len(),
            rows@.len() == id,
            forall|i: usize| i < id ==> reads_row(graph@, i, #[trigger] rows@[i as int]@),
            row@.len() == r,
            forall|q: usize| q < r ==> #[trigger] row@[q as int] == reads(graph@, id, q),
        decreases len - r,
    {
        let found = match op {
            Op::Buffer { space, .. } => r == id && space == AddrSpace::Global,
            Op::Param { addrspace, .. } => r == id && match addrspace {
                None => true,
                Some(space) => space == AddrSpace::Global,
            },
            Op::Stage { .. } => r == id,
            Op::After => {
                let src: usize = graph.source(id, 0);
                assert(reads_row(graph@, src, rows@[src as int]@));
                rows[src][r]
            },
            _ => {
                let mut found = false;
                let mut k: usize = 0;
                while k < count
                    invariant
                        graph.wf(),
                        len == graph@.len(),
                        id < len,
                        r < len,
                        k <= count,
                        count == graph@[id as int].srcs.len(),
                        rows@.len() == id,
                        forall|i: usize|
                            i < id ==> reads_row(graph@, i, #[trigger] rows@[i as int]@),
                        found == exists|j: int|
                            0 <= j < k && (#[trigger] graph@[id as int].srcs[j]) < id && reads(
                                graph@,
                                graph@[id as int].srcs[j],
                                r,
                            ),
                    decreases count - k,
                {
                    let src: usize = graph.source(id, k);
                    assert(reads_row(graph@, src, rows@[src as int]@));
                    if rows[src][r] {
                        assert(graph@[id as int].srcs[k as int] < id && reads(
                            graph@,
                            graph@[id as int].srcs[k as int],
                            r,
                        ));
                        found = true;
                    }
                    k += 1;
                }
                found
            },
        };
        row.push(found);
        r += 1;
    }
    row
}

/// How many storages a kernel that computes a node reads.
pub fn count_arguments(graph: &Graph, id: usize) -> (count: usize)
    requires
        graph.wf(),
        id < graph@.len(),
    ensures
        count == argument_count(graph@, id, graph@.len()),
{
    let mut rows: Vec<Vec<bool>> = Vec::new();
    let mut at: usize = 0;
    while at <= id
        invariant
            graph.wf(),
            id < graph@.len(),
            at <= id + 1,
            rows@.len() == at,
            forall|i: usize| i < at ==> reads_row(graph@, i, #[trigger] rows@[i as int]@),
        decreases id + 1 - at,
    {
        let row = find_row(graph, at, &rows);
        rows.push(row);
        at += 1;
    }
    assert(reads_row(graph@, id, rows@[id as int]@));
    let len: usize = graph.len();
    let mut count: usize = 0;
    let mut r: usize = 0;
    while r < len
        invariant
            len == graph@.len(),
            id < len,
            r <= len,
            rows@.len() == id + 1,
            reads_row(graph@, id, rows@[id as int]@),
            count <= r,
            count == argument_count(graph@, id, r as nat),
        decreases len - r,
    {
        if rows[id][r] {
            count += 1;
        }
        r += 1;
    }
    count
}

/// The loops among the first `n` nodes that a node runs in.
pub open spec fn open_loops(dag: Seq<NodeView>, id: usize, n: nat) -> Seq<usize>
    decreases n,
{
    if n == 0 {
        Seq::empty()
    } else {
        let rest = open_loops(dag, id, (n - 1) as nat);
        if in_scope(dag, id, (n - 1) as usize) {
            rest.push((n - 1) as usize)
        } else {
            rest
        }
    }
}

/// A graph with new loops in it, and the next free number.
pub struct Renewed {
    pub dag: Seq<NodeView>,
    pub next: usize,
    pub loops: Seq<usize>,
}

/// The first `n` loops anew, each with a number of its own; a launch over
/// devices stays as it is.
pub open spec fn renewed(dag: Seq<NodeView>, next: usize, loops: Seq<usize>, n: nat) -> Renewed
    decreases n,
{
    if n == 0 {
        Renewed { dag, next, loops: Seq::empty() }
    } else {
        let before = renewed(dag, next, loops, (n - 1) as nat);
        let node = dag[loops[n - 1] as int];
        match node.op {
            Op::Range { kind, .. } if kind != AxisType::Device => {
                let made = put(
                    before.dag,
                    NodeView {
                        op: Op::Range { axis: AxisId::Unrenumbered(before.next), kind },
                        dtype: node.dtype,
                        srcs: node.srcs,
                    },
                );
                Renewed {
                    dag: made.dag,
                    next: (before.next + 1) as usize,
                    loops: before.loops.push(made.id),
                }
            },
            _ => Renewed { loops: before.loops.push(loops[n - 1]), ..before },
        }
    }
}

/// Loops and what takes their place.
pub open spec fn paired(a: Seq<usize>, b: Seq<usize>) -> Seq<(usize, usize)> {
    Seq::new(a.len(), |i: int| (a[i], b[i]))
}

/// A value staged over new loops and read back along its own.
pub open spec fn staged(dag: Seq<NodeView>, next: usize, id: usize) -> (Built, usize) {
    let loops = open_loops(dag, id, dag.len());
    let fresh = renewed(dag, next, loops, loops.len());
    let value = substituted(fresh.dag, id, paired(loops, fresh.loops));
    let dtype = dag[id as int].dtype;
    let stage = put(
        value.dag,
        NodeView {
            op: Op::Stage { space: AddrSpace::Global, removable: true },
            dtype,
            srcs: seq![value.id] + fresh.loops,
        },
    );
    (
        put(stage.dag, NodeView { op: Op::Index, dtype, srcs: seq![stage.id] + loops }),
        fresh.next,
    )
}

/// The first `n` sources of a node, those that work element by element staged.
pub open spec fn staged_sources(dag: Seq<NodeView>, next: usize, srcs: Seq<usize>, n: nat) -> Renewed
    decreases n,
{
    if n == 0 {
        Renewed { dag, next, loops: Seq::empty() }
    } else {
        let before = staged_sources(dag, next, srcs, (n - 1) as nat);
        if combines_elements(dag[srcs[n - 1] as int].op) {
            let (made, after) = staged(before.dag, before.next, srcs[n - 1]);
            Renewed { dag: made.dag, next: after, loops: before.loops.push(made.id) }
        } else {
            Renewed { loops: before.loops.push(srcs[n - 1]), ..before }
        }
    }
}

/// A node that takes too many arguments, over staged operands.
pub open spec fn limited(dag: Seq<NodeView>, next: usize, id: usize, max: usize) -> (Built, usize) {
    let node = dag[id as int];
    if combines_elements(node.op) && is_over(dag, id, max) {
        let all = staged_sources(dag, next, node.srcs, node.srcs.len());
        (
            put(all.dag, NodeView { op: node.op, dtype: node.dtype, srcs: all.loops }),
            all.next,
        )
    } else {
        (Built { dag, id }, next)
    }
}

/// Whether an operation works element by element.
pub fn is_elementwise(op: Op) -> (r: bool)
    ensures
        r == combines_elements(op),
{
    matches!(op, Op::Unary(_) | Op::Binary(_) | Op::Ternary(_) | Op::Cast | Op::BitCast)
}

pub(crate) fn find_open_loops(graph: &Graph, id: usize) -> (loops: Vec<usize>)
    requires
        graph.wf(),
        id < graph@.len(),
    ensures
        loops@ == open_loops(graph@, id, graph@.len()),
        forall|i: int|
            0 <= i < loops@.len() ==> (#[trigger] loops@[i]) < graph@.len()
                && graph@[loops@[i] as int].op is Range,
{
    let rows = graph.scopes();
    assert(row_ok(graph@, id, rows@[id as int]@));
    let len: usize = graph.len();
    let mut loops: Vec<usize> = Vec::new();
    let mut r: usize = 0;
    while r < len
        invariant
            graph.wf(),
            len == graph@.len(),
            id < len,
            r <= len,
            rows@.len() == len,
            row_ok(graph@, id, rows@[id as int]@),
            loops@ == open_loops(graph@, id, r as nat),
            forall|i: int|
                0 <= i < loops@.len() ==> (#[trigger] loops@[i]) < graph@.len()
                    && graph@[loops@[i] as int].op is Range,
        decreases len - r,
    {
        if rows[id][r] {
            proof {
                lemma_scope_is_range_below(graph@, id, r);
            }
            loops.push(r);
        }
        r += 1;
    }
    loops
}

proof fn lemma_open_loops(dag: Seq<NodeView>, id: usize, n: nat)
    requires
        dag_wf(dag),
        id < dag.len(),
        n <= dag.len() <= usize::MAX,
    ensures
        open_loops(dag, id, n).len() <= n,
        open_loops(dag, id, n).len() <= id + 1,
    decreases n,
{
    if n > 0 {
        lemma_open_loops(dag, id, (n - 1) as nat);
        if in_scope(dag, id, (n - 1) as usize) {
            lemma_scope_is_range_below(dag, id, (n - 1) as usize);
        }
    }
}

pub(crate) fn put_renewed(graph: &mut Graph, next: usize, loops: &Vec<usize>) -> (made: (Vec<usize>, usize))
    requires
        old(graph).wf(),
        forall|i: int|
            0 <= i < loops@.len() ==> (#[trigger] loops@[i]) < old(graph)@.len() && old(
                graph,
            )@[loops@[i] as int].op is Range,
        next + loops@.len() <= usize::MAX,
    ensures
        final(graph).wf(),
        extends(old(graph)@, final(graph)@),
        ({
            let all = renewed(old(graph)@, next, loops@, loops@.len());
            &&& final(graph)@ == all.dag
            &&& made.0@ == all.loops
            &&& made.1 == all.next
        }),
        made.1 <= next + loops@.len(),
        made.0@.len() == loops@.len(),
        forall|i: int| 0 <= i < made.0@.len() ==> (#[trigger] made.0@[i]) < final(graph)@.len(),
{
    let ghost dag = graph@;
    let mut fresh: Vec<usize> = Vec::new();
    let mut number: usize = next;
    let mut n: usize = 0;
    while n < loops.len()
        invariant
            n <= loops@.len(),
            dag_wf(dag),
            graph.wf(),
            extends(dag, graph@),
            forall|i: int|
                0 <= i < loops@.len() ==> (#[trigger] loops@[i]) < dag.len()
                    && dag[loops@[i] as int].op is Range,
            next + loops@.len() <= usize::MAX,
            number <= next + n,
            fresh@.len() == n,
            graph@ == renewed(dag, next, loops@, n as nat).dag,
            number == renewed(dag, next, loops@, n as nat).next,
            fresh@ == renewed(dag, next, loops@, n as nat).loops,
            forall|i: int| 0 <= i < fresh@.len() ==> (#[trigger] fresh@[i]) < graph@.len(),
        decreases loops@.len() - n,
    {
        let r: usize = loops[n];
        proof {
            assert(graph@[r as int] == dag[r as int]);
            lemma_arity(dag, r);
        }
        let mut made: usize = r;
        match graph.op(r) {
            Op::Range { axis: _, kind } => {
                if kind != AxisType::Device {
                    let dtype = graph.dtype(r);
                    let srcs = sources(graph, r);
                    made = graph.node(
                        Op::Range { axis: AxisId::Unrenumbered(number), kind },
                        dtype,
                        srcs.as_slice(),
                    );
                    number += 1;
                }
            },
            _ => {},
        }
        fresh.push(made);
        n += 1;
    }
    (fresh, number)
}

fn put_staged(graph: &mut Graph, next: usize, id: usize) -> (made: (usize, usize))
    requires
        old(graph).wf(),
        id < old(graph)@.len(),
        next + id < usize::MAX,
    ensures
        grown(old(graph)@, *final(graph), staged(old(graph)@, next, id).0, made.0),
        made.1 == staged(old(graph)@, next, id).1,
        made.1 <= next + id + 1,
{
    let ghost dag = graph@;
    let dtype = graph.dtype(id);
    let loops = find_open_loops(graph, id);
    proof {
        lemma_open_loops(dag, id, dag.len());
    }
    let (fresh, after) = put_renewed(graph, next, &loops);
    let mut pairs: Vec<(usize, usize)> = Vec::new();
    let mut n: usize = 0;
    while n < loops.len()
        invariant
            n <= loops@.len(),
            fresh@.len() == loops@.len(),
            pairs@.len() == n,
            forall|i: int| 0 <= i < n ==> #[trigger] pairs@[i] == (loops@[i], fresh@[i]),
        decreases loops@.len() - n,
    {
        pairs.push((loops[n], fresh[n]));
        n += 1;
    }
    assert(pairs@ =~= paired(loops@, fresh@));
    let value: usize = substitute(graph, id, &pairs);
    let op = Op::Stage { space: AddrSpace::Global, removable: true };
    let stage: usize = graph.led(op, dtype, value, fresh.as_slice());
    let index: usize = graph.led(Op::Index, dtype, stage, loops.as_slice());
    (index, after)
}

/// Stages the operands of a node that takes more arguments than a device
/// allows. A node that does not, or that is not worked out element by element,
/// stays as it is.
pub fn limit_buffers(
    graph: &mut Graph,
    ctx: &mut IndexingContext,
    id: usize,
    max: usize,
) -> (new: usize)
    requires
        old(graph).wf(),
        id < old(graph)@.len(),
        old(ctx).next + 3 * id <= usize::MAX,
    ensures
        grown(old(graph)@, *final(graph), limited(old(graph)@, old(ctx).next, id, max).0, new),
        final(ctx).next == limited(old(graph)@, old(ctx).next, id, max).1,
        final(ctx).same_tables(old(ctx)),
{
    let ghost dag = graph@;
    let op = graph.op(id);
    if !is_elementwise(op) || count_arguments(graph, id) < max {
        return id;
    }
    proof {
        lemma_arity(dag, id);
    }
    let dtype = graph.dtype(id);
    let srcs = sources(graph, id);
    let ghost start = ctx.next;
    let mut next: usize = ctx.next;
    let mut made: Vec<usize> = Vec::new();
    let mut n: usize = 0;
    while n < srcs.len()
        invariant
            n <= srcs@.len() <= 3,
            dag_wf(dag),
            graph.wf(),
            id < dag.len(),
            extends(dag, graph@),
            start + 3 * id <= usize::MAX,
            next <= start + n * id,
            forall|i: int| 0 <= i < srcs@.len() ==> (#[trigger] srcs@[i]) < id,
            made@.len() == n,
            graph@ == staged_sources(dag, start, srcs@, n as nat).dag,
            next == staged_sources(dag, start, srcs@, n as nat).next,
            made@ == staged_sources(dag, start, srcs@, n as nat).loops,
            forall|i: int| 0 <= i < made@.len() ==> (#[trigger] made@[i]) < graph@.len(),
        decreases srcs@.len() - n,
    {
        let src: usize = srcs[n];
        assert(graph@[src as int] == dag[src as int]);
        assert(n * id + id == (n + 1) * id) by (nonlinear_arith);
        assert((n + 1) * id <= 3 * id) by (nonlinear_arith)
            requires
                n < 3,
        ;
        if is_elementwise(graph.op(src)) {
            let (staged, after) = put_staged(graph, next, src);
            made.push(staged);
            next = after;
        } else {
            made.push(src);
        }
        n += 1;
    }
    ctx.next = next;
    graph.node(op, dtype, made.as_slice())
}

/// A kernel within the limit is left alone.
pub proof fn lemma_within_limit_is_kept(dag: Seq<NodeView>, next: usize, id: usize, max: usize)
    requires
        argument_count(dag, id, dag.len()) < max,
    ensures
        limited(dag, next, id, max) == (Built { dag, id }, next),
{
}

} // verus!
