//! Reductions as loops that fill registers.

use vstd::prelude::*;

use crate::builders::{const_node, end_node, extent_node, lemma_interned_keeps, put, Built};
use crate::contexts::{places_separated, separate_places};
use crate::dce::{put_where, where_node};
use crate::graph::{AddrSpace, BinaryOp, DType, Graph, NodeView, Op, ReduceOp};
use crate::late::{made, pair_node, put_pair};
use crate::limits::{find_open_loops, open_loops};
use crate::meaning::lemma_arity;
use crate::merge::{ends_merged, merge_register_read_ends};
use crate::passes::{extends, grown, rewrite, rewritten, sources, with_srcs, Pass};
use crate::reduce::{joined, tail, tallied};
use crate::views::{reduce_identity, start_of};

verus! {

/// A register in a graph: the storage, the place of its only element, and the
/// store that sets it up.
pub struct Register {
    pub dag: Seq<NodeView>,
    pub storage: usize,
    pub zero: usize,
    pub first: usize,
}

/// Storage behind what it waits for, if anything.
pub open spec fn behind(dag: Seq<NodeView>, dtype: DType, storage: usize, waits: Seq<usize>) -> Built {
    if waits.len() == 0 {
        Built { dag, id: storage }
    } else {
        put(dag, NodeView { op: Op::After, dtype, srcs: seq![storage] + waits })
    }
}

/// The element of a register.
pub open spec fn cell(dag: Seq<NodeView>, dtype: DType, storage: usize, zero: usize) -> Built {
    put(dag, NodeView { op: Op::Index, dtype, srcs: seq![storage, zero] })
}

/// A register that holds what a reduction of nothing gives, set up inside the
/// loops around the reduction.
pub open spec fn set_up(
    dag: Seq<NodeView>,
    dtype: DType,
    slot: usize,
    with: ReduceOp,
    outer: Seq<usize>,
) -> Register {
    let storage = put(
        dag,
        NodeView {
            op: Op::Buffer { slot, space: AddrSpace::Reg, size: 1 },
            dtype,
            srcs: Seq::empty(),
        },
    );
    let zero = put(storage.dag, extent_node(0));
    let base = behind(zero.dag, dtype, storage.id, outer);
    let target = cell(base.dag, dtype, base.id, zero.id);
    let start = put(target.dag, const_node(start_of(with, dtype), dtype));
    let first = put(
        start.dag,
        NodeView { op: Op::Store, dtype: DType::Void, srcs: seq![target.id, start.id] },
    );
    Register { dag: first.dag, storage: storage.id, zero: zero.id, first: first.id }
}

/// Two values reduced to one.
pub open spec fn combined(dag: Seq<NodeView>, with: ReduceOp, dtype: DType, a: usize, b: usize) -> Built {
    match with {
        ReduceOp::Add => put(dag, pair_node(BinaryOp::Add, dtype, a, b)),
        ReduceOp::Mul => put(dag, pair_node(BinaryOp::Mul, dtype, a, b)),
        ReduceOp::Max => put(dag, pair_node(BinaryOp::Max, dtype, a, b)),
        ReduceOp::Min => {
            let less = put(dag, pair_node(BinaryOp::Lt, DType::Bool, b, a));
            put(less.dag, where_node(dtype, less.id, b, a))
        },
    }
}

/// One step of a reduction: the register, read in the loops once it is set up,
/// takes in a value.
pub open spec fn stepped(
    register: Register,
    with: ReduceOp,
    dtype: DType,
    value: usize,
    loops: Seq<usize>,
) -> Built {
    let inside = behind(register.dag, dtype, register.storage, seq![register.first] + loops);
    let source = cell(inside.dag, dtype, inside.id, register.zero);
    let held = put(source.dag, NodeView { op: Op::Load, dtype, srcs: seq![source.id] });
    let next = combined(held.dag, with, dtype, held.id, value);
    let target = cell(next.dag, dtype, register.storage, register.zero);
    put(
        target.dag,
        NodeView { op: Op::Store, dtype: DType::Void, srcs: seq![target.id, next.id] },
    )
}

/// A reduction as loops that fill a register, which is read behind them.
pub open spec fn accumulated(dag: Seq<NodeView>, id: usize) -> Option<Built> {
    let node = dag[id as int];
    match node.op {
        Op::Reduce(with) if node.srcs.len() > 1 => {
            let loops = node.srcs.skip(1);
            let register = set_up(dag, node.dtype, id, with, open_loops(dag, id, dag.len()));
            let step = stepped(register, with, node.dtype, node.srcs[0], loops);
            let end = put(step.dag, end_node(step.id, loops));
            let done = behind(end.dag, node.dtype, register.storage, seq![end.id]);
            let source = cell(done.dag, node.dtype, done.id, register.zero);
            Some(
                put(
                    source.dag,
                    NodeView { op: Op::Load, dtype: node.dtype, srcs: seq![source.id] },
                ),
            )
        },
        _ => None,
    }
}

/// The first `n` nodes but those that do nothing.
pub open spec fn without_noops(dag: Seq<NodeView>, srcs: Seq<usize>, n: nat) -> Seq<usize>
    decreases n,
{
    if n == 0 {
        Seq::empty()
    } else {
        let rest = without_noops(dag, srcs, (n - 1) as nat);
        if dag[srcs[n - 1] as int].op is Noop {
            rest
        } else {
            rest.push(srcs[n - 1])
        }
    }
}

/// A group or a sink without what does nothing; a group of one node is the
/// node.
pub open spec fn ungrouped(dag: Seq<NodeView>, id: usize) -> Option<Built> {
    let node = dag[id as int];
    if node.op is Group && node.srcs.len() == 1 {
        Some(Built { dag, id: node.srcs[0] })
    } else if node.op is Group || node.op is Sink {
        let kept = without_noops(dag, node.srcs, node.srcs.len());
        if kept.len() < node.srcs.len() {
            Some(put(dag, with_srcs(node, kept)))
        } else {
            None
        }
    } else {
        None
    }
}

fn put_behind(graph: &mut Graph, dtype: DType, storage: usize, waits: &Vec<usize>) -> (id: usize)
    requires
        old(graph).wf(),
        storage < old(graph)@.len(),
        forall|i: int| 0 <= i < waits@.len() ==> (#[trigger] waits@[i]) < old(graph)@.len(),
    ensures
        grown(old(graph)@, *final(graph), behind(old(graph)@, dtype, storage, waits@), id),
{
    if waits.len() == 0 {
        return storage;
    }
    let ghost held = graph@;
    proof {
        lemma_interned_keeps(
            held,
            NodeView { op: Op::After, dtype, srcs: seq![storage] + waits@ },
        );
    }
    graph.led(Op::After, dtype, storage, waits.as_slice())
}

fn put_cell(graph: &mut Graph, dtype: DType, storage: usize, zero: usize) -> (id: usize)
    requires
        old(graph).wf(),
        storage < old(graph)@.len(),
        zero < old(graph)@.len(),
    ensures
        grown(old(graph)@, *final(graph), cell(old(graph)@, dtype, storage, zero), id),
{
    let ghost held = graph@;
    proof {
        lemma_interned_keeps(
            held,
            NodeView { op: Op::Index, dtype, srcs: seq![storage, zero] },
        );
    }
    graph.binary(Op::Index, dtype, storage, zero)
}

fn put_store(graph: &mut Graph, target: usize, value: usize) -> (id: usize)
    requires
        old(graph).wf(),
        target < old(graph)@.len(),
        value < old(graph)@.len(),
    ensures
        grown(
            old(graph)@,
            *final(graph),
            put(
                old(graph)@,
                NodeView { op: Op::Store, dtype: DType::Void, srcs: seq![target, value] },
            ),
            id,
        ),
{
    let ghost held = graph@;
    proof {
        lemma_interned_keeps(
            held,
            NodeView { op: Op::Store, dtype: DType::Void, srcs: seq![target, value] },
        );
    }
    graph.binary(Op::Store, DType::Void, target, value)
}

fn put_load(graph: &mut Graph, dtype: DType, source: usize) -> (id: usize)
    requires
        old(graph).wf(),
        source < old(graph)@.len(),
    ensures
        grown(
            old(graph)@,
            *final(graph),
            put(old(graph)@, NodeView { op: Op::Load, dtype, srcs: seq![source] }),
            id,
        ),
{
    let ghost held = graph@;
    proof {
        lemma_interned_keeps(held, NodeView { op: Op::Load, dtype, srcs: seq![source] });
    }
    graph.unary(Op::Load, dtype, source)
}

/// The storage of a register, the place of its element and the store that sets
/// it up.
struct Cell {
    storage: usize,
    zero: usize,
    first: usize,
}

fn put_register(graph: &mut Graph, dtype: DType, slot: usize, with: ReduceOp, outer: &Vec<usize>) -> (made: Cell)
    requires
        old(graph).wf(),
        forall|i: int| 0 <= i < outer@.len() ==> (#[trigger] outer@[i]) < old(graph)@.len(),
    ensures
        ({
            let register = set_up(old(graph)@, dtype, slot, with, outer@);
            &&& final(graph).wf()
            &&& extends(old(graph)@, final(graph)@)
            &&& final(graph)@ == register.dag
            &&& made.storage == register.storage
            &&& made.zero == register.zero
            &&& made.first == register.first
            &&& made.storage < final(graph)@.len()
            &&& made.zero < final(graph)@.len()
            &&& made.first < final(graph)@.len()
        }),
{
    let ghost dag = graph@;
    let op = Op::Buffer { slot, space: AddrSpace::Reg, size: 1 };
    let storage: usize = graph.leaf(op, dtype);
    let ghost stored = graph@;
    proof {
        lemma_interned_keeps(dag, NodeView { op, dtype, srcs: Seq::empty() });
        lemma_interned_keeps(stored, extent_node(0));
    }
    let zero: usize = graph.index_const(0);
    let base: usize = put_behind(graph, dtype, storage, outer);
    let target: usize = put_cell(graph, dtype, base, zero);
    let value = reduce_identity(with, dtype);
    let ghost celled = graph@;
    proof {
        lemma_interned_keeps(celled, const_node(value, dtype));
    }
    let start: usize = graph.constant(value, dtype);
    let first: usize = put_store(graph, target, start);
    Cell { storage, zero, first }
}

fn put_combined(graph: &mut Graph, with: ReduceOp, dtype: DType, a: usize, b: usize) -> (id: usize)
    requires
        old(graph).wf(),
        a < old(graph)@.len(),
        b < old(graph)@.len(),
    ensures
        grown(old(graph)@, *final(graph), combined(old(graph)@, with, dtype, a, b), id),
{
    match with {
        ReduceOp::Add => put_pair(graph, BinaryOp::Add, dtype, a, b),
        ReduceOp::Mul => put_pair(graph, BinaryOp::Mul, dtype, a, b),
        ReduceOp::Max => put_pair(graph, BinaryOp::Max, dtype, a, b),
        ReduceOp::Min => {
            let less: usize = put_pair(graph, BinaryOp::Lt, DType::Bool, b, a);
            put_where(graph, dtype, less, b, a)
        },
    }
}

fn put_step(
    graph: &mut Graph,
    register: &Cell,
    with: ReduceOp,
    dtype: DType,
    value: usize,
    loops: &Vec<usize>,
) -> (id: usize)
    requires
        old(graph).wf(),
        register.storage < old(graph)@.len(),
        register.zero < old(graph)@.len(),
        register.first < old(graph)@.len(),
        value < old(graph)@.len(),
        forall|i: int| 0 <= i < loops@.len() ==> (#[trigger] loops@[i]) < old(graph)@.len(),
    ensures
        ({
            let from = Register {
                dag: old(graph)@,
                storage: register.storage,
                zero: register.zero,
                first: register.first,
            };
            grown(old(graph)@, *final(graph), stepped(from, with, dtype, value, loops@), id)
        }),
{
    let mut waits: Vec<usize> = Vec::new();
    waits.push(register.first);
    let mut k: usize = 0;
    while k < loops.len()
        invariant
            k <= loops@.len(),
            waits@ == seq![register.first] + loops@.take(k as int),
        decreases loops@.len() - k,
    {
        waits.push(loops[k]);
        k += 1;
        assert(waits@ =~= seq![register.first] + loops@.take(k as int));
    }
    assert(waits@ =~= seq![register.first] + loops@);
    assert forall|i: int| 0 <= i < waits@.len() implies (#[trigger] waits@[i]) < graph@.len() by {
        if i > 0 {
            assert(waits@[i] == loops@[i - 1]);
        }
    }
    let inside: usize = put_behind(graph, dtype, register.storage, &waits);
    let source: usize = put_cell(graph, dtype, inside, register.zero);
    let held: usize = put_load(graph, dtype, source);
    let next: usize = put_combined(graph, with, dtype, held, value);
    let target: usize = put_cell(graph, dtype, register.storage, register.zero);
    put_store(graph, target, next)
}

/// Makes loops that fill a register of a reduction; see `accumulated`.
pub fn accumulate(graph: &mut Graph, id: usize) -> (new: Option<usize>)
    requires
        old(graph).wf(),
        id < old(graph)@.len(),
    ensures
        made(old(graph)@, *final(graph), accumulated(old(graph)@, id), new),
{
    let ghost dag = graph@;
    proof {
        lemma_arity(dag, id);
    }
    let with = match graph.op(id) {
        Op::Reduce(with) => with,
        _ => {
            return None;
        },
    };
    if graph.source_count(id) <= 1 {
        return None;
    }
    let dtype = graph.dtype(id);
    let list = sources(graph, id);
    let loops = tail(&list);
    assert forall|i: int| 0 <= i < loops@.len() implies (#[trigger] loops@[i]) < dag.len() by {
        assert(loops@[i] == list@[i + 1]);
    }
    let outer = find_open_loops(graph, id);
    let register = put_register(graph, dtype, id, with, &outer);
    let step: usize = put_step(graph, &register, with, dtype, list[0], &loops);
    let ghost stored = graph@;
    proof {
        lemma_interned_keeps(stored, end_node(step, loops@));
    }
    let end: usize = graph.end(step, loops.as_slice());
    let mut waits: Vec<usize> = Vec::new();
    waits.push(end);
    assert(waits@ =~= seq![end]);
    let done: usize = put_behind(graph, dtype, register.storage, &waits);
    let source: usize = put_cell(graph, dtype, done, register.zero);
    Some(put_load(graph, dtype, source))
}

/// Drops what does nothing from a group or a sink; see `ungrouped`.
pub fn clean_up_group_sink(graph: &mut Graph, id: usize) -> (new: Option<usize>)
    requires
        old(graph).wf(),
        id < old(graph)@.len(),
    ensures
        made(old(graph)@, *final(graph), ungrouped(old(graph)@, id), new),
{
    let ghost dag = graph@;
    let op = graph.op(id);
    match op {
        Op::Group | Op::Sink => {},
        _ => {
            return None;
        },
    }
    let srcs = sources(graph, id);
    if srcs.len() == 1 && matches!(op, Op::Group) {
        return Some(srcs[0]);
    }
    let dtype = graph.dtype(id);
    let mut kept: Vec<usize> = Vec::new();
    let mut n: usize = 0;
    while n < srcs.len()
        invariant
            graph.wf(),
            graph@ == dag,
            id < dag.len(),
            srcs@ == dag[id as int].srcs,
            n <= srcs@.len(),
            kept@ == without_noops(dag, srcs@, n as nat),
            kept@.len() <= n,
            forall|k: int| 0 <= k < kept@.len() ==> (#[trigger] kept@[k]) < dag.len(),
        decreases srcs@.len() - n,
    {
        let src: usize = srcs[n];
        assert(dag[id as int].srcs[n as int] < id);
        if !matches!(graph.op(src), Op::Noop) {
            kept.push(src);
        }
        n += 1;
    }
    if kept.len() == srcs.len() {
        return None;
    }
    proof {
        lemma_interned_keeps(dag, NodeView { op, dtype, srcs: kept@ });
    }
    Some(graph.node(op, dtype, kept.as_slice()))
}

/// Gives reductions in different places loops of their own, turns them into
/// loops that fill registers, closes the same loops together, and drops what
/// does nothing.
pub fn apply_pm_reduce(graph: &mut Graph, root: usize) -> (new: usize)
    requires
        old(graph).wf(),
        root < old(graph)@.len(),
    ensures
        final(graph).wf(),
        extends(old(graph)@, final(graph)@),
        new < final(graph)@.len(),
        ({
            let placed = places_separated(old(graph)@, root);
            let filled = rewritten(Pass::Accumulate, placed.dag, placed.id);
            let merged = ends_merged(filled.dag, filled.id);
            let done = rewritten(Pass::Ungroup, merged.dag, merged.id);
            final(graph)@ == done.dag && new == done.id
        }),
{
    let placed: usize = separate_places(graph, root);
    let filled: usize = rewrite(graph, Pass::Accumulate, placed);
    let merged: usize = merge_register_read_ends(graph, filled);
    rewrite(graph, Pass::Ungroup, merged)
}

/// What a register holds after the first `n` steps of a loop.
pub open spec fn held_after(op: ReduceOp, start: int, n: nat, f: spec_fn(int) -> int) -> int
    decreases n,
{
    if n == 0 {
        start
    } else {
        joined(op, held_after(op, start, (n - 1) as nat, f), f(n - 1))
    }
}

/// A register that starts with what a reduction of nothing gives holds the
/// reduction of the steps, as soon as there is one.
pub proof fn lemma_register_holds_the_reduction(
    op: ReduceOp,
    start: int,
    n: nat,
    f: spec_fn(int) -> int,
)
    requires
        n > 0,
        match op {
            ReduceOp::Add => start == 0,
            ReduceOp::Mul => start == 1,
            ReduceOp::Max => start <= f(0),
            ReduceOp::Min => f(0) <= start,
        },
    ensures
        tallied(op, n, |i: int| Some(f(i))) == Some(held_after(op, start, n, f)),
    decreases n,
{
    let g = |i: int| Some(f(i));
    if n == 1 {
        assert(held_after(op, start, 0, f) == start);
        assert(held_after(op, start, 1, f) == joined(op, start, f(0)));
        assert(tallied(op, 0, g) == match op {
            ReduceOp::Add => Some(0int),
            ReduceOp::Mul => Some(1int),
            _ => None,
        });
        assert(joined(op, start, f(0)) == f(0)) by {
            assert(1 * f(0) == f(0));
        }
    } else {
        lemma_register_holds_the_reduction(op, start, (n - 1) as nat, f);
    }
}

} // verus!
