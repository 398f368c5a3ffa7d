//! What a register holds: the loops that fill it, run step by step, leave the
//! reduction in it.

use vstd::prelude::*;

use crate::accumulate::{accumulated, behind, cell, combined, set_up, stepped};
use crate::args::{float_rank, magnitude, INFINITY};
use crate::builders::{const_node, end_node, extent_node, lemma_interned_keeps, put};
use crate::dce::where_node;
use crate::graph::{
    arity_ok, dag_wf, lemma_interned_wf, AddrSpace, BinaryOp, ConstValue, DType, NodeView, Op, ReduceOp,
};
use crate::late::pair_node;
use crate::limits::open_loops;
use crate::meaning::{is_whole, lemma_arity, lemma_meaning, lemma_meaning_extends, meaning};
use crate::passes::{extends, lemma_put};
use crate::reduce::{joined, range_size, reduction, step_at, steps, tallied};
use crate::scope::in_scope;
use crate::views::{is_float_type, start_of};

verus! {

/// What a node means while a given node has a number.
pub open spec fn meaning_while(
    dag: Seq<NodeView>,
    id: usize,
    at: spec_fn(Op) -> int,
    held: usize,
    x: int,
) -> Option<int>
    decreases id,
{
    if id == held {
        Some(x)
    } else {
        crate::meaning::combined(
            dag[id as int],
            at,
            |src: usize|
                if src < id {
                    meaning_while(dag, src, at, held, x)
                } else {
                    None
                },
        )
    }
}

proof fn lemma_meaning_while(
    dag: Seq<NodeView>,
    id: usize,
    at: spec_fn(Op) -> int,
    held: usize,
    x: int,
)
    requires
        dag_wf(dag),
        id < dag.len(),
        id != held,
    ensures
        meaning_while(dag, id, at, held, x) == crate::meaning::combined(
            dag[id as int],
            at,
            |src: usize| meaning_while(dag, src, at, held, x),
        ),
{
    let node = dag[id as int];
    lemma_arity(dag, id);
    if node.srcs.len() > 0 {
        assert(dag[id as int].srcs[0] < id);
    }
    if node.srcs.len() > 1 {
        assert(dag[id as int].srcs[1] < id);
    }
    if node.srcs.len() > 2 {
        assert(dag[id as int].srcs[2] < id);
    }
}

/// What means something without memory means the same whatever memory holds.
proof fn lemma_memory_is_ignored(
    dag: Seq<NodeView>,
    id: usize,
    at: spec_fn(Op) -> int,
    held: usize,
    x: int,
)
    requires
        dag_wf(dag),
        id < dag.len(),
        held < dag.len(),
        dag[held as int].op is Load,
        meaning(dag, id, at) is Some,
    ensures
        meaning_while(dag, id, at, held, x) == meaning(dag, id, at),
    decreases id,
{
    let node = dag[id as int];
    lemma_arity(dag, id);
    lemma_meaning(dag, id, at);
    assert(id != held);
    lemma_meaning_while(dag, id, at, held, x);
    if node.srcs.len() > 0 {
        assert(dag[id as int].srcs[0] < id);
        if meaning(dag, node.srcs[0], at) is Some {
            lemma_memory_is_ignored(dag, node.srcs[0], at, held, x);
        }
    }
    if node.srcs.len() > 1 {
        assert(dag[id as int].srcs[1] < id);
        if meaning(dag, node.srcs[1], at) is Some {
            lemma_memory_is_ignored(dag, node.srcs[1], at, held, x);
        }
    }
    if node.srcs.len() > 2 {
        assert(dag[id as int].srcs[2] < id);
        if meaning(dag, node.srcs[2], at) is Some {
            lemma_memory_is_ignored(dag, node.srcs[2], at, held, x);
        }
    }
}

/// What a register that holds `x` holds once some loops of constant extents have
/// run, the last loop outermost: each step stores what `next` means while the
/// read of the register gives what the step before has left.
pub open spec fn left_by_loops(
    dag: Seq<NodeView>,
    next: usize,
    held: usize,
    loops: Seq<usize>,
    at: spec_fn(Op) -> int,
    x: int,
) -> Option<int>
    decreases loops.len(), 1int, 0int,
{
    if loops.len() == 0 {
        meaning_while(dag, next, at, held, x)
    } else {
        match range_size(dag, loops.last()) {
            Some(n) => if n >= 0 {
                left_by_steps(dag, next, held, loops, at, x, n as nat)
            } else {
                None
            },
            None => None,
        }
    }
}

/// What a register holds once the first `n` steps of the outermost loop have
/// run.
pub open spec fn left_by_steps(
    dag: Seq<NodeView>,
    next: usize,
    held: usize,
    loops: Seq<usize>,
    at: spec_fn(Op) -> int,
    x: int,
    n: nat,
) -> Option<int>
    decreases loops.len(), 0int, n,
{
    if n == 0 || loops.len() == 0 {
        Some(x)
    } else {
        match left_by_steps(dag, next, held, loops, at, x, (n - 1) as nat) {
            Some(y) => left_by_loops(
                dag,
                next,
                held,
                loops.drop_last(),
                step_at(at, dag[loops.last() as int].op, n - 1),
                y,
            ),
            None => None,
        }
    }
}

proof fn lemma_joined(op: ReduceOp, a: int, b: int, c: int)
    ensures
        joined(op, joined(op, a, b), c) == joined(op, a, joined(op, b, c)),
        op == ReduceOp::Add ==> joined(op, a, 0) == a,
        op == ReduceOp::Mul ==> joined(op, a, 1) == a,
{
    assert((a * b) * c == a * (b * c)) by (nonlinear_arith);
    assert(a * 1 == a);
}

/// Whether a step takes in a value: it stores what the register holds and the
/// value are reduced to, whatever that is.
pub open spec fn takes_in(
    dag: Seq<NodeView>,
    op: ReduceOp,
    next: usize,
    held: usize,
    value: usize,
) -> bool {
    forall|at: spec_fn(Op) -> int, x: int|
        #![trigger meaning_while(dag, next, at, held, x)]
        meaning(dag, value, at) matches Some(v) ==> meaning_while(dag, next, at, held, x) == Some(
            joined(op, x, v),
        )
}

proof fn lemma_left_by_loops(
    dag: Seq<NodeView>,
    op: ReduceOp,
    next: usize,
    held: usize,
    value: usize,
    loops: Seq<usize>,
    at: spec_fn(Op) -> int,
    x: int,
)
    requires
        takes_in(dag, op, next, held, value),
        reduction(dag, op, value, loops, at) is Some,
    ensures
        left_by_loops(dag, next, held, loops, at, x) == Some(
            joined(op, x, reduction(dag, op, value, loops, at)->0),
        ),
    decreases loops.len(), 1int, 0int,
{
    if loops.len() > 0 {
        let n = range_size(dag, loops.last())->0 as nat;
        lemma_left_by_steps(dag, op, next, held, value, loops, at, x, n);
    } else {
        assert(meaning_while(dag, next, at, held, x) == Some(
            joined(op, x, meaning(dag, value, at)->0),
        ));
    }
}

proof fn lemma_left_by_steps(
    dag: Seq<NodeView>,
    op: ReduceOp,
    next: usize,
    held: usize,
    value: usize,
    loops: Seq<usize>,
    at: spec_fn(Op) -> int,
    x: int,
    n: nat,
)
    requires
        takes_in(dag, op, next, held, value),
        loops.len() > 0,
        tallied(op, n, steps(dag, op, value, loops, at)) is Some,
    ensures
        left_by_steps(dag, next, held, loops, at, x, n) == Some(
            joined(op, x, tallied(op, n, steps(dag, op, value, loops, at))->0),
        ),
    decreases loops.len(), 0int, n,
{
    let f = steps(dag, op, value, loops, at);
    if n == 0 {
        lemma_joined(op, x, 0, 0);
    } else {
        let inner = loops.drop_last();
        let now = step_at(at, dag[loops.last() as int].op, n - 1);
        assert(f(n - 1) == reduction(dag, op, value, inner, now));
        let few = n == 1 && (op == ReduceOp::Max || op == ReduceOp::Min);
        if few {
            assert(left_by_steps(dag, next, held, loops, at, x, 0) == Some(x));
            lemma_left_by_loops(dag, op, next, held, value, inner, now, x);
        } else {
            lemma_left_by_steps(dag, op, next, held, value, loops, at, x, (n - 1) as nat);
            let t = tallied(op, (n - 1) as nat, f)->0;
            let y = joined(op, x, t);
            lemma_left_by_loops(dag, op, next, held, value, inner, now, y);
            lemma_joined(op, x, t, f(n - 1)->0);
        }
    }
}

/// Whether a node is the element of a register.
pub open spec fn is_cell(dag: Seq<NodeView>, id: usize, base: usize) -> bool {
    let node = dag[id as int];
    &&& node.op is Index
    &&& node.srcs.len() == 2
    &&& node.srcs[0] == base
    &&& dag[node.srcs[1] as int].op == Op::Const(ConstValue::Int(0))
}

/// Whether a node is storage behind what it waits for.
pub open spec fn is_behind(dag: Seq<NodeView>, id: usize, storage: usize, waits: Seq<usize>) -> bool {
    if waits.len() == 0 {
        id == storage
    } else {
        dag[id as int].op is After && dag[id as int].srcs == seq![storage] + waits
    }
}

/// Whether a node reads the element of a register behind what it waits for.
pub open spec fn is_read(dag: Seq<NodeView>, id: usize, storage: usize, waits: Seq<usize>) -> bool {
    let node = dag[id as int];
    let base = dag[node.srcs[0] as int].srcs[0];
    &&& node.op is Load
    &&& node.srcs.len() == 1
    &&& is_cell(dag, node.srcs[0], base)
    &&& is_behind(dag, base, storage, waits)
}

/// Whether a node writes the element of a register, behind what it waits for.
pub open spec fn is_write(
    dag: Seq<NodeView>,
    id: usize,
    storage: usize,
    waits: Seq<usize>,
    value: usize,
) -> bool {
    let node = dag[id as int];
    let base = dag[node.srcs[0] as int].srcs[0];
    &&& node.op is Store
    &&& node.srcs.len() == 2
    &&& node.srcs[1] == value
    &&& is_cell(dag, node.srcs[0], base)
    &&& is_behind(dag, base, storage, waits)
}

/// A register in a graph, and what is done with it: it is set up, read and
/// written in each step, and read at last.
pub struct Filled {
    pub storage: usize,
    /// What it is set up with, and the store that does so.
    pub start: usize,
    pub first: usize,
    /// The read in each step, what the step stores, and the store.
    pub held: usize,
    pub next: usize,
    pub store: usize,
    /// What closes the loops.
    pub end: usize,
}

/// Whether a node reads a register once loops have filled it: the register is
/// set up inside the loops around, each step of the loops reads it after that
/// and writes it, and the read is behind all steps.
pub open spec fn is_filled(
    dag: Seq<NodeView>,
    read: usize,
    dtype: DType,
    r: Filled,
    outer: Seq<usize>,
    loops: Seq<usize>,
) -> bool {
    &&& dag[r.storage as int].op matches Op::Buffer { space: AddrSpace::Reg, size: 1, .. }
    &&& dag[r.storage as int].dtype == dtype
    &&& is_write(dag, r.first, r.storage, outer, r.start)
    &&& is_read(dag, r.held, r.storage, seq![r.first] + loops)
    &&& dag[r.held as int].dtype == dtype
    &&& is_write(dag, r.store, r.storage, Seq::empty(), r.next)
    &&& dag[r.end as int].op is End
    &&& dag[r.end as int].srcs == seq![r.store] + loops
    &&& is_read(dag, read, r.storage, seq![r.end])
    &&& dag[read as int].dtype == dtype
}

/// Whether a number is one of a type.
pub open spec fn is_number_of(n: int, dtype: DType) -> bool {
    match dtype {
        DType::Bool => 0 <= n <= 1,
        DType::Int8 => -0x80 <= n < 0x80,
        DType::Int16 => -0x8000 <= n < 0x8000,
        DType::Int32 => -0x8000_0000 <= n < 0x8000_0000,
        DType::UInt8 => 0 <= n < 0x100,
        DType::UInt16 => 0 <= n < 0x1_0000,
        DType::UInt32 => 0 <= n < 0x1_0000_0000,
        DType::UInt64 => 0 <= n < 0x1_0000_0000_0000_0000,
        _ => -0x8000_0000_0000_0000 <= n < 0x8000_0000_0000_0000,
    }
}

/// What a reduction of nothing gives changes no number of its type.
pub proof fn lemma_start_is_neutral(with: ReduceOp, dtype: DType, n: int)
    requires
        is_whole(dtype) || (dtype == DType::Bool && (with == ReduceOp::Max || with
            == ReduceOp::Min)),
        is_number_of(n, dtype),
    ensures
        crate::fold::number_of(start_of(with, dtype)) is Some,
        joined(with, crate::fold::number_of(start_of(with, dtype))->0, n) == n,
{
    assert(1 * n == n);
}

/// A least or a greatest float of nothing is beyond every float.
pub proof fn lemma_float_start_is_beyond(with: ReduceOp, dtype: DType, bits: u64)
    requires
        is_float_type(dtype),
        magnitude(bits) <= INFINITY,
    ensures
        start_of(with, dtype) matches ConstValue::Float(start) && (match with {
            ReduceOp::Max => float_rank(start) <= float_rank(bits),
            ReduceOp::Min => float_rank(bits) <= float_rank(start),
            ReduceOp::Add => start == 0,
            ReduceOp::Mul => start == crate::builders::ONE,
        }),
{
}

proof fn lemma_put_wf(dag: Seq<NodeView>, node: NodeView)
    requires
        dag_wf(dag),
        arity_ok(node.op, node.srcs.len()),
        forall|k: int| 0 <= k < node.srcs.len() ==> (#[trigger] node.srcs[k]) < dag.len(),
        put(dag, node).dag.len() <= usize::MAX,
    ensures
        holds(dag, put(dag, node).dag, put(dag, node).id, node),
{
    lemma_interned_keeps(dag, node);
    lemma_interned_wf(dag, node);
    lemma_put(dag, node);
}

/// Whether a graph has grown to one that holds a node.
spec fn holds(dag: Seq<NodeView>, more: Seq<NodeView>, id: usize, node: NodeView) -> bool {
    &&& dag_wf(more)
    &&& extends(dag, more)
    &&& id < more.len()
    &&& more[id as int] == node
}

proof fn lemma_behind_grows(dag: Seq<NodeView>, dtype: DType, storage: usize, waits: Seq<usize>)
    ensures
        dag.len() <= behind(dag, dtype, storage, waits).dag.len(),
{
    lemma_interned_keeps(dag, NodeView { op: Op::After, dtype, srcs: seq![storage] + waits });
}

proof fn lemma_behind(dag: Seq<NodeView>, dtype: DType, storage: usize, waits: Seq<usize>)
    requires
        dag_wf(dag),
        storage < dag.len(),
        forall|k: int| 0 <= k < waits.len() ==> (#[trigger] waits[k]) < dag.len(),
        behind(dag, dtype, storage, waits).dag.len() <= usize::MAX,
    ensures
        ({
            let new = behind(dag, dtype, storage, waits);
            &&& dag_wf(new.dag)
            &&& extends(dag, new.dag)
            &&& new.id < new.dag.len()
            &&& is_behind(new.dag, new.id, storage, waits)
        }),
{
    if waits.len() > 0 {
        let node = NodeView { op: Op::After, dtype, srcs: seq![storage] + waits };
        assert forall|k: int| 0 <= k < node.srcs.len() implies (#[trigger] node.srcs[k])
            < dag.len() by {
            if k > 0 {
                assert(node.srcs[k] == waits[k - 1]);
            }
        }
        lemma_put_wf(dag, node);
    }
}

proof fn lemma_behind_kept(
    dag: Seq<NodeView>,
    more: Seq<NodeView>,
    id: usize,
    storage: usize,
    waits: Seq<usize>,
)
    requires
        extends(dag, more),
        id < dag.len(),
        is_behind(dag, id, storage, waits),
    ensures
        is_behind(more, id, storage, waits),
{
    assert(more[id as int] == dag[id as int]);
}

proof fn lemma_combined_grows(
    dag: Seq<NodeView>,
    with: ReduceOp,
    dtype: DType,
    a: usize,
    b: usize,
)
    ensures
        dag.len() <= combined(dag, with, dtype, a, b).dag.len(),
{
    lemma_interned_keeps(dag, pair_node(BinaryOp::Add, dtype, a, b));
    lemma_interned_keeps(dag, pair_node(BinaryOp::Mul, dtype, a, b));
    lemma_interned_keeps(dag, pair_node(BinaryOp::Max, dtype, a, b));
    let test = pair_node(BinaryOp::Lt, DType::Bool, b, a);
    let less = put(dag, test);
    lemma_interned_keeps(dag, test);
    lemma_interned_keeps(less.dag, where_node(dtype, less.id, b, a));
    lemma_interned_keeps(less.dag, where_node(dtype, less.id, a, b));
}

/// What two values are put together to takes in the second, whatever the first
/// is.
proof fn lemma_combined(
    dag: Seq<NodeView>,
    more: Seq<NodeView>,
    with: ReduceOp,
    dtype: DType,
    held: usize,
    value: usize,
)
    requires
        dag_wf(dag),
        dag_wf(more),
        held < dag.len(),
        value < dag.len(),
        dag[held as int].op is Load,
        combined(dag, with, dtype, held, value).dag.len() <= usize::MAX,
        extends(combined(dag, with, dtype, held, value).dag, more),
    ensures
        takes_in(more, with, combined(dag, with, dtype, held, value).id, held, value),
{
    let new = combined(dag, with, dtype, held, value);
    let test = pair_node(BinaryOp::Lt, DType::Bool, value, held);
    let less = put(dag, test);
    if with == ReduceOp::Min {
        lemma_interned_keeps(dag, test);
        lemma_put_wf(dag, test);
        lemma_interned_keeps(less.dag, where_node(dtype, less.id, value, held));
        lemma_put_wf(less.dag, where_node(dtype, less.id, value, held));
        assert(more[less.id as int] == test);
    } else {
        let op = match with {
            ReduceOp::Add => BinaryOp::Add,
            ReduceOp::Mul => BinaryOp::Mul,
            _ => BinaryOp::Max,
        };
        lemma_put_wf(dag, pair_node(op, dtype, held, value));
        assert(more[new.id as int] == pair_node(op, dtype, held, value));
    }
    assert(more[held as int] == dag[held as int]);
    assert forall|at: spec_fn(Op) -> int, x: int|
        #![trigger meaning_while(more, new.id, at, held, x)]
        meaning(more, value, at) is Some implies meaning_while(more, new.id, at, held, x) == Some(
        joined(with, x, meaning(more, value, at)->0),
    ) by {
        lemma_memory_is_ignored(more, value, at, held, x);
        assert(meaning_while(more, held, at, held, x) == Some(x));
        lemma_meaning_while(more, new.id, at, held, x);
        if with == ReduceOp::Min {
            lemma_meaning_while(more, less.id, at, held, x);
        }
    }
}

proof fn lemma_combined_holds(
    dag: Seq<NodeView>,
    with: ReduceOp,
    dtype: DType,
    a: usize,
    b: usize,
)
    requires
        dag_wf(dag),
        a < dag.len(),
        b < dag.len(),
        combined(dag, with, dtype, a, b).dag.len() <= usize::MAX,
    ensures
        ({
            let new = combined(dag, with, dtype, a, b);
            &&& dag_wf(new.dag)
            &&& extends(dag, new.dag)
            &&& new.id < new.dag.len()
        }),
{
    match with {
        ReduceOp::Add => {
            lemma_put_wf(dag, pair_node(BinaryOp::Add, dtype, a, b));
        },
        ReduceOp::Mul => {
            lemma_put_wf(dag, pair_node(BinaryOp::Mul, dtype, a, b));
        },
        ReduceOp::Max => {
            lemma_put_wf(dag, pair_node(BinaryOp::Max, dtype, a, b));
        },
        ReduceOp::Min => {
            let test = pair_node(BinaryOp::Lt, DType::Bool, b, a);
            let less = put(dag, test);
            lemma_interned_keeps(less.dag, where_node(dtype, less.id, b, a));
            lemma_put_wf(dag, test);
            lemma_put_wf(less.dag, where_node(dtype, less.id, b, a));
        },
    }
}

/// The register that a reduction is set up with.
proof fn lemma_set_up(
    dag: Seq<NodeView>,
    dtype: DType,
    slot: usize,
    with: ReduceOp,
    outer: Seq<usize>,
) -> (start: usize)
    requires
        dag_wf(dag),
        forall|k: int| 0 <= k < outer.len() ==> (#[trigger] outer[k]) < dag.len(),
        set_up(dag, dtype, slot, with, outer).dag.len() <= usize::MAX,
    ensures
        ({
            let new = set_up(dag, dtype, slot, with, outer);
            &&& dag_wf(new.dag)
            &&& extends(dag, new.dag)
            &&& new.storage < new.dag.len()
            &&& new.zero < new.dag.len()
            &&& new.first < new.dag.len()
            &&& start < new.dag.len()
            &&& new.dag[new.storage as int].op == (Op::Buffer { slot, space: AddrSpace::Reg, size: 1 })
            &&& new.dag[new.storage as int].dtype == dtype
            &&& new.dag[new.zero as int].op == Op::Const(ConstValue::Int(0))
            &&& is_write(new.dag, new.first, new.storage, outer, start)
            &&& new.dag[start as int] == const_node(start_of(with, dtype), dtype)
        }),
{
    let stored = NodeView {
        op: Op::Buffer { slot, space: AddrSpace::Reg, size: 1 },
        dtype,
        srcs: Seq::empty(),
    };
    let storage = put(dag, stored);
    let zero = put(storage.dag, extent_node(0));
    let base = behind(zero.dag, dtype, storage.id, outer);
    let place = NodeView { op: Op::Index, dtype, srcs: seq![base.id, zero.id] };
    let target = cell(base.dag, dtype, base.id, zero.id);
    let value = const_node(start_of(with, dtype), dtype);
    let start = put(target.dag, value);
    let written = NodeView { op: Op::Store, dtype: DType::Void, srcs: seq![target.id, start.id] };
    let first = put(start.dag, written);
    lemma_interned_keeps(start.dag, written);
    lemma_interned_keeps(target.dag, value);
    lemma_interned_keeps(base.dag, place);
    lemma_behind_grows(zero.dag, dtype, storage.id, outer);
    lemma_interned_keeps(storage.dag, extent_node(0));
    lemma_put_wf(dag, stored);
    lemma_put_wf(storage.dag, extent_node(0));
    lemma_behind(zero.dag, dtype, storage.id, outer);
    lemma_put_wf(base.dag, place);
    lemma_put_wf(target.dag, value);
    lemma_put_wf(start.dag, written);
    assert(extends(base.dag, first.dag));
    lemma_behind_kept(base.dag, first.dag, base.id, storage.id, outer);
    assert(first.dag[target.id as int] == place);
    assert(first.dag[zero.id as int] == extent_node(0));
    assert(first.dag[storage.id as int] == stored);
    start.id
}

/// What a step of a reduction is made of: the read, what is stored, and the
/// store.
proof fn lemma_stepped(
    register: crate::accumulate::Register,
    with: ReduceOp,
    dtype: DType,
    value: usize,
    loops: Seq<usize>,
) -> (made: (usize, usize))
    requires
        dag_wf(register.dag),
        register.storage < register.dag.len(),
        register.zero < register.dag.len(),
        register.first < register.dag.len(),
        register.dag[register.zero as int].op == Op::Const(ConstValue::Int(0)),
        value < register.dag.len(),
        forall|k: int| 0 <= k < loops.len() ==> (#[trigger] loops[k]) < register.dag.len(),
        stepped(register, with, dtype, value, loops).dag.len() <= usize::MAX,
    ensures
        ({
            let new = stepped(register, with, dtype, value, loops);
            let (held, next) = made;
            &&& dag_wf(new.dag)
            &&& extends(register.dag, new.dag)
            &&& new.id < new.dag.len()
            &&& held < new.dag.len()
            &&& next < new.dag.len()
            &&& is_read(new.dag, held, register.storage, seq![register.first] + loops)
            &&& new.dag[held as int].dtype == dtype
            &&& is_write(new.dag, new.id, register.storage, Seq::empty(), next)
            &&& forall|more: Seq<NodeView>|
                dag_wf(more) && #[trigger] extends(new.dag, more) ==> takes_in(
                    more,
                    with,
                    next,
                    held,
                    value,
                )
        }),
{
    let waits = seq![register.first] + loops;
    let inside = behind(register.dag, dtype, register.storage, waits);
    let place = NodeView { op: Op::Index, dtype, srcs: seq![inside.id, register.zero] };
    let source = put(inside.dag, place);
    let read = NodeView { op: Op::Load, dtype, srcs: seq![source.id] };
    let held = put(source.dag, read);
    let next = combined(held.dag, with, dtype, held.id, value);
    let own = NodeView { op: Op::Index, dtype, srcs: seq![register.storage, register.zero] };
    let target = put(next.dag, own);
    let written = NodeView { op: Op::Store, dtype: DType::Void, srcs: seq![target.id, next.id] };
    let new = put(target.dag, written);
    assert(new == stepped(register, with, dtype, value, loops));
    lemma_interned_keeps(target.dag, written);
    lemma_interned_keeps(next.dag, own);
    lemma_combined_grows(held.dag, with, dtype, held.id, value);
    lemma_interned_keeps(source.dag, read);
    lemma_interned_keeps(inside.dag, place);
    assert forall|k: int| 0 <= k < waits.len() implies (#[trigger] waits[k]) < register.dag.len() by {
        if k > 0 {
            assert(waits[k] == loops[k - 1]);
        }
    }
    lemma_behind(register.dag, dtype, register.storage, waits);
    lemma_put_wf(inside.dag, place);
    lemma_put_wf(source.dag, read);
    lemma_combined_holds(held.dag, with, dtype, held.id, value);
    lemma_put_wf(next.dag, own);
    lemma_put_wf(target.dag, written);
    assert(extends(inside.dag, new.dag));
    lemma_behind_kept(inside.dag, new.dag, inside.id, register.storage, waits);
    assert(new.dag[source.id as int] == place);
    assert(new.dag[held.id as int] == read);
    assert(new.dag[target.id as int] == own);
    assert(new.dag[register.zero as int] == register.dag[register.zero as int]);
    assert forall|more: Seq<NodeView>|
        dag_wf(more) && #[trigger] extends(new.dag, more) implies takes_in(
        more,
        with,
        next.id,
        held.id,
        value,
    ) by {
        assert(extends(next.dag, more));
        lemma_combined(held.dag, more, with, dtype, held.id, value);
    }
    (held.id, next.id)
}

pub(crate) proof fn lemma_reduction_extends(
    dag: Seq<NodeView>,
    more: Seq<NodeView>,
    op: ReduceOp,
    value: usize,
    loops: Seq<usize>,
    at: spec_fn(Op) -> int,
)
    requires
        dag_wf(dag),
        dag_wf(more),
        extends(dag, more),
        value < dag.len(),
        forall|k: int| 0 <= k < loops.len() ==> (#[trigger] loops[k]) < dag.len(),
    ensures
        reduction(more, op, value, loops, at) == reduction(dag, op, value, loops, at),
    decreases loops.len(),
{
    if loops.len() == 0 {
        lemma_meaning_extends(dag, more, value, at);
    } else {
        let last = loops.last();
        assert(loops[loops.len() - 1] < dag.len());
        assert(more[last as int] == dag[last as int]);
        lemma_arity(dag, last);
        if dag[last as int].op is Range {
            assert(dag[last as int].srcs[0] < last);
            assert(more[dag[last as int].srcs[0] as int] == dag[dag[last as int].srcs[0] as int]);
        }
        let inner = loops.drop_last();
        assert forall|k: int| 0 <= k < inner.len() implies (#[trigger] inner[k]) < dag.len() by {
            assert(inner[k] == loops[k]);
        }
        let f = steps(more, op, value, loops, at);
        let g = steps(dag, op, value, loops, at);
        match range_size(dag, last) {
            Some(n) => {
                if n >= 0 {
                    assert forall|i: int| 0 <= i < n implies #[trigger] f(i) == g(i) by {
                        lemma_reduction_extends(
                            dag,
                            more,
                            op,
                            value,
                            inner,
                            step_at(at, dag[last as int].op, i),
                        );
                    }
                    crate::reduce::lemma_tallied_same(op, n as nat, f, g);
                }
            },
            None => {},
        }
    }
}

proof fn lemma_open_loops(dag: Seq<NodeView>, id: usize, n: nat)
    requires
        n <= dag.len() <= usize::MAX,
    ensures
        forall|r: usize|
            #[trigger] open_loops(dag, id, n).contains(r) <==> r < n && in_scope(dag, id, r),
        forall|k: int|
            0 <= k < open_loops(dag, id, n).len() ==> (#[trigger] open_loops(dag, id, n)[k]) < n,
    decreases n,
{
    if n > 0 {
        lemma_open_loops(dag, id, (n - 1) as nat);
        let rest = open_loops(dag, id, (n - 1) as nat);
        let last = (n - 1) as usize;
        assert forall|r: usize|
            #[trigger] open_loops(dag, id, n).contains(r) <==> r < n && in_scope(dag, id, r) by {
            assert(rest.contains(r) <==> r < n - 1 && in_scope(dag, id, r));
            crate::topo::lemma_push_contains(rest, last, r);
        }
    }
}

/// Whether some loops are those that a node runs in.
pub open spec fn are_around(dag: Seq<NodeView>, id: usize, outer: Seq<usize>) -> bool {
    forall|x: usize| #[trigger] outer.contains(x) <==> x < dag.len() && in_scope(dag, id, x)
}

/// Whether a reduction has whole numbers, and is one of its type.
pub open spec fn is_total(total: Option<int>, with: ReduceOp, dtype: DType) -> bool {
    &&& total is Some
    &&& is_whole(dtype) || (dtype == DType::Bool && (with == ReduceOp::Max || with
        == ReduceOp::Min))
    &&& is_number_of(total->0, dtype)
}

/// Whether the loops of a reduction leave it in a register.
pub open spec fn leaves_total(
    dag: Seq<NodeView>,
    r: Filled,
    loops: Seq<usize>,
    at: spec_fn(Op) -> int,
    total: Option<int>,
) -> bool {
    &&& meaning(dag, r.start, at) is Some
    &&& left_by_loops(dag, r.next, r.held, loops, at, meaning(dag, r.start, at)->0) == total
}

/// A reduction becomes the read of a register behind the loops of the reduction.
/// The register is set up inside the loops that the reduction runs in, each step
/// stores what the register holds and the value are reduced to, and so what is
/// read is what the value is reduced to over the loops, wherever that is a
/// number of the type.
pub proof fn lemma_register_is_filled_with_the_reduction(
    dag: Seq<NodeView>,
    id: usize,
    with: ReduceOp,
    at: spec_fn(Op) -> int,
)
    requires
        dag_wf(dag),
        id < dag.len() <= usize::MAX,
        dag[id as int].op == Op::Reduce(with),
        dag[id as int].srcs.len() > 1,
        accumulated(dag, id) is Some ==> accumulated(dag, id)->0.dag.len() <= usize::MAX,
    ensures
        accumulated(dag, id) is Some,
        ({
            let node = dag[id as int];
            let loops = node.srcs.skip(1);
            let new = accumulated(dag, id)->0;
            let total = reduction(dag, with, node.srcs[0], loops, at);
            exists|r: Filled, outer: Seq<usize>|
                {
                    &&& #[trigger] is_filled(new.dag, new.id, node.dtype, r, outer, loops)
                    &&& are_around(dag, id, outer)
                    &&& takes_in(new.dag, with, r.next, r.held, node.srcs[0])
                    &&& new.dag[r.start as int].op == Op::Const(start_of(with, node.dtype))
                    &&& is_total(total, with, node.dtype) ==> leaves_total(
                        new.dag,
                        r,
                        loops,
                        at,
                        total,
                    )
                }
        }),
{
    let node = dag[id as int];
    let loops = node.srcs.skip(1);
    let outer = open_loops(dag, id, dag.len());
    let new = accumulated(dag, id)->0;
    let r = lemma_accumulated(dag, id, with);
    lemma_open_loops(dag, id, dag.len());
    assert(are_around(dag, id, outer));
    let total = reduction(dag, with, node.srcs[0], loops, at);
    if is_total(total, with, node.dtype) {
        lemma_total(dag, new.dag, id, with, at, r);
    }
    assert(is_filled(new.dag, new.id, node.dtype, r, outer, loops));
}

proof fn lemma_total(
    dag: Seq<NodeView>,
    more: Seq<NodeView>,
    id: usize,
    with: ReduceOp,
    at: spec_fn(Op) -> int,
    r: Filled,
)
    requires
        dag_wf(dag),
        dag_wf(more),
        extends(dag, more),
        id < dag.len(),
        dag[id as int].srcs.len() > 1,
        r.start < more.len(),
        more[r.start as int] == const_node(
            start_of(with, dag[id as int].dtype),
            dag[id as int].dtype,
        ),
        takes_in(more, with, r.next, r.held, dag[id as int].srcs[0]),
        is_total(
            reduction(dag, with, dag[id as int].srcs[0], dag[id as int].srcs.skip(1), at),
            with,
            dag[id as int].dtype,
        ),
    ensures
        leaves_total(
            more,
            r,
            dag[id as int].srcs.skip(1),
            at,
            reduction(dag, with, dag[id as int].srcs[0], dag[id as int].srcs.skip(1), at),
        ),
{
    let node = dag[id as int];
    let value = node.srcs[0];
    let loops = node.srcs.skip(1);
    let total = reduction(dag, with, value, loops, at);
    lemma_start_is_neutral(with, node.dtype, total->0);
    lemma_meaning(more, r.start, at);
    assert forall|k: int| 0 <= k < loops.len() implies (#[trigger] loops[k]) < dag.len() by {
        assert(dag[id as int].srcs[k + 1] < id);
    }
    assert(dag[id as int].srcs[0] < id);
    lemma_reduction_extends(dag, more, with, value, loops, at);
    let x = meaning(more, r.start, at)->0;
    lemma_left_by_loops(more, with, r.next, r.held, value, loops, at, x);
}

/// What stands for a reduction.
#[verifier::rlimit(60)]
#[verifier::spinoff_prover]
proof fn lemma_accumulated(dag: Seq<NodeView>, id: usize, with: ReduceOp) -> (r: Filled)
    requires
        dag_wf(dag),
        id < dag.len() <= usize::MAX,
        dag[id as int].op == Op::Reduce(with),
        dag[id as int].srcs.len() > 1,
        accumulated(dag, id) is Some ==> accumulated(dag, id)->0.dag.len() <= usize::MAX,
    ensures
        accumulated(dag, id) is Some,
        ({
            let node = dag[id as int];
            let new = accumulated(dag, id)->0;
            &&& dag_wf(new.dag)
            &&& extends(dag, new.dag)
            &&& r.start < new.dag.len()
            &&& is_filled(
                new.dag,
                new.id,
                node.dtype,
                r,
                open_loops(dag, id, dag.len()),
                node.srcs.skip(1),
            )
            &&& new.dag[r.start as int] == const_node(start_of(with, node.dtype), node.dtype)
            &&& takes_in(new.dag, with, r.next, r.held, node.srcs[0])
        }),
{
    let node = dag[id as int];
    let dtype = node.dtype;
    let value = node.srcs[0];
    let loops = node.srcs.skip(1);
    let outer = open_loops(dag, id, dag.len());
    let register = set_up(dag, dtype, id, with, outer);
    let step = stepped(register, with, dtype, value, loops);
    let closed = end_node(step.id, loops);
    let end = put(step.dag, closed);
    let done = behind(end.dag, dtype, register.storage, seq![end.id]);
    let place = NodeView { op: Op::Index, dtype, srcs: seq![done.id, register.zero] };
    let source = put(done.dag, place);
    let read = NodeView { op: Op::Load, dtype, srcs: seq![source.id] };
    let new = put(source.dag, read);
    assert(accumulated(dag, id) == Some(new));
    lemma_interned_keeps(source.dag, read);
    lemma_interned_keeps(done.dag, place);
    lemma_behind_grows(end.dag, dtype, register.storage, seq![end.id]);
    lemma_interned_keeps(step.dag, closed);
    lemma_stepped_grows(register, with, dtype, value, loops);
    lemma_open_loops(dag, id, dag.len());
    assert forall|k: int| 0 <= k < loops.len() implies (#[trigger] loops[k]) < dag.len() by {
        assert(dag[id as int].srcs[k + 1] < id);
    }
    assert(dag[id as int].srcs[0] < id);
    let start = lemma_set_up(dag, dtype, id, with, outer);
    let (held, next) = lemma_stepped(register, with, dtype, value, loops);
    assert forall|k: int| 0 <= k < closed.srcs.len() implies (#[trigger] closed.srcs[k])
        < step.dag.len() by {
        if k > 0 {
            assert(closed.srcs[k] == loops[k - 1]);
        }
    }
    lemma_put_wf(step.dag, closed);
    lemma_behind(end.dag, dtype, register.storage, seq![end.id]);
    lemma_put_wf(done.dag, place);
    lemma_put_wf(source.dag, read);
    let r = Filled {
        storage: register.storage,
        start,
        first: register.first,
        held,
        next,
        store: step.id,
        end: end.id,
    };
    assert(extends(register.dag, new.dag));
    assert(extends(step.dag, new.dag));
    assert(extends(done.dag, new.dag));
    lemma_write_kept(register.dag, new.dag, register.first, register.storage, outer, start);
    lemma_read_kept(step.dag, new.dag, held, register.storage, seq![register.first] + loops);
    lemma_write_kept(step.dag, new.dag, step.id, register.storage, Seq::empty(), next);
    lemma_behind_kept(done.dag, new.dag, done.id, register.storage, seq![end.id]);
    assert(new.dag[end.id as int] == closed);
    assert(new.dag[source.id as int] == place);
    assert(new.dag[register.zero as int] == register.dag[register.zero as int]);
    assert(new.dag[register.storage as int] == register.dag[register.storage as int]);
    assert(new.dag[start as int] == register.dag[start as int]);
    assert(new.dag[held as int] == step.dag[held as int]);
    assert(takes_in(new.dag, with, next, held, value));
    r
}

proof fn lemma_stepped_grows(
    register: crate::accumulate::Register,
    with: ReduceOp,
    dtype: DType,
    value: usize,
    loops: Seq<usize>,
)
    ensures
        register.dag.len() <= stepped(register, with, dtype, value, loops).dag.len(),
{
    let waits = seq![register.first] + loops;
    let inside = behind(register.dag, dtype, register.storage, waits);
    let place = NodeView { op: Op::Index, dtype, srcs: seq![inside.id, register.zero] };
    let source = put(inside.dag, place);
    let read = NodeView { op: Op::Load, dtype, srcs: seq![source.id] };
    let held = put(source.dag, read);
    let next = combined(held.dag, with, dtype, held.id, value);
    let own = NodeView { op: Op::Index, dtype, srcs: seq![register.storage, register.zero] };
    let target = put(next.dag, own);
    let written = NodeView { op: Op::Store, dtype: DType::Void, srcs: seq![target.id, next.id] };
    lemma_behind_grows(register.dag, dtype, register.storage, waits);
    lemma_interned_keeps(inside.dag, place);
    lemma_interned_keeps(source.dag, read);
    lemma_combined_grows(held.dag, with, dtype, held.id, value);
    lemma_interned_keeps(next.dag, own);
    lemma_interned_keeps(target.dag, written);
}

proof fn lemma_read_kept(
    dag: Seq<NodeView>,
    more: Seq<NodeView>,
    id: usize,
    storage: usize,
    waits: Seq<usize>,
)
    requires
        dag_wf(dag),
        extends(dag, more),
        id < dag.len(),
        is_read(dag, id, storage, waits),
    ensures
        is_read(more, id, storage, waits),
{
    assert(more[id as int] == dag[id as int]);
    let place = dag[id as int].srcs[0];
    assert(dag[id as int].srcs[0] < id);
    assert(more[place as int] == dag[place as int]);
    assert(dag[place as int].srcs[0] < place && dag[place as int].srcs[1] < place);
    let zero = dag[place as int].srcs[1];
    assert(more[zero as int] == dag[zero as int]);
    lemma_behind_kept(dag, more, dag[place as int].srcs[0], storage, waits);
}

proof fn lemma_write_kept(
    dag: Seq<NodeView>,
    more: Seq<NodeView>,
    id: usize,
    storage: usize,
    waits: Seq<usize>,
    value: usize,
)
    requires
        dag_wf(dag),
        extends(dag, more),
        id < dag.len(),
        is_write(dag, id, storage, waits, value),
    ensures
        is_write(more, id, storage, waits, value),
{
    assert(more[id as int] == dag[id as int]);
    let place = dag[id as int].srcs[0];
    assert(dag[id as int].srcs[0] < id);
    assert(more[place as int] == dag[place as int]);
    assert(dag[place as int].srcs[0] < place && dag[place as int].srcs[1] < place);
    let zero = dag[place as int].srcs[1];
    assert(more[zero as int] == dag[zero as int]);
    lemma_behind_kept(dag, more, dag[place as int].srcs[0], storage, waits);
}

} // verus!
