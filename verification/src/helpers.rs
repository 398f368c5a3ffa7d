//! Samples of graphs, and questions about graphs.

use vstd::prelude::*;

use crate::graph::{arity_ok, dag_wf, AddrSpace, ConstValue, Graph, NodeView, Op};
use crate::scope::in_scope;
use crate::topo::{lemma_topo, reaches, topo};

verus! {

/// The kinds of nodes that are counted.
#[derive(Clone, Copy, Debug, PartialEq, Eq, Structural)]
pub enum Kind {
    Load,
    Store,
    End,
    Reg,
    Stage,
    Call,
    Range,
    Index,
    Invalid,
}

/// Whether an operation is of a kind.
pub open spec fn is_kind(kind: Kind, op: Op) -> bool {
    match kind {
        Kind::Load => op is Load,
        Kind::Store => op is Store,
        Kind::End => op is End,
        Kind::Reg => op matches Op::Buffer { space: AddrSpace::Reg, .. },
        Kind::Stage => op is Stage,
        Kind::Call => op is Call,
        Kind::Range => op is Range,
        Kind::Index => op is Index,
        Kind::Invalid => op == Op::Const(ConstValue::Invalid),
    }
}

/// How many of the first `n` nodes of a walk are of a kind.
pub open spec fn tally(dag: Seq<NodeView>, walk: Seq<usize>, kind: Kind, n: nat) -> nat
    decreases n,
{
    if n == 0 {
        0
    } else {
        tally(dag, walk, kind, (n - 1) as nat) + if is_kind(kind, dag[walk[n - 1] as int].op) {
            1nat
        } else {
            0nat
        }
    }
}

/// How many nodes at and below a root are of a kind.
pub open spec fn count_of(dag: Seq<NodeView>, root: usize, kind: Kind) -> nat {
    tally(dag, topo(dag, root), kind, topo(dag, root).len())
}

fn of_kind(kind: Kind, op: Op) -> (r: bool)
    ensures
        r == is_kind(kind, op),
{
    match (kind, op) {
        (Kind::Load, Op::Load) => true,
        (Kind::Store, Op::Store) => true,
        (Kind::End, Op::End) => true,
        (Kind::Reg, Op::Buffer { space: AddrSpace::Reg, .. }) => true,
        (Kind::Stage, Op::Stage { .. }) => true,
        (Kind::Call, Op::Call) => true,
        (Kind::Range, Op::Range { .. }) => true,
        (Kind::Index, Op::Index) => true,
        (Kind::Invalid, Op::Const(ConstValue::Invalid)) => true,
        _ => false,
    }
}

proof fn lemma_tally(dag: Seq<NodeView>, walk: Seq<usize>, kind: Kind, n: nat)
    requires
        n <= walk.len(),
    ensures
        tally(dag, walk, kind, n) <= n,
        tally(dag, walk, kind, n) == 0 <==> forall|i: int|
            0 <= i < n ==> !is_kind(kind, dag[(#[trigger] walk[i]) as int].op),
    decreases n,
{
    if n > 0 {
        lemma_tally(dag, walk, kind, (n - 1) as nat);
        if tally(dag, walk, kind, n) == 0 {
            assert forall|i: int| 0 <= i < n implies !is_kind(
                kind,
                dag[(#[trigger] walk[i]) as int].op,
            ) by {
                if i < n - 1 {
                    assert(!is_kind(kind, dag[walk[i] as int].op));
                }
            }
        }
    }
}

/// Nothing of a kind is counted if and only if nothing below is of the kind.
pub proof fn lemma_count_is_zero(dag: Seq<NodeView>, root: usize, kind: Kind)
    requires
        dag_wf(dag),
        root < dag.len(),
    ensures
        count_of(dag, root, kind) == 0 <==> forall|x: usize| #[trigger]
            reaches(dag, root, x) ==> !is_kind(kind, dag[x as int].op),
{
    let walk = topo(dag, root);
    lemma_topo(dag, root);
    lemma_tally(dag, walk, kind, walk.len());
    if count_of(dag, root, kind) == 0 {
        assert forall|x: usize| #[trigger] reaches(dag, root, x) implies !is_kind(
            kind,
            dag[x as int].op,
        ) by {
            assert(walk.contains(x));
            let i = choose|i: int| 0 <= i < walk.len() && walk[i] == x;
            assert(!is_kind(kind, dag[walk[i] as int].op));
        }
    }
    if forall|x: usize| #[trigger] reaches(dag, root, x) ==> !is_kind(kind, dag[x as int].op) {
        assert forall|i: int| 0 <= i < walk.len() implies !is_kind(
            kind,
            dag[(#[trigger] walk[i]) as int].op,
        ) by {
            assert(walk.contains(walk[i]));
        }
    }
}

/// How many nodes at and below a root are of a kind.
pub fn count(graph: &Graph, root: usize, kind: Kind) -> (found: usize)
    requires
        graph.wf(),
        root < graph@.len(),
    ensures
        found == count_of(graph@, root, kind),
{
    let walk = graph.toposort(root);
    let mut found: usize = 0;
    let mut at: usize = 0;
    while at < walk.len()
        invariant
            graph.wf(),
            forall|i: int| 0 <= i < walk@.len() ==> (#[trigger] walk@[i]) < graph@.len(),
            at <= walk@.len(),
            found <= at,
            found == tally(graph@, walk@, kind, at as nat),
        decreases walk@.len() - at,
    {
        if of_kind(kind, graph.op(walk[at])) {
            found += 1;
        }
        at += 1;
    }
    found
}

/// The number of loads at and below a root.
pub fn loads(graph: &Graph, root: usize) -> (found: usize)
    requires
        graph.wf(),
        root < graph@.len(),
    ensures
        found == count_of(graph@, root, Kind::Load),
{
    count(graph, root, Kind::Load)
}

/// The number of stores at and below a root.
pub fn stores(graph: &Graph, root: usize) -> (found: usize)
    requires
        graph.wf(),
        root < graph@.len(),
    ensures
        found == count_of(graph@, root, Kind::Store),
{
    count(graph, root, Kind::Store)
}

/// The number of ends at and below a root.
pub fn ends(graph: &Graph, root: usize) -> (found: usize)
    requires
        graph.wf(),
        root < graph@.len(),
    ensures
        found == count_of(graph@, root, Kind::End),
{
    count(graph, root, Kind::End)
}

/// The number of register buffers at and below a root.
pub fn regs(graph: &Graph, root: usize) -> (found: usize)
    requires
        graph.wf(),
        root < graph@.len(),
    ensures
        found == count_of(graph@, root, Kind::Reg),
{
    count(graph, root, Kind::Reg)
}

/// The number of stages at and below a root.
pub fn count_stages(graph: &Graph, root: usize) -> (found: usize)
    requires
        graph.wf(),
        root < graph@.len(),
    ensures
        found == count_of(graph@, root, Kind::Stage),
{
    count(graph, root, Kind::Stage)
}

/// Whether a node at or below a root is of a kind.
pub fn any_op(graph: &Graph, root: usize, kind: Kind) -> (found: bool)
    requires
        graph.wf(),
        root < graph@.len(),
    ensures
        found == exists|x: usize| #[trigger]
            reaches(graph@, root, x) && is_kind(kind, graph@[x as int].op),
{
    let found: usize = count(graph, root, kind);
    proof {
        lemma_count_is_zero(graph@, root, kind);
    }
    found > 0
}

/// Whether no invalid value is left at and below a root.
pub fn assert_no_invalid(graph: &Graph, root: usize) -> (clean: bool)
    requires
        graph.wf(),
        root < graph@.len(),
    ensures
        clean == forall|x: usize| #[trigger]
            reaches(graph@, root, x) ==> graph@[x as int].op != Op::Const(ConstValue::Invalid),
{
    !any_op(graph, root, Kind::Invalid)
}

/// Whether no range stands at or below a node, closed or not.
pub fn no_range_oracle(graph: &Graph, root: usize) -> (none: bool)
    requires
        graph.wf(),
        root < graph@.len(),
    ensures
        none == forall|x: usize| #[trigger]
            reaches(graph@, root, x) ==> !(graph@[x as int].op is Range),
{
    !any_op(graph, root, Kind::Range)
}

/// Whether nothing at or below a node reads an indexed address.
pub fn no_load_oracle(graph: &Graph, root: usize) -> (none: bool)
    requires
        graph.wf(),
        root < graph@.len(),
    ensures
        none == forall|x: usize| #[trigger]
            reaches(graph@, root, x) ==> !(graph@[x as int].op is Index),
{
    !any_op(graph, root, Kind::Index)
}

/// A node without ranges below it runs in no loop.
pub proof fn lemma_no_range_no_scope(dag: Seq<NodeView>, id: usize, r: usize)
    requires
        dag_wf(dag),
        id < dag.len(),
        forall|x: usize| #[trigger] reaches(dag, id, x) ==> !(dag[x as int].op is Range),
    ensures
        !in_scope(dag, id, r),
{
    if in_scope(dag, id, r) {
        crate::scope::lemma_scope_is_range_below(dag, id, r);
    }
}

/// The constant that a node is.
pub fn const_value(graph: &Graph, id: usize) -> (value: Option<ConstValue>)
    requires
        id < graph@.len(),
    ensures
        value == match graph@[id as int].op {
            Op::Const(value) => Some(value),
            _ => None,
        },
{
    match graph.op(id) {
        Op::Const(value) => Some(value),
        _ => None,
    }
}

/// The first call of a result: itself, in the order of a sink's sources or of
/// what an `After` waits for, or in the computation of an `End`.
pub open spec fn kernel_of(dag: Seq<NodeView>, id: usize) -> Option<usize>
    decreases id, 1int, 0int,
{
    let node = dag[id as int];
    match node.op {
        Op::Call => Some(id),
        Op::After => kernel_from(dag, id, 1),
        Op::Sink => kernel_from(dag, id, 0),
        Op::End => if node.srcs.len() > 0 && node.srcs[0] < id {
            kernel_of(dag, node.srcs[0])
        } else {
            None
        },
        _ => None,
    }
}

/// The first call of the sources from position `k` on.
pub open spec fn kernel_from(dag: Seq<NodeView>, id: usize, k: int) -> Option<usize>
    decreases id, 0int, dag[id as int].srcs.len() - k,
{
    if k < 0 || k >= dag[id as int].srcs.len() || dag[id as int].srcs[k] >= id {
        None
    } else if kernel_of(dag, dag[id as int].srcs[k]) is Some {
        kernel_of(dag, dag[id as int].srcs[k])
    } else {
        kernel_from(dag, id, k + 1)
    }
}

/// The first call of a result.
pub fn extract_kernel(graph: &Graph, id: usize) -> (found: Option<usize>)
    requires
        graph.wf(),
        id < graph@.len(),
    ensures
        found == kernel_of(graph@, id),
    decreases id,
{
    let ghost dag = graph@;
    let count: usize = graph.source_count(id);
    assert(arity_ok(dag[id as int].op, dag[id as int].srcs.len()));
    match graph.op(id) {
        Op::Call => Some(id),
        Op::End => {
            let src: usize = graph.source(id, 0);
            extract_kernel(graph, src)
        },
        Op::After | Op::Sink => {
            let start: usize = match graph.op(id) {
                Op::After => 1,
                _ => 0,
            };
            let mut k: usize = start;
            while k < count
                invariant
                    graph.wf(),
                    dag == graph@,
                    id < dag.len(),
                    count == dag[id as int].srcs.len(),
                    kernel_of(dag, id) == kernel_from(dag, id, k as int),
                decreases count - k,
            {
                let src: usize = graph.source(id, k);
                let found = extract_kernel(graph, src);
                if found.is_some() {
                    return found;
                }
                k += 1;
            }
            None
        },
        _ => None,
    }
}

/// The number of ranges that an `End`, or the ends of a sink, close.
pub open spec fn closed_ranges(dag: Seq<NodeView>, id: usize) -> nat
    decreases id, 1int, 0int,
{
    let node = dag[id as int];
    if node.op is End {
        (node.srcs.len() - 1) as nat
    } else if node.op is Sink {
        closed_upto(dag, id, node.srcs.len())
    } else {
        0
    }
}

/// The number of ranges that the first `n` sources close.
pub open spec fn closed_upto(dag: Seq<NodeView>, id: usize, n: nat) -> nat
    decreases id, 0int, n,
{
    if n == 0 || n > dag[id as int].srcs.len() || dag[id as int].srcs[n - 1] >= id {
        0
    } else {
        closed_upto(dag, id, (n - 1) as nat) + closed_ranges(dag, dag[id as int].srcs[n - 1])
    }
}

proof fn lemma_closed_grows(dag: Seq<NodeView>, id: usize, n: nat)
    requires
        dag_wf(dag),
        id < dag.len(),
        n <= dag[id as int].srcs.len(),
    ensures
        closed_upto(dag, id, n) <= closed_upto(dag, id, dag[id as int].srcs.len()),
    decreases dag[id as int].srcs.len() - n,
{
    if n < dag[id as int].srcs.len() {
        assert(dag[id as int].srcs[n as int] < id);
        lemma_closed_grows(dag, id, n + 1);
    }
}

/// The number of ranges that an `End`, or the ends of a sink, close.
pub fn closed_range_count(graph: &Graph, id: usize) -> (closed: usize)
    requires
        graph.wf(),
        id < graph@.len(),
        closed_ranges(graph@, id) <= usize::MAX,
    ensures
        closed == closed_ranges(graph@, id),
    decreases id,
{
    let ghost dag = graph@;
    let count: usize = graph.source_count(id);
    assert(arity_ok(dag[id as int].op, dag[id as int].srcs.len()));
    match graph.op(id) {
        Op::End => count - 1,
        Op::Sink => {
            let mut closed: usize = 0;
            let mut k: usize = 0;
            while k < count
                invariant
                    graph.wf(),
                    dag == graph@,
                    id < dag.len(),
                    count == dag[id as int].srcs.len(),
                    closed_upto(dag, id, count as nat) <= usize::MAX,
                    k <= count,
                    closed == closed_upto(dag, id, k as nat),
                decreases count - k,
            {
                let src: usize = graph.source(id, k);
                proof {
                    lemma_closed_grows(dag, id, (k + 1) as nat);
                }
                let more: usize = closed_range_count(graph, src);
                closed = closed + more;
                k += 1;
            }
            closed
        },
        _ => 0,
    }
}

} // verus!
