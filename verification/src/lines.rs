//! Clean-ups of a linearized program, line by line.

use vstd::prelude::*;

use crate::builders::lemma_interned_keeps;
use crate::graph::{arity_ok, id_of, interned, DType, Graph, NodeView, Op};

verus! {

/// A node without the conversions on top of it.
pub open spec fn uncast(dag: Seq<NodeView>, id: usize) -> usize
    decreases id,
{
    if dag[id as int].op is Cast && dag[id as int].srcs[0] < id {
        uncast(dag, dag[id as int].srcs[0])
    } else {
        id
    }
}

/// Whether a node is a store to an indexed address under a boolean gate.
pub open spec fn is_gated_store(dag: Seq<NodeView>, id: usize) -> bool {
    let node = dag[id as int];
    &&& node.op is Store
    &&& node.srcs.len() == 3
    &&& dag[node.srcs[2] as int].dtype == DType::Bool
    &&& dag[uncast(dag, node.srcs[0]) as int].op is Index
}

/// The `If` over what guards a gated store.
pub open spec fn if_node(store: NodeView) -> NodeView {
    NodeView { op: Op::If, dtype: DType::Void, srcs: seq![store.srcs[2], store.srcs[0]] }
}

/// A gated store without its gate.
pub open spec fn bare_store(store: NodeView) -> NodeView {
    NodeView { op: Op::Store, dtype: store.dtype, srcs: seq![store.srcs[0], store.srcs[1]] }
}

/// The end of an `If`.
pub open spec fn endif_node(condition: usize) -> NodeView {
    NodeView { op: Op::EndIf, dtype: DType::Void, srcs: seq![condition] }
}

/// A graph and the lines of a program over it.
pub struct Lines {
    pub dag: Seq<NodeView>,
    pub list: Seq<usize>,
}

/// A program with one more line. A gated store becomes three: its gate as an
/// `If`, the store without it, and the end of the `If`.
pub open spec fn line(lines: Lines, id: usize) -> Lines {
    if is_gated_store(lines.dag, id) {
        let store = lines.dag[id as int];
        let opened = interned(lines.dag, if_node(store));
        let condition = id_of(opened, if_node(store));
        let stored = interned(opened, bare_store(store));
        let closed = interned(stored, endif_node(condition));
        Lines {
            dag: closed,
            list: lines.list + seq![
                condition,
                id_of(stored, bare_store(store)),
                id_of(closed, endif_node(condition)),
            ],
        }
    } else {
        Lines { dag: lines.dag, list: lines.list.push(id) }
    }
}

/// The first `n` lines of a program, cleaned up.
pub open spec fn cleaned(dag: Seq<NodeView>, list: Seq<usize>, n: nat) -> Lines
    decreases n,
{
    if n == 0 {
        Lines { dag, list: Seq::empty() }
    } else {
        line(cleaned(dag, list, (n - 1) as nat), list[n - 1])
    }
}

/// Where nothing is gated, a program stays as it is.
pub proof fn lemma_ungated_lines_pass_through(dag: Seq<NodeView>, list: Seq<usize>, n: nat)
    requires
        n <= list.len(),
        forall|i: int| 0 <= i < n ==> !is_gated_store(dag, #[trigger] list[i]),
    ensures
        cleaned(dag, list, n) == (Lines { dag, list: list.take(n as int) }),
    decreases n,
{
    if n > 0 {
        lemma_ungated_lines_pass_through(dag, list, (n - 1) as nat);
        assert(list.take(n as int) =~= list.take(n - 1).push(list[n - 1]));
    } else {
        assert(list.take(0) =~= Seq::<usize>::empty());
    }
}

fn strip_casts(graph: &Graph, id: usize) -> (inner: usize)
    requires
        graph.wf(),
        id < graph@.len(),
    ensures
        inner == uncast(graph@, id),
        inner < graph@.len(),
    decreases id,
{
    match graph.op(id) {
        Op::Cast => {
            assert(arity_ok(graph@[id as int].op, graph@[id as int].srcs.len()));
            let src: usize = graph.source(id, 0);
            strip_casts(graph, src)
        },
        _ => id,
    }
}

fn gated(graph: &Graph, id: usize) -> (gated: bool)
    requires
        graph.wf(),
        id < graph@.len(),
    ensures
        gated == is_gated_store(graph@, id),
{
    let stores: bool = match graph.op(id) {
        Op::Store => true,
        _ => false,
    };
    if !stores || graph.source_count(id) != 3 {
        return false;
    }
    let gate: usize = graph.source(id, 2);
    let address: usize = graph.source(id, 0);
    let inner: usize = strip_casts(graph, address);
    let indexed: bool = match graph.op(inner) {
        Op::Index => true,
        _ => false,
    };
    graph.dtype(gate) == DType::Bool && indexed
}

/// Turns each gated store over an indexed address into an `If` over its guard,
/// the store without it, and the end of the `If`. All other lines stay.
pub fn line_rewrite_cleanups(graph: &mut Graph, list: &Vec<usize>) -> (lines: Vec<usize>)
    requires
        old(graph).wf(),
        forall|i: int| 0 <= i < list@.len() ==> (#[trigger] list@[i]) < old(graph)@.len(),
    ensures
        final(graph).wf(),
        final(graph)@ == cleaned(old(graph)@, list@, list@.len()).dag,
        lines@ == cleaned(old(graph)@, list@, list@.len()).list,
{
    let ghost start = graph@;
    let mut lines: Vec<usize> = Vec::new();
    let mut at: usize = 0;
    while at < list.len()
        invariant
            graph.wf(),
            start.len() <= graph@.len(),
            forall|i: int| 0 <= i < list@.len() ==> (#[trigger] list@[i]) < start.len(),
            at <= list@.len(),
            graph@ == cleaned(start, list@, at as nat).dag,
            lines@ == cleaned(start, list@, at as nat).list,
        decreases list@.len() - at,
    {
        let id: usize = list[at];
        let ghost had = lines@;
        let ghost dag = graph@;
        if gated(graph, id) {
            let ghost store = dag[id as int];
            let address: usize = graph.source(id, 0);
            let value: usize = graph.source(id, 1);
            let gate: usize = graph.source(id, 2);
            let dtype = graph.dtype(id);
            let condition: usize = graph.binary(Op::If, DType::Void, gate, address);
            proof {
                lemma_interned_keeps(dag, if_node(store));
            }
            let ghost opened = graph@;
            let bare: usize = graph.binary(Op::Store, dtype, address, value);
            proof {
                lemma_interned_keeps(opened, bare_store(store));
            }
            let ghost stored = graph@;
            let end: usize = graph.unary(Op::EndIf, DType::Void, condition);
            proof {
                lemma_interned_keeps(stored, endif_node(condition));
            }
            lines.push(condition);
            lines.push(bare);
            lines.push(end);
            assert(lines@ =~= had + seq![condition, bare, end]);
        } else {
            lines.push(id);
        }
        at += 1;
    }
    lines
}

} // verus!
