//! Functions that put the common operations into a graph.

use vstd::prelude::*;

use crate::graph::{
    arity_ok, id_of, interned, AxisId, AxisType, BinaryOp, ConstValue, DType, Graph, NodeView, Op,
    ReduceOp,
};

verus! {

/// The bits of the float `1.0`.
pub const ONE: u64 = 0x3ff0_0000_0000_0000;

/// The bits of the float `2.0`.
pub const TWO: u64 = 0x4000_0000_0000_0000;

/// The bits of the float `3.0`.
pub const THREE: u64 = 0x4008_0000_0000_0000;

/// A constant as a node.
pub open spec fn const_node(value: ConstValue, dtype: DType) -> NodeView {
    NodeView { op: Op::Const(value), dtype, srcs: Seq::empty() }
}

/// The extent of a range as a node. It is weak: it takes the type of what it
/// meets.
pub open spec fn extent_node(extent: i64) -> NodeView {
    const_node(ConstValue::Int(extent), DType::WeakInt)
}

/// A range as a node over its extent.
pub open spec fn range_node(end: usize, axis: AxisId, kind: AxisType, dtype: DType) -> NodeView {
    NodeView { op: Op::Range { axis, kind }, dtype, srcs: seq![end] }
}

/// An `End` as a node.
pub open spec fn end_node(value: usize, ranges: Seq<usize>) -> NodeView {
    NodeView { op: Op::End, dtype: DType::Void, srcs: seq![value] + ranges }
}

/// A conversion as a node.
pub open spec fn cast_node(src: usize, dtype: DType) -> NodeView {
    NodeView { op: Op::Cast, dtype, srcs: seq![src] }
}

/// A graph and a node in it.
pub struct Built {
    pub dag: Seq<NodeView>,
    pub id: usize,
}

/// A graph with one more node.
pub open spec fn put(dag: Seq<NodeView>, node: NodeView) -> Built {
    Built { dag: interned(dag, node), id: id_of(interned(dag, node), node) }
}

/// A graph keeps its nodes when one is put in.
pub proof fn lemma_interned_keeps(dag: Seq<NodeView>, node: NodeView)
    ensures
        dag.len() <= interned(dag, node).len(),
        forall|i: int| 0 <= i < dag.len() ==> #[trigger] interned(dag, node)[i] == dag[i],
{
}

/// The list of an id and those of a slice behind it.
fn led_by(first: usize, rest: &[usize]) -> (list: Vec<usize>)
    ensures
        list@ == seq![first] + rest@,
{
    let mut list: Vec<usize> = Vec::new();
    list.push(first);
    let mut at: usize = 0;
    while at < rest.len()
        invariant
            at <= rest@.len(),
            list@ == seq![first] + rest@.take(at as int),
        decreases rest@.len() - at,
    {
        list.push(rest[at]);
        at += 1;
        assert(list@ =~= seq![first] + rest@.take(at as int));
    }
    assert(rest@.take(rest@.len() as int) =~= rest@);
    list
}

/// The graph with one more node, and where the node stands.
pub open spec fn puts(before: Seq<NodeView>, after: Seq<NodeView>, node: NodeView, id: usize) -> bool {
    &&& after == interned(before, node)
    &&& id < after.len()
    &&& after[id as int] == node
    &&& id == id_of(after, node)
}

impl Graph {
    /// A node without sources.
    pub fn leaf(&mut self, op: Op, dtype: DType) -> (id: usize)
        requires
            old(self).wf(),
            arity_ok(op, 0),
        ensures
            final(self).wf(),
            puts(old(self)@, final(self)@, NodeView { op, dtype, srcs: Seq::empty() }, id),
    {
        let none: Vec<usize> = Vec::new();
        self.node(op, dtype, none.as_slice())
    }

    /// A node with one source.
    pub fn unary(&mut self, op: Op, dtype: DType, src: usize) -> (id: usize)
        requires
            old(self).wf(),
            arity_ok(op, 1),
            src < old(self)@.len(),
        ensures
            final(self).wf(),
            puts(old(self)@, final(self)@, NodeView { op, dtype, srcs: seq![src] }, id),
    {
        let srcs: [usize; 1] = [src];
        assert(srcs@ =~= seq![src]);
        self.node(op, dtype, &srcs)
    }

    /// A node with two sources.
    pub fn binary(&mut self, op: Op, dtype: DType, left: usize, right: usize) -> (id: usize)
        requires
            old(self).wf(),
            arity_ok(op, 2),
            left < old(self)@.len(),
            right < old(self)@.len(),
        ensures
            final(self).wf(),
            puts(old(self)@, final(self)@, NodeView { op, dtype, srcs: seq![left, right] }, id),
    {
        let srcs: [usize; 2] = [left, right];
        assert(srcs@ =~= seq![left, right]);
        self.node(op, dtype, &srcs)
    }

    /// A node with three sources.
    pub fn ternary(&mut self, op: Op, dtype: DType, a: usize, b: usize, c: usize) -> (id: usize)
        requires
            old(self).wf(),
            arity_ok(op, 3),
            a < old(self)@.len(),
            b < old(self)@.len(),
            c < old(self)@.len(),
        ensures
            final(self).wf(),
            puts(old(self)@, final(self)@, NodeView { op, dtype, srcs: seq![a, b, c] }, id),
    {
        let srcs: [usize; 3] = [a, b, c];
        assert(srcs@ =~= seq![a, b, c]);
        self.node(op, dtype, &srcs)
    }

    /// A node with a leading source and those of a slice behind it.
    pub fn led(&mut self, op: Op, dtype: DType, first: usize, rest: &[usize]) -> (id: usize)
        requires
            old(self).wf(),
            arity_ok(op, (rest@.len() + 1) as nat),
            first < old(self)@.len(),
            forall|k: int| 0 <= k < rest@.len() ==> (#[trigger] rest@[k]) < old(self)@.len(),
        ensures
            final(self).wf(),
            puts(old(self)@, final(self)@, NodeView { op, dtype, srcs: seq![first] + rest@ }, id),
    {
        let list = led_by(first, rest);
        assert forall|k: int| 0 <= k < list@.len() implies (#[trigger] list@[k])
            < old(self)@.len() by {
            if k > 0 {
                assert(list@[k] == rest@[k - 1]);
            }
        }
        self.node(op, dtype, list.as_slice())
    }

    /// A constant.
    pub fn constant(&mut self, value: ConstValue, dtype: DType) -> (id: usize)
        requires
            old(self).wf(),
        ensures
            final(self).wf(),
            puts(old(self)@, final(self)@, const_node(value, dtype), id),
    {
        self.leaf(Op::Const(value), dtype)
    }

    /// An index constant.
    pub fn index_const(&mut self, value: i64) -> (id: usize)
        requires
            old(self).wf(),
        ensures
            final(self).wf(),
            puts(old(self)@, final(self)@, extent_node(value), id),
    {
        self.constant(ConstValue::Int(value), DType::WeakInt)
    }

    /// A loop axis of a constant extent.
    pub fn range(&mut self, extent: i64, kind: AxisType, axis: usize) -> (id: usize)
        requires
            old(self).wf(),
        ensures
            final(self).wf(),
            ({
                let ended = interned(old(self)@, extent_node(extent));
                puts(
                    ended,
                    final(self)@,
                    range_node(
                        id_of(ended, extent_node(extent)),
                        AxisId::Renumbered(axis),
                        kind,
                        DType::WeakInt,
                    ),
                    id,
                )
            }),
    {
        let end: usize = self.index_const(extent);
        self.unary(Op::Range { axis: AxisId::Renumbered(axis), kind }, DType::WeakInt, end)
    }

    /// A global loop axis of a constant extent.
    pub fn global_range(&mut self, extent: i64, axis: usize) -> (id: usize)
        requires
            old(self).wf(),
        ensures
            final(self).wf(),
            ({
                let ended = interned(old(self)@, extent_node(extent));
                puts(
                    ended,
                    final(self)@,
                    range_node(
                        id_of(ended, extent_node(extent)),
                        AxisId::Renumbered(axis),
                        AxisType::Global,
                        DType::Index,
                    ),
                    id,
                )
            }),
    {
        let end: usize = self.index_const(extent);
        self.unary(
            Op::Range { axis: AxisId::Renumbered(axis), kind: AxisType::Global },
            DType::Index,
            end,
        )
    }

    /// A conversion of a value.
    pub fn cast(&mut self, src: usize, dtype: DType) -> (id: usize)
        requires
            old(self).wf(),
            src < old(self)@.len(),
        ensures
            final(self).wf(),
            puts(old(self)@, final(self)@, NodeView { op: Op::Cast, dtype, srcs: seq![src] }, id),
    {
        self.unary(Op::Cast, dtype, src)
    }

    /// An arithmetic operation of the type of its left operand.
    pub fn alu(&mut self, op: BinaryOp, left: usize, right: usize) -> (id: usize)
        requires
            old(self).wf(),
            left < old(self)@.len(),
            right < old(self)@.len(),
        ensures
            final(self).wf(),
            puts(
                old(self)@,
                final(self)@,
                NodeView {
                    op: Op::Binary(op),
                    dtype: old(self)@[left as int].dtype,
                    srcs: seq![left, right],
                },
                id,
            ),
    {
        let dtype = self.dtype(left);
        self.binary(Op::Binary(op), dtype, left, right)
    }

    /// Closes ranges behind a value. Closing none is the value itself.
    pub fn end(&mut self, value: usize, ranges: &[usize]) -> (id: usize)
        requires
            old(self).wf(),
            value < old(self)@.len(),
            forall|k: int| 0 <= k < ranges@.len() ==> (#[trigger] ranges@[k]) < old(self)@.len(),
        ensures
            final(self).wf(),
            if ranges@.len() == 0 {
                id == value && final(self)@ == old(self)@
            } else {
                puts(old(self)@, final(self)@, end_node(value, ranges@), id)
            },
    {
        if ranges.len() == 0 {
            value
        } else {
            self.led(Op::End, DType::Void, value, ranges)
        }
    }

    /// Orders a value behind what it waits for.
    pub fn after(&mut self, value: usize, deps: &[usize]) -> (id: usize)
        requires
            old(self).wf(),
            value < old(self)@.len(),
            forall|k: int| 0 <= k < deps@.len() ==> (#[trigger] deps@[k]) < old(self)@.len(),
        ensures
            final(self).wf(),
            puts(
                old(self)@,
                final(self)@,
                NodeView {
                    op: Op::After,
                    dtype: old(self)@[value as int].dtype,
                    srcs: seq![value] + deps@,
                },
                id,
            ),
    {
        let dtype = self.dtype(value);
        self.led(Op::After, dtype, value, deps)
    }

    /// Reduces a value over ranges.
    pub fn reduce(&mut self, value: usize, ranges: &[usize], op: ReduceOp) -> (id: usize)
        requires
            old(self).wf(),
            value < old(self)@.len(),
            forall|k: int| 0 <= k < ranges@.len() ==> (#[trigger] ranges@[k]) < old(self)@.len(),
        ensures
            final(self).wf(),
            puts(
                old(self)@,
                final(self)@,
                NodeView {
                    op: Op::Reduce(op),
                    dtype: old(self)@[value as int].dtype,
                    srcs: seq![value] + ranges@,
                },
                id,
            ),
    {
        let dtype = self.dtype(value);
        self.led(Op::Reduce(op), dtype, value, ranges)
    }

    /// The root over a program's effects.
    pub fn sink(&mut self, srcs: &[usize]) -> (id: usize)
        requires
            old(self).wf(),
            forall|k: int| 0 <= k < srcs@.len() ==> (#[trigger] srcs@[k]) < old(self)@.len(),
        ensures
            final(self).wf(),
            puts(
                old(self)@,
                final(self)@,
                NodeView { op: Op::Sink, dtype: DType::Void, srcs: srcs@ },
                id,
            ),
    {
        self.node(Op::Sink, DType::Void, srcs)
    }
}

/// A value inside a loop that closes `ranges`.
pub fn loop_(graph: &mut Graph, value: usize, ranges: &[usize]) -> (id: usize)
    requires
        old(graph).wf(),
        value < old(graph)@.len(),
        forall|k: int| 0 <= k < ranges@.len() ==> (#[trigger] ranges@[k]) < old(graph)@.len(),
    ensures
        final(graph).wf(),
        if ranges@.len() == 0 {
            id == value && final(graph)@ == old(graph)@
        } else {
            puts(old(graph)@, final(graph)@, end_node(value, ranges@), id)
        },
{
    graph.end(value, ranges)
}

/// The float that the body of a counted loop holds.
pub open spec fn one_node() -> NodeView {
    const_node(ConstValue::Float(ONE), DType::Float32)
}

/// A loop whose body computes nothing, so that only the closed range matters.
pub fn counted(graph: &mut Graph, range: usize) -> (id: usize)
    requires
        old(graph).wf(),
        range < old(graph)@.len(),
    ensures
        final(graph).wf(),
        ({
            let held = interned(old(graph)@, one_node());
            puts(held, final(graph)@, end_node(id_of(held, one_node()), seq![range]), id)
        }),
{
    let one: usize = graph.constant(ConstValue::Float(ONE), DType::Float32);
    let ranges: [usize; 1] = [range];
    assert(ranges@ =~= seq![range]);
    loop_(graph, one, &ranges)
}

} // verus!
