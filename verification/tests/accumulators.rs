//! Reductions as loops that fill registers.

use svod_schedule::accumulate::{accumulate, apply_pm_reduce, clean_up_group_sink};
use svod_schedule::contexts::separate_places;
use svod_schedule::graph::{
    AddrSpace, AxisId, AxisType, BinaryOp, ConstValue, DType, Graph, Op, ReduceOp,
};
use svod_schedule::helpers::{ends, regs};

fn float(graph: &mut Graph, value: f64) -> usize {
    graph.constant(ConstValue::Float(value.to_bits()), DType::Float32)
}

fn sources(graph: &Graph, id: usize) -> Vec<usize> {
    (0..graph.source_count(id)).map(|at| graph.source(id, at)).collect()
}

fn reductions(graph: &Graph, root: usize) -> usize {
    graph.toposort(root).into_iter().filter(|id| matches!(graph.op(*id), Op::Reduce(_))).count()
}

#[test]
fn reductions_sharing_ranges_merge_into_one_group_end() {
    let mut graph = Graph::new();
    let shared = graph.range(16, AxisType::Reduce, 0);
    let [first, second] = [1.0, 2.0].map(|value| {
        let value = float(&mut graph, value);
        graph.reduce(value, &[shared], ReduceOp::Add)
    });
    let sink = graph.sink(&[first, second, shared]);
    let result = apply_pm_reduce(&mut graph, sink);
    let merged = graph
        .toposort(result)
        .into_iter()
        .find(|id| graph.op(*id) == Op::End && sources(&graph, *id)[1..] == [shared])
        .expect("the shared reduce range must still be closed");
    let computation = graph.source(merged, 0);
    assert_eq!(graph.op(computation), Op::Group);
    assert_eq!(graph.source_count(computation), 2);
    assert_eq!(ends(&graph, result), 1, "one merged END per reduce-range set");
    assert_eq!(reductions(&graph, result), 0);
    assert_eq!(regs(&graph, result), 2);
}

#[test]
fn reductions_in_different_contexts_get_their_own_ranges() {
    let mut graph = Graph::new();
    let shared = graph.range(4, AxisType::Reduce, 0);
    let enclosing = graph.range(8, AxisType::Loop, 1);
    let counter = graph.cast(enclosing, DType::Float32);
    let two = float(&mut graph, 2.0);
    let nested_source = graph.alu(BinaryOp::Add, counter, two);
    let one = float(&mut graph, 1.0);
    let top = graph.reduce(one, &[shared], ReduceOp::Add);
    let nested = graph.reduce(nested_source, &[shared], ReduceOp::Add);
    let sink = graph.sink(&[top, nested, shared, enclosing]);
    let result = apply_pm_reduce(&mut graph, sink);
    let closed: Vec<usize> = graph
        .toposort(result)
        .into_iter()
        .filter(|id| graph.op(*id) == Op::End)
        .map(|id| graph.source(id, 1))
        .collect();
    assert_eq!(closed.len(), 2);
    assert_ne!(closed[0], closed[1], "each context owns its RANGE node");
    for range in &closed {
        let extent = graph.source(*range, 0);
        assert_eq!(graph.op(extent), Op::Const(ConstValue::Int(4)));
    }
    let axes: Vec<Op> = closed.iter().map(|range| graph.op(*range)).collect();
    assert!(axes.contains(&graph.op(shared)), "the first context keeps the original axis");
    let fresh = Op::Range { axis: AxisId::Unrenumbered(2), kind: AxisType::Reduce };
    assert!(axes.contains(&fresh));
}

#[test]
fn reductions_in_one_place_share_their_loops() {
    let mut graph = Graph::new();
    let shared = graph.range(4, AxisType::Reduce, 0);
    let enclosing = graph.range(8, AxisType::Loop, 1);
    let counter = graph.cast(enclosing, DType::Float32);
    let one = float(&mut graph, 1.0);
    let top = graph.reduce(one, &[shared], ReduceOp::Add);
    let nested: Vec<usize> = [2.0, 3.0]
        .map(|value| {
            let value = float(&mut graph, value);
            let sum = graph.alu(BinaryOp::Add, counter, value);
            graph.reduce(sum, &[shared], ReduceOp::Max)
        })
        .to_vec();
    let sink = graph.sink(&[top, nested[0], nested[1]]);
    let placed = separate_places(&mut graph, sink);
    let loops: Vec<usize> =
        sources(&graph, placed).iter().map(|reduction| graph.source(*reduction, 1)).collect();
    assert_eq!(loops[0], shared);
    assert_ne!(loops[1], shared);
    assert_eq!(loops[1], loops[2]);
    assert_eq!(separate_places(&mut graph, top), top);
}

#[test]
fn clean_up_group_sink_removes_structural_wrappers() {
    let mut graph = Graph::new();
    let noop = graph.leaf(Op::Noop, DType::Void);
    let one = float(&mut graph, 1.0);
    let sink = graph.sink(&[noop, one]);
    let result = apply_pm_reduce(&mut graph, sink);
    assert_eq!(graph.op(result), Op::Sink);
    assert_eq!(sources(&graph, result), vec![one]);
    let group = graph.node(Op::Group, DType::Void, &[one]);
    assert_eq!(apply_pm_reduce(&mut graph, group), one);
    assert_eq!(clean_up_group_sink(&mut graph, result), None);
}

#[test]
fn a_register_starts_with_the_reduction_of_nothing() {
    for (op, start, combination) in [
        (ReduceOp::Add, 0, Op::Binary(BinaryOp::Add)),
        (ReduceOp::Mul, 1, Op::Binary(BinaryOp::Mul)),
        (ReduceOp::Max, i64::from(i32::MIN), Op::Binary(BinaryOp::Max)),
    ] {
        let mut graph = Graph::new();
        let range = graph.range(6, AxisType::Reduce, 0);
        let value = graph.cast(range, DType::Int32);
        let reduce = graph.reduce(value, &[range], op);
        let read = accumulate(&mut graph, reduce).expect("it reduces over a loop");
        assert_eq!((graph.op(read), graph.dtype(read)), (Op::Load, DType::Int32));
        let done = graph.source(graph.source(read, 0), 0);
        assert_eq!(graph.op(done), Op::After);
        let register = graph.source(done, 0);
        assert!(matches!(graph.op(register), Op::Buffer { space: AddrSpace::Reg, size: 1, .. }));
        let end = graph.source(done, 1);
        assert_eq!((graph.op(end), graph.source(end, 1)), (Op::End, range));
        let step = graph.source(end, 0);
        assert_eq!(graph.op(step), Op::Store);
        let next = graph.source(step, 1);
        assert_eq!((graph.op(next), graph.source(next, 1)), (combination, value));
        let inside = graph.source(graph.source(graph.source(next, 0), 0), 0);
        assert_eq!(graph.op(inside), Op::After);
        assert_eq!(graph.source(inside, 2), range);
        let first = graph.source(inside, 1);
        assert_eq!(graph.op(first), Op::Store);
        assert_eq!(graph.op(graph.source(first, 1)), Op::Const(ConstValue::Int(start)));
    }
    let mut graph = Graph::new();
    let one = float(&mut graph, 1.0);
    let bare = graph.reduce(one, &[], ReduceOp::Add);
    assert_eq!(accumulate(&mut graph, bare), None);
}
