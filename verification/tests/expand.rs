//! Loops that become axes of values.

use svod_schedule::coordinates::{build_range_map, pre_expand};
use svod_schedule::expand::{
    contract_axis, expand_wmma, find_coordinate, unroll_axis, wmma_fragments, wmma_shape,
    WmmaUpcastAxes,
};
use svod_schedule::graph::{
    AddrSpace, AxisId, AxisType, BinaryOp, ConstValue, DType, Graph, Op, ReduceOp, RendererDevice,
    Steps, WmmaDims, WmmaMetadata,
};
use svod_schedule::lanes::find_lanes;
use svod_schedule::passes::{rewrite, Pass};
use svod_schedule::shape::find_dims;
use svod_schedule::shaped::reshape_to;

fn range(graph: &mut Graph, extent: i64, axis: AxisId, kind: AxisType) -> usize {
    let end = graph.index_const(extent);
    graph.unary(Op::Range { axis, kind }, DType::WeakInt, end)
}

fn upcast(graph: &mut Graph, extent: i64, number: usize) -> usize {
    range(graph, extent, AxisId::Renumbered(number), AxisType::Upcast)
}

/// An axis inside another one.
fn child(axis: AxisId, part: usize) -> AxisId {
    axis.child(part).expect("there is room")
}

fn sources(graph: &Graph, id: usize) -> Vec<usize> {
    (0..graph.source_count(id)).map(|k| graph.source(id, k)).collect()
}

/// A stack of as many lanes as a shape has elements, in that shape.
fn shaped(graph: &mut Graph, shape: &[usize]) -> usize {
    let count: usize = shape.iter().product();
    let lanes: Vec<usize> = (0..count)
        .map(|at| graph.leaf(Op::Variable { name: at, low: 0, high: 1 }, DType::Float32))
        .collect();
    let stack = graph.node(Op::Stack, DType::Float32, &lanes);
    reshape_to(graph, stack, shape)
}

/// As many zeros as a fragment has lanes.
fn accumulator(graph: &mut Graph, lanes: usize) -> usize {
    let zero = graph.constant(ConstValue::Float(0), DType::Float32);
    graph.node(Op::Stack, DType::Float32, &vec![zero; lanes])
}

fn wmma(upcast: bool) -> Op {
    Op::Wmma(WmmaMetadata {
        name: 0,
        dims: WmmaDims { n: 16, m: 16, k: 16 },
        dtype_in: DType::Float32,
        dtype_out: DType::Float32,
        device: RendererDevice::Cpu,
        threads: 32,
        upcast,
    })
}

/// The axes of one part of a product.
fn axes_node(graph: &mut Graph, axes: &[(AxisId, usize)]) -> usize {
    let list: Vec<usize> = axes
        .iter()
        .map(|(axis, extent)| {
            let extent = graph.index_const(*extent as i64);
            graph.unary(Op::UpcastAxis(*axis), DType::Void, extent)
        })
        .collect();
    graph.node(Op::UpcastAxes, DType::Void, &list)
}

/// A product of two operands that carries the axes of its three parts.
fn product(graph: &mut Graph, operands: [usize; 2], axes: &WmmaUpcastAxes) -> usize {
    let sum = accumulator(graph, 2);
    let a = axes_node(graph, &axes.a);
    let b = axes_node(graph, &axes.b);
    let c = axes_node(graph, &axes.c);
    graph.node(wmma(true), DType::Float32, &[operands[0], operands[1], sum, a, b, c])
}

fn flat_axes(extent: usize) -> WmmaUpcastAxes {
    WmmaUpcastAxes {
        a: vec![(AxisId::Renumbered(7), extent)],
        b: vec![(AxisId::Renumbered(9), 3)],
        c: vec![(AxisId::Renumbered(7), 2)],
    }
}

fn find_op(graph: &Graph, root: usize, wanted: fn(Op) -> bool) -> Option<usize> {
    graph.toposort(root).into_iter().find(|id| wanted(graph.op(*id)))
}

fn find_product(graph: &Graph, root: usize) -> usize {
    find_op(graph, root, |op| matches!(op, Op::Wmma(_))).expect("a product")
}

#[test]
fn upcast_and_unroll_ranges_become_shaped_coordinates() {
    let mut graph = Graph::new();
    let rows = upcast(&mut graph, 2, 7);
    let columns = range(&mut graph, 3, AxisId::Renumbered(9), AxisType::Unroll);
    let sink = graph.node(Op::Sink, DType::Void, &[rows, columns]);
    let map = build_range_map(&graph, sink);
    assert_eq!(find_coordinate(&map, AxisId::Renumbered(7)), Some(0));
    assert_eq!(find_coordinate(&map, AxisId::Renumbered(9)), Some(1));
    assert_eq!(find_coordinate(&map, AxisId::Renumbered(8)), None);
    let result = pre_expand(&mut graph, sink);
    assert_eq!(graph.op(result), Op::Sink);
    assert_eq!(find_dims(&graph, graph.source(result, 0)), Some(vec![2, 1]));
    assert_eq!(find_dims(&graph, graph.source(result, 1)), Some(vec![1, 3]));
}

#[test]
fn expansion_runs_movement_cleanup_in_the_same_fixpoint() {
    let mut graph = Graph::new();
    let lanes = graph.range(4, AxisType::Upcast, 7);
    let sink = graph.node(Op::Sink, DType::Void, &[lanes]);
    let result = pre_expand(&mut graph, sink);
    let stack = graph.source(result, 0);
    assert_eq!((graph.op(stack), graph.source_count(stack)), (Op::Stack, 4));
    for lane in 0..4 {
        let count = graph.op(graph.source(stack, lane));
        assert_eq!(count, Op::Const(ConstValue::Int(lane as i64)));
    }

    let four = graph.index_const(4);
    let shape = graph.node(Op::Stack, DType::WeakInt, &[four]);
    let op = Op::Param { slot: 0, addrspace: None };
    let buffer = graph.node(op, DType::Float32, &[shape]);
    let reads: Vec<usize> = (0..4)
        .map(|at| {
            let index = graph.index_const(at);
            graph.binary(Op::Index, DType::Float32, buffer, index)
        })
        .collect();
    let whole = graph.node(Op::Stack, DType::Float32, &reads);
    let sink = graph.node(Op::Sink, DType::Void, &[whole]);
    let result = pre_expand(&mut graph, sink);
    assert_eq!(graph.source(result, 0), buffer);

    let part = graph.node(Op::Stack, DType::Float32, &reads[..3]);
    let sink = graph.node(Op::Sink, DType::Void, &[part]);
    assert_eq!(pre_expand(&mut graph, sink), sink, "a part of a buffer is no buffer");
}

#[test]
fn wmma_shapes_operands_independently_and_reconstructs_output() {
    for nested in [false, true] {
        let mut graph = Graph::new();
        let (ranges, unexpanded, output, a, b) = if nested {
            let axis = child(child(AxisId::Renumbered(7), 1), 0);
            let inner = range(&mut graph, 2, axis, AxisType::Upcast);
            let ranges = [inner, upcast(&mut graph, 3, 7)];
            let lanes = shaped(&mut graph, &[2, 3]);
            let axes =
                WmmaUpcastAxes { a: vec![(axis, 2)], b: vec![(axis, 2)], c: vec![(axis, 2)] };
            let unexpanded = product(&mut graph, [lanes, lanes], &axes);
            (ranges, unexpanded, vec![2, 3], vec![3, 2], vec![3, 2])
        } else {
            let ranges = [upcast(&mut graph, 2, 7), upcast(&mut graph, 3, 9)];
            let operands = [shaped(&mut graph, &[2, 1]), shaped(&mut graph, &[1, 3])];
            let unexpanded = product(&mut graph, operands, &flat_axes(2));
            (ranges, unexpanded, vec![2, 1], vec![1, 2], vec![1, 3])
        };
        let sink = graph.node(Op::Sink, DType::Void, &[ranges[0], ranges[1], unexpanded]);
        let result = pre_expand(&mut graph, sink);
        assert_eq!(graph.op(result), Op::Sink);
        let expanded = graph.source(result, 2);
        assert_eq!(find_lanes(&graph, expanded), Some(output));
        let inner = find_product(&graph, expanded);
        assert_eq!(find_lanes(&graph, graph.source(inner, 0)), Some(a));
        assert_eq!(find_lanes(&graph, graph.source(inner, 1)), Some(b));
        assert_eq!(graph.op(inner), wmma(false), "expansion consumes the axes");
        assert_eq!(graph.source_count(inner), 3);
    }

    let map = vec![AxisId::Renumbered(7), AxisId::Renumbered(9)];
    let shapes = expand_wmma(&map, &vec![2, 1], &vec![1, 3], 2, &flat_axes(2)).expect("the axes match");
    assert_eq!((shapes.output, shapes.a, shapes.b), (vec![2, 1], vec![1, 2], vec![1, 3]));
}

#[test]
fn wmma_broadcast_stacks_fragments_before_reshape() {
    let mut graph = Graph::new();
    let a = shaped(&mut graph, &[4, 1, 16]);
    let b = shaped(&mut graph, &[1, 4, 16]);
    let c = shaped(&mut graph, &[8]);
    let unexpanded = graph.ternary(wmma(false), DType::Float32, a, b, c);
    let result = rewrite(&mut graph, Pass::Broadcast, unexpanded);
    assert_eq!(find_dims(&graph, result), Some(vec![4, 4, 8]));
    assert_eq!(graph.op(result), Op::Reshape);
    let stack = graph.source(result, 0);
    assert_eq!((graph.op(stack), graph.source_count(stack)), (Op::Stack, 16));
    for fragment in sources(&graph, stack) {
        assert_eq!(graph.op(fragment), wmma(false));
        assert_eq!(find_lanes(&graph, graph.source(fragment, 0)), Some(vec![16]));
        assert_eq!(find_lanes(&graph, graph.source(fragment, 1)), Some(vec![16]));
        assert_eq!(graph.source(fragment, 2), c);
        assert_eq!(rewrite(&mut graph, Pass::Broadcast, fragment), fragment, "a fragment stays");
    }

    let pairs = wmma_fragments(&vec![4, 1, 16], &vec![1, 4, 16]).expect("they broadcast");
    for (at, pair) in pairs.iter().enumerate() {
        assert_eq!(*pair, (at / 4, at % 4), "a row of the one, a column of the other");
    }
    assert_eq!(wmma_fragments(&vec![2, 16], &vec![3, 16]), None);
    assert_eq!(wmma_fragments(&vec![2, 16], &vec![2, 16]), Some(vec![(0, 0), (1, 1)]));
}

#[test]
fn pre_expansion_wmma_accepts_scalar_inputs() {
    let mut graph = Graph::new();
    let one = graph.constant(ConstValue::Float(0x3ff0_0000_0000_0000), DType::Float32);
    let two = graph.constant(ConstValue::Float(0x4000_0000_0000_0000), DType::Float32);
    let sum = accumulator(&mut graph, 8);
    let unexpanded = graph.ternary(wmma(false), DType::Float32, one, two, sum);
    assert_eq!(find_lanes(&graph, unexpanded), Some(vec![8]));
    assert_eq!(wmma_shape(&vec![2, 16], &vec![3, 16], 8), None, "the sizes do not broadcast");
}

#[test]
fn shaped_reduce_axes_are_expanded_before_reduction_lowering() {
    let mut graph = Graph::new();
    let unroll = graph.range(4, AxisType::Unroll, 2);
    let around = graph.range(8, AxisType::Reduce, 3);
    let value = graph.cast(unroll, DType::Float32);
    let reduce = graph.reduce(value, &[around, unroll], ReduceOp::Add);
    let result = pre_expand(&mut graph, reduce);
    assert_eq!(find_dims(&graph, result), Some(vec![1]));
    let total = graph.source(result, 0);
    assert_eq!(graph.op(total), Op::AxisReduce { with: ReduceOp::Add, count: 1 });
    assert_eq!((graph.source_count(total), graph.source(total, 1)), (2, around));
}

#[test]
fn reductions_take_away_only_the_axes_of_their_value() {
    let mut graph = Graph::new();
    let rows = graph.range(2, AxisType::Upcast, 0);
    let columns = graph.range(3, AxisType::Unroll, 1);
    let sum = graph.alu(BinaryOp::Add, rows, columns);
    let value = graph.cast(sum, DType::Float32);
    let reduce = graph.reduce(value, &[columns], ReduceOp::Add);
    let result = pre_expand(&mut graph, reduce);
    assert_eq!(find_dims(&graph, result), Some(vec![2, 1]), "the rows are still there");
    let total = graph.source(result, 0);
    assert_eq!(graph.op(total), Op::AxisReduce { with: ReduceOp::Add, count: 1 });
    let turned = graph.source(total, 0);
    assert_eq!(graph.op(turned), Op::Permute);
    let order: Vec<Op> = (1..3).map(|k| graph.op(graph.source(turned, k))).collect();
    assert_eq!(order, [Op::Const(ConstValue::Int(1)), Op::Const(ConstValue::Int(0))]);

    let one = graph.constant(ConstValue::Int(1), DType::Int32);
    let other = graph.reduce(one, &[columns], ReduceOp::Add);
    assert_eq!(pre_expand(&mut graph, other), other, "the value does not count along it");
}

#[test]
fn incomplete_expansion_is_left_alone() {
    let mut graph = Graph::new();
    let n = graph.leaf(Op::Variable { name: 0, low: 0, high: 16 }, DType::WeakInt);
    let op = Op::Range { axis: AxisId::Renumbered(7), kind: AxisType::Upcast };
    let symbolic = graph.unary(op, DType::WeakInt, n);
    let sink = graph.node(Op::Sink, DType::Void, &[symbolic]);
    let result = pre_expand(&mut graph, sink);
    assert_eq!(graph.op(graph.source(result, 0)), op, "the extent is not known");

    let mut graph = Graph::new();
    let a = shaped(&mut graph, &[2, 1]);
    let b = shaped(&mut graph, &[1, 3]);
    let c = shaped(&mut graph, &[2]);
    let unexpanded = graph.ternary(wmma(false), DType::Float32, a, b, c);
    let sink = graph.node(Op::Sink, DType::Void, &[unexpanded]);
    let result = pre_expand(&mut graph, sink);
    assert_eq!(graph.source_count(find_product(&graph, result)), 3, "there are no axes");

    for (extent, kept) in [(4, 6), (2, 3)] {
        let mut graph = Graph::new();
        let ranges = [upcast(&mut graph, 2, 7), upcast(&mut graph, 3, 9)];
        let operands = [shaped(&mut graph, &[2, 1]), shaped(&mut graph, &[1, 3])];
        let unexpanded = product(&mut graph, operands, &flat_axes(extent));
        let sink = graph.node(Op::Sink, DType::Void, &[ranges[0], ranges[1], unexpanded]);
        let result = pre_expand(&mut graph, sink);
        assert_eq!(graph.source_count(find_product(&graph, result)), kept);
    }
    let map = vec![AxisId::Renumbered(7), AxisId::Renumbered(9)];
    assert!(expand_wmma(&map, &vec![2, 1], &vec![1, 3], 2, &flat_axes(4)).is_none());
    assert!(expand_wmma(&vec![], &vec![2, 1], &vec![1, 3], 2, &flat_axes(2)).is_none());

    let mut graph = Graph::new();
    let around = range(&mut graph, 4, AxisId::Renumbered(3), AxisType::Reduce);
    let value = graph.cast(around, DType::Float32);
    let total = graph.reduce(value, &[around], ReduceOp::Add);
    let sink = graph.node(Op::Sink, DType::Void, &[total]);
    let result = pre_expand(&mut graph, sink);
    assert!(find_op(&graph, result, |op| op == Op::Reduce(ReduceOp::Add)).is_some());
    assert_eq!(result, sink, "nothing to take away");
}

/// A reduction of a grouped loop over an axis.
fn grouped_reduce(graph: &mut Graph, axis: AxisId, deps: &[usize]) -> (usize, usize) {
    let four = graph.index_const(4);
    let kind = AxisType::GroupReduce;
    let grouped = graph.led(Op::Range { axis, kind }, DType::WeakInt, four, deps);
    let value = graph.cast(grouped, DType::Float32);
    let reduce = graph.binary(Op::Reduce(ReduceOp::Add), DType::Float32, value, grouped);
    (grouped, reduce)
}

fn find_range(graph: &Graph, root: usize, axis: AxisId) -> Option<usize> {
    let op = Op::Range { axis, kind: AxisType::Reduce };
    graph.toposort(root).into_iter().find(|id| graph.op(*id) == op)
}

#[test]
fn grouped_reduce_loop_keeps_nested_axis_identity_and_range_dependencies() {
    let mut graph = Graph::new();
    let ordering = graph.range(2, AxisType::Loop, 3);
    let nothing = graph.leaf(Op::Noop, DType::Void);
    let ended = graph.end(nothing, &[ordering]);
    let one = graph.index_const(1);
    let after = graph.after(one, &[ended]);
    let axis = child(child(AxisId::Renumbered(7), 1), 0);
    let (grouped, reduce) = grouped_reduce(&mut graph, axis, &[after]);
    let lowered = rewrite(&mut graph, Pass::GroupReduce, reduce);

    let staged = Op::Stage { space: AddrSpace::Local, removable: true };
    let walk = graph.toposort(lowered);
    let stage = walk.iter().copied().find(|id| graph.op(*id) == staged).expect("it is staged");
    assert_eq!(graph.source(stage, 1), grouped, "along the grouped axis");
    let own = axis.group_reduce_loop().expect("there is room");
    let range = find_range(&graph, lowered, own).expect("a loop of its own");
    assert_eq!(graph.source_count(range), 2);
    assert_eq!(graph.source(range, 1), after, "it waits for the same");
    assert_eq!(graph.source(lowered, 1), range);
    assert_eq!(own.path(), [7, 1, 0, 2]);
}

#[test]
fn grouped_reduce_loop_does_not_collide_with_offset_axis_or_range_map_parent() {
    let mut graph = Graph::new();
    let axis = AxisId::Renumbered(0);
    let own = axis.group_reduce_loop().expect("there is room");
    let axes = [AxisId::Renumbered(100), child(axis, 0), child(axis, 1), own];
    let ranges: Vec<usize> =
        axes.iter().map(|axis| range(&mut graph, 4, *axis, AxisType::Upcast)).collect();
    let sink = graph.node(Op::Sink, DType::Void, &ranges);
    let map = build_range_map(&graph, sink);
    assert_eq!(map.len(), 4);
    for (at, axis) in axes.iter().enumerate() {
        assert_eq!(find_coordinate(&map, *axis), Some(at));
    }

    let (_, reduce) = grouped_reduce(&mut graph, axis, &[]);
    let lowered = rewrite(&mut graph, Pass::GroupReduce, reduce);
    assert!(find_range(&graph, lowered, own).is_some());
    assert_eq!(find_range(&graph, lowered, AxisId::Renumbered(100)), None);
    let deepest = AxisId::RenumberedPath(0, Steps::Four(0, 0, 0, 0));
    let (_, deep) = grouped_reduce(&mut graph, deepest, &[]);
    assert_eq!(rewrite(&mut graph, Pass::GroupReduce, deep), deep, "no room for another part");
}

#[test]
fn unrolling_undoes_contracting() {
    let map = vec![AxisId::Renumbered(1), AxisId::Renumbered(2), AxisId::Renumbered(3)];
    let axes = vec![(AxisId::Renumbered(3), 4), (AxisId::Renumbered(1), 2)];
    let contracted = contract_axis(&map, &vec![2, 3, 4], &axes).expect("the sizes match");
    assert_eq!(contracted, [3, 8]);
    assert_eq!(unroll_axis(&map, &contracted, &axes), Some(vec![2, 3, 4]));
}
