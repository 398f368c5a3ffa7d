//! Views folded into the addresses that read them.

use svod_schedule::address::{end_view, fold_view, fold_views};
use svod_schedule::graph::{
    AddrSpace, AxisId, AxisType, BinaryOp, ConstValue, DType, Graph, Op, TernaryOp, UnaryOp,
};
use svod_schedule::passes::{rewrite, Pass};

fn buffer(graph: &mut Graph, size: usize) -> usize {
    graph.leaf(Op::Buffer { slot: 0, space: AddrSpace::Global, size }, DType::Float32)
}

fn shape(graph: &mut Graph, sizes: &[i64]) -> usize {
    let list: Vec<usize> = sizes.iter().map(|size| graph.index_const(*size)).collect();
    graph.node(Op::Stack, DType::WeakInt, &list)
}

fn reshaped(graph: &mut Graph, value: usize, sizes: &[i64]) -> usize {
    let shape = shape(graph, sizes);
    graph.binary(Op::Reshape, DType::Float32, value, shape)
}

fn broadcast(graph: &mut Graph, value: usize, sizes: &[i64]) -> usize {
    let shape = shape(graph, sizes);
    graph.binary(Op::Expand, DType::Float32, value, shape)
}

fn permuted(graph: &mut Graph, value: usize, axes: &[i64]) -> usize {
    let axes: Vec<usize> = axes.iter().map(|axis| graph.index_const(*axis)).collect();
    graph.led(Op::Permute, DType::Float32, value, &axes)
}

fn windowed(graph: &mut Graph, value: usize, offsets: &[i64], sizes: &[i64]) -> usize {
    let offsets = shape(graph, offsets);
    let sizes = shape(graph, sizes);
    graph.ternary(Op::Shrink, DType::Float32, value, offsets, sizes)
}

fn padded(graph: &mut Graph, value: usize, begin: &[i64], end: &[i64]) -> usize {
    let begin = shape(graph, begin);
    let end = shape(graph, end);
    graph.ternary(Op::Pad, DType::Float32, value, begin, end)
}

fn flipped(graph: &mut Graph, value: usize, axes: &[bool]) -> usize {
    let axes: Vec<usize> =
        axes.iter().map(|axis| graph.constant(ConstValue::Bool(*axis), DType::Bool)).collect();
    graph.led(Op::Flip, DType::Float32, value, &axes)
}

fn with_ranges(graph: &mut Graph, value: usize, sizes: &[i64]) -> usize {
    let ranges: Vec<usize> =
        sizes.iter().enumerate().map(|(id, size)| graph.range(*size, AxisType::Loop, id)).collect();
    graph.led(Op::Index, DType::Float32, value, &ranges)
}

/// The number that an index has where the loop of each axis is at a step, if it
/// is valid there.
fn value_at(graph: &Graph, id: usize, steps: &[i64]) -> Option<i64> {
    let source = |at: usize| value_at(graph, graph.source(id, at), steps);
    match graph.op(id) {
        Op::Const(ConstValue::Int(n)) => Some(n),
        Op::Const(ConstValue::Invalid) => None,
        Op::Range { .. } => {
            let place = (0..steps.len()).find(|axis| {
                let op = graph.op(id);
                op == Op::Range {
                    axis: AxisId::Renumbered(*axis),
                    kind: AxisType::Loop,
                }
            });
            place.map(|axis| steps[axis])
        }
        Op::Binary(BinaryOp::Add) => Some(source(0)? + source(1)?),
        Op::Binary(BinaryOp::Sub) => Some(source(0)? - source(1)?),
        Op::Binary(BinaryOp::Mul) => Some(source(0)? * source(1)?),
        Op::Binary(BinaryOp::FloorDiv) => Some(source(0)?.div_euclid(source(1)?)),
        Op::Binary(BinaryOp::FloorMod) => Some(source(0)?.rem_euclid(source(1)?)),
        Op::Binary(BinaryOp::Lt) => Some(i64::from(source(0)? < source(1)?)),
        Op::Binary(BinaryOp::And) => Some(source(0)? & source(1)?),
        Op::Ternary(TernaryOp::Where) => {
            if source(0)? != 0 {
                source(1)
            } else {
                source(2)
            }
        }
        other => panic!("unexpected {other:?}"),
    }
}

fn flat_address(graph: &mut Graph, address: usize) -> usize {
    let result = rewrite(graph, Pass::Address, address);
    assert_eq!(graph.dtype(result), DType::Float32);
    assert_eq!(graph.op(result), Op::Index);
    assert_eq!(graph.source_count(result) - 1, 1, "one flat index");
    assert!(matches!(graph.op(graph.source(result, 0)), Op::Buffer { .. }), "no view survives");
    graph.source(result, 1)
}

#[test]
fn movement_chains_flatten_into_the_buffer_index() {
    let mut graph = Graph::new();
    let storage = buffer(&mut graph, 200);
    let rows = reshaped(&mut graph, storage, &[10, 20]);
    let address = with_ranges(&mut graph, rows, &[10, 20]);
    let index = flat_address(&mut graph, address);
    assert_eq!(value_at(&graph, index, &[3, 7]), Some(67));

    let column = reshaped(&mut graph, storage, &[10, 1, 20]);
    let repeated = broadcast(&mut graph, column, &[10, 5, 20]);
    let address = with_ranges(&mut graph, repeated, &[10, 5, 20]);
    let index = flat_address(&mut graph, address);
    assert_eq!(value_at(&graph, index, &[3, 4, 7]), Some(67));

    let large = buffer(&mut graph, 6000);
    let cube = reshaped(&mut graph, large, &[10, 20, 30]);
    let turned = permuted(&mut graph, cube, &[1, 2, 0]);
    let address = with_ranges(&mut graph, turned, &[20, 30, 10]);
    let index = flat_address(&mut graph, address);
    assert_eq!(value_at(&graph, index, &[19, 29, 9]), Some(5999));
    assert_eq!(value_at(&graph, index, &[1, 2, 3]), Some(3 * 600 + 30 + 2));

    let wide = buffer(&mut graph, 400);
    let rows = reshaped(&mut graph, wide, &[10, 40]);
    let window = windowed(&mut graph, rows, &[0, 10], &[5, 20]);
    let address = with_ranges(&mut graph, window, &[5, 20]);
    let index = flat_address(&mut graph, address);
    assert_eq!(value_at(&graph, index, &[2, 3]), Some(93));

    let rows = reshaped(&mut graph, storage, &[10, 20]);
    let mirrored = flipped(&mut graph, rows, &[false, true]);
    let address = with_ranges(&mut graph, mirrored, &[10, 20]);
    let index = flat_address(&mut graph, address);
    assert_eq!(value_at(&graph, index, &[1, 0]), Some(39));

    let framed = padded(&mut graph, rows, &[1, 2], &[1, 2]);
    let address = with_ranges(&mut graph, framed, &[12, 24]);
    let index = flat_address(&mut graph, address);
    assert_eq!(value_at(&graph, index, &[1, 2]), Some(0));
    assert_eq!(value_at(&graph, index, &[10, 21]), Some(199));
    for outside in [[0, 5], [11, 5], [5, 1], [5, 22]] {
        assert_eq!(value_at(&graph, index, &outside), None, "{outside:?}");
    }

    let short = buffer(&mut graph, 10);
    let column = reshaped(&mut graph, short, &[10, 1]);
    let repeated = broadcast(&mut graph, column, &[10, 5]);
    let line = reshaped(&mut graph, repeated, &[50]);
    let address = with_ranges(&mut graph, line, &[50]);
    let index = flat_address(&mut graph, address);
    assert_eq!(value_at(&graph, index, &[23]), Some(4));
}

#[test]
fn a_zero_offset_shrink_folds_to_the_buffer() {
    let mut graph = Graph::new();
    let storage = buffer(&mut graph, 200);
    let rows = reshaped(&mut graph, storage, &[10, 20]);
    let whole = windowed(&mut graph, rows, &[0, 0], &[10, 20]);
    let address = with_ranges(&mut graph, whole, &[10, 20]);
    let result = fold_views(&mut graph, address);
    assert!(!graph.toposort(result).into_iter().any(|id| graph.op(id) == Op::Shrink));
    assert_eq!(graph.source(result, 0), storage);
    let plain = with_ranges(&mut graph, rows, &[10, 20]);
    assert_eq!(fold_views(&mut graph, plain), result);
}

#[test]
fn a_right_only_pad_does_not_gate_the_index() {
    let mut graph = Graph::new();
    let storage = buffer(&mut graph, 200);
    let rows = reshaped(&mut graph, storage, &[10, 20]);
    let framed = padded(&mut graph, rows, &[0, 0], &[2, 3]);
    let address = with_ranges(&mut graph, framed, &[10, 20]);
    let result = fold_views(&mut graph, address);
    assert!(!graph.toposort(result).into_iter().any(|id| matches!(graph.op(id), Op::Ternary(_))));
    assert_eq!(graph.source(result, 0), storage);
}

#[test]
fn expand_pads_the_rank_and_a_non_movement_source_is_left_alone() {
    let mut graph = Graph::new();
    let storage = buffer(&mut graph, 20);
    let line = reshaped(&mut graph, storage, &[20]);
    let repeated = broadcast(&mut graph, line, &[3, 20]);
    let address = with_ranges(&mut graph, repeated, &[3, 20]);
    let once = fold_view(&mut graph, address).expect("the repeated axis folds");
    assert_eq!(graph.source(once, 0), line);
    let indices: Vec<Op> =
        (1..graph.source_count(once)).map(|at| graph.op(graph.source(once, at))).collect();
    assert_eq!(indices.len(), 2, "the padded axis is still addressed");
    assert!(indices.contains(&Op::Const(ConstValue::Int(0))));

    let repeated = broadcast(&mut graph, storage, &[3, 20]);
    let address = with_ranges(&mut graph, repeated, &[3, 20]);
    let result = fold_views(&mut graph, address);
    assert_eq!(graph.source(result, 0), storage);
    assert_eq!(graph.source_count(result) - 1, 2);
    assert_eq!(graph.op(graph.source(result, 1)), Op::Const(ConstValue::Int(0)));

    let values = buffer(&mut graph, 100);
    let computed = graph.unary(Op::Unary(UnaryOp::Sqrt), DType::Float32, values);
    let address = with_ranges(&mut graph, computed, &[100]);
    let kept = fold_views(&mut graph, address);
    assert_eq!(graph.source(kept, 0), computed);
}

#[test]
fn bare_and_partial_movement_chains_are_untouched() {
    let mut graph = Graph::new();
    let storage = buffer(&mut graph, 10);
    let column = reshaped(&mut graph, storage, &[10, 1]);
    let repeated = broadcast(&mut graph, column, &[10, 4]);
    let turned = permuted(&mut graph, repeated, &[1, 0]);
    assert_eq!(rewrite(&mut graph, Pass::Address, turned), turned);

    let dozen = buffer(&mut graph, 12);
    let rows = reshaped(&mut graph, dozen, &[2, 6]);
    let cube = reshaped(&mut graph, rows, &[2, 3, 2]);
    let half = buffer(&mut graph, 6);
    let square = reshaped(&mut graph, half, &[2, 3]);
    let turned = permuted(&mut graph, square, &[1, 0]);
    let pair = buffer(&mut graph, 2);
    let column = reshaped(&mut graph, pair, &[2, 1]);
    let repeated = broadcast(&mut graph, column, &[2, 3]);
    for view in [cube, turned, repeated] {
        let address = with_ranges(&mut graph, view, &[2]);
        assert_eq!(rewrite(&mut graph, Pass::Address, address), address);
    }
}

#[test]
fn a_partial_reshape_folds_where_the_rest_lines_up() {
    let mut graph = Graph::new();
    let storage = buffer(&mut graph, 24);
    let square = reshaped(&mut graph, storage, &[6, 4]);
    let cube = reshaped(&mut graph, square, &[2, 3, 4]);
    let address = with_ranges(&mut graph, cube, &[2, 3]);
    let result = fold_view(&mut graph, address).expect("the last axis is left as it is");
    assert_eq!(graph.source(result, 0), square);
    assert_eq!(graph.source_count(result), 2);
    assert_eq!(value_at(&graph, graph.source(result, 1), &[1, 2]), Some(5));
}

#[test]
fn end_over_a_movement_chain_folds_too() {
    let mut graph = Graph::new();
    let storage = buffer(&mut graph, 200);
    let rows = reshaped(&mut graph, storage, &[10, 20]);
    let turned = permuted(&mut graph, rows, &[1, 0]);
    let outer = graph.range(20, AxisType::Loop, 0);
    let inner = graph.range(10, AxisType::Loop, 1);
    let ended = graph.end(turned, &[outer, inner]);
    let result = rewrite(&mut graph, Pass::Address, ended);
    assert!(!graph.toposort(result).into_iter().any(|id| graph.op(id) == Op::Permute));
    assert_eq!(graph.op(result), Op::End);
    assert_eq!(graph.source(result, 0), storage);
    let plain = graph.end(storage, &[outer, inner]);
    assert_eq!(result, plain);
    assert_eq!(end_view(&mut graph, plain), None);
}
