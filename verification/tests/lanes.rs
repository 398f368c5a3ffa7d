//! Values of several elements taken apart.

use svod_schedule::graph::{AddrSpace, BinaryOp, ConstValue, DType, Graph, Op};
use svod_schedule::lanes::{find_lanes, take_apart};
use svod_schedule::passes::apply_no_vectorized_alu;
use svod_schedule::scalarize::apply_devectorize_patterns;

fn sources(graph: &Graph, id: usize) -> Vec<usize> {
    (0..graph.source_count(id)).map(|at| graph.source(id, at)).collect()
}

fn float(graph: &mut Graph, value: f64) -> usize {
    graph.constant(ConstValue::Float(value.to_bits()), DType::Float32)
}

fn stack(graph: &mut Graph, list: &[usize]) -> usize {
    let dtype = graph.dtype(list[0]);
    graph.node(Op::Stack, dtype, list)
}

fn float_values(graph: &mut Graph, values: &[f64]) -> usize {
    let list: Vec<usize> = values.iter().map(|&value| float(graph, value)).collect();
    stack(graph, &list)
}

fn shape(graph: &mut Graph, sizes: &[i64]) -> usize {
    let list: Vec<usize> = sizes.iter().map(|&size| graph.index_const(size)).collect();
    graph.node(Op::Stack, DType::WeakInt, &list)
}

fn view(graph: &mut Graph, op: Op, value: usize, sizes: &[i64]) -> usize {
    let to = shape(graph, sizes);
    let dtype = graph.dtype(value);
    graph.binary(op, dtype, value, to)
}

fn buffer(graph: &mut Graph, size: usize) -> usize {
    graph.leaf(Op::Buffer { slot: 0, space: AddrSpace::Global, size }, DType::Float32)
}

fn select(graph: &mut Graph, value: usize, lane: i64) -> usize {
    let at = graph.index_const(lane);
    graph.binary(Op::Index, DType::Float32, value, at)
}

fn is_moving(op: Op) -> bool {
    matches!(op, Op::Reshape | Op::Expand | Op::Permute | Op::Flip | Op::Pad)
}

fn devectorized(graph: &mut Graph, root: usize) -> usize {
    let mut now = root;
    loop {
        let apart = apply_devectorize_patterns(graph, now);
        let next = apply_no_vectorized_alu(graph, apart);
        if next == now {
            return now;
        }
        now = next;
    }
}

#[test]
fn stacked_index_becomes_stack_of_scalar_indices() {
    let mut graph = Graph::new();
    let storage = buffer(&mut graph, 8);
    let lanes = shape(&mut graph, &[1, 3]);
    let shaped = graph.binary(Op::Index, DType::Float32, storage, lanes);
    let result = devectorized(&mut graph, shaped);
    assert_eq!(graph.op(result), Op::Stack);
    let list = sources(&graph, result);
    assert_eq!(list.len(), 2);
    assert!(list.iter().all(|&id| graph.dtype(id) == DType::Float32));
    assert!(list.iter().all(|&id| graph.op(id) == Op::Index && graph.source_count(id) == 2));
}

#[test]
fn reshaped_index_is_fully_consumed_by_shaped_indexing() {
    let mut graph = Graph::new();
    let storage = buffer(&mut graph, 8);
    let lanes = shape(&mut graph, &[0, 1]);
    let indices = view(&mut graph, Op::Reshape, lanes, &[1, 2]);
    let shaped = graph.binary(Op::Index, DType::Float32, storage, indices);
    let zero = graph.index_const(0);
    let one = graph.index_const(1);
    let picked = graph.ternary(Op::Index, DType::Float32, shaped, zero, one);
    let result = devectorized(&mut graph, picked);
    assert_eq!(graph.op(result), Op::Index);
    assert_eq!(sources(&graph, result), [storage, one]);
    assert!(!graph.toposort(result).into_iter().any(|id| is_moving(graph.op(id))));
}

#[test]
fn scalar_expand_becomes_stack() {
    let mut graph = Graph::new();
    let one = float(&mut graph, 1.0);
    let expand = view(&mut graph, Op::Expand, one, &[4]);
    let result = devectorized(&mut graph, expand);
    assert_eq!(graph.op(result), Op::Stack);
    assert_eq!(graph.source_count(result), 4);
    assert_eq!(graph.dtype(result), DType::Float32);
}

#[test]
fn singleton_reshape_to_scalar_becomes_index() {
    let mut graph = Graph::new();
    let values = float_values(&mut graph, &[2.0]);
    let scalar = view(&mut graph, Op::Reshape, values, &[]);
    let once = take_apart(&mut graph, scalar).expect("the only element");
    assert_eq!(graph.op(once), Op::Index);
    let result = devectorized(&mut graph, scalar);
    assert_eq!(
        graph.op(result),
        Op::Const(ConstValue::Float(2.0f64.to_bits())),
        "constant INDEX into STACK should clean up"
    );
}

#[test]
fn void_reshape_is_removed() {
    let mut graph = Graph::new();
    let store = graph.leaf(Op::Noop, DType::Void);
    let reshape = view(&mut graph, Op::Reshape, store, &[]);
    assert_eq!(devectorized(&mut graph, reshape), store);
}

#[test]
fn scalar_index_into_stack_folds_without_reconstructing_storage() {
    let mut graph = Graph::new();
    let values = float_values(&mut graph, &[1.0, 2.0]);
    let first = select(&mut graph, values, 0);
    let second = select(&mut graph, values, 1);
    let rebuilt = stack(&mut graph, &[first, second]);
    let folded = devectorized(&mut graph, rebuilt);
    assert_eq!(graph.op(folded), Op::Stack);
    assert_eq!(folded, values);
    let selected = devectorized(&mut graph, second);
    assert_eq!(graph.op(selected), Op::Const(ConstValue::Float(2.0f64.to_bits())));
    let outside = select(&mut graph, values, 2);
    assert_eq!(take_apart(&mut graph, outside), None, "there is no such lane");
}

#[test]
fn adjacent_movement_ops_are_cleaned_in_upstream_order() {
    let mut graph = Graph::new();
    let values = float_values(&mut graph, &[1.0, 2.0]);
    let row = view(&mut graph, Op::Reshape, values, &[1, 2]);
    let reshaped = view(&mut graph, Op::Reshape, row, &[2]);
    let zero = graph.index_const(0);
    let once = graph.binary(Op::Permute, DType::Float32, values, zero);
    let permuted = graph.binary(Op::Permute, DType::Float32, once, zero);
    for nested in [reshaped, permuted] {
        let result = devectorized(&mut graph, nested);
        assert_eq!(find_lanes(&graph, result), Some(vec![2]));
        assert!(!graph.toposort(result).into_iter().any(|id| is_moving(graph.op(id))));
    }
}

#[test]
fn child_singleton_reshape_is_visible_to_parent_expand() {
    let mut graph = Graph::new();
    let values = float_values(&mut graph, &[1.0, 2.0]);
    let row = view(&mut graph, Op::Reshape, values, &[1, 2]);
    let expanded = view(&mut graph, Op::Expand, row, &[3, 2]);
    let result = devectorized(&mut graph, expanded);
    assert_eq!(graph.op(result), Op::Stack);
    assert_eq!(sources(&graph, result), [values, values, values]);
    assert!(!graph
        .toposort(result)
        .into_iter()
        .any(|id| matches!(graph.op(id), Op::Reshape | Op::Expand)));
}

#[test]
fn child_stack_broadcast_is_visible_to_mixed_alu_parent() {
    let mut graph = Graph::new();
    let single = float_values(&mut graph, &[2.0]);
    let broadcast = view(&mut graph, Op::Expand, single, &[4]);
    let vector = float_values(&mut graph, &[1.0, 1.0, 1.0, 1.0]);
    let add = graph.alu(BinaryOp::Add, broadcast, vector);
    let result = devectorized(&mut graph, add);
    assert_eq!(graph.op(result), Op::Stack);
    assert_eq!(graph.source_count(result), 4, "expected scalar STACK ALU");
    assert!(!graph.toposort(result).into_iter().any(|id| {
        matches!(graph.op(id), Op::Binary(_) | Op::Ternary(_))
            && sources(&graph, id).iter().any(|&source| graph.op(source) == Op::Stack)
    }));
}
