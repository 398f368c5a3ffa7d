//! Values and memory accesses of several lanes taken apart.

use svod_schedule::finish::apply_final_rewrite;
use svod_schedule::graph::{
    AddrSpace, AxisId, AxisType, BinaryOp, ConstValue, DType, Graph, Op, TernaryOp,
};
use svod_schedule::helpers::{assert_no_invalid, loads, stores};
use svod_schedule::passes::{apply_gater, lane_count};
use svod_schedule::scalarize::{apply_devectorize, scalarize};
use svod_schedule::shaped::{
    buffer_to_define, codegen_param, index_axes, iota_addr, reshape_to, shaped_addr,
};
use svod_schedule::shape::find_dims;

fn buffer_of(graph: &mut Graph, slot: usize, size: usize, dtype: DType) -> usize {
    graph.leaf(Op::Buffer { slot, space: AddrSpace::Global, size }, dtype)
}

fn load(graph: &mut Graph, address: usize) -> usize {
    let dtype = graph.dtype(address);
    graph.unary(Op::Load, dtype, address)
}

fn store(graph: &mut Graph, address: usize, value: usize) -> usize {
    graph.binary(Op::Store, DType::Void, address, value)
}

fn float_values(graph: &mut Graph, values: &[f64]) -> usize {
    let values: Vec<usize> = values
        .iter()
        .map(|value| graph.constant(ConstValue::Float(value.to_bits()), DType::Float32))
        .collect();
    graph.node(Op::Stack, DType::Float32, &values)
}

#[test]
fn shaped_load_becomes_one_scalar_load_per_lane() {
    let cases: [(DType, &[i64]); 11] = [
        (DType::Float32, &[0, 1, 2, 3]),
        (DType::Float32, &[0, 1, 2, 3, 4, 5, 6, 7]),
        (DType::Float32, &[0, 2, 4, 6]),
        (DType::Float32, &[3, 4, 5, 6]),
        (DType::Float32, &[0, 1, 2]),
        (DType::Float32, &[0, 1, 2, 3, 4]),
        (DType::Float32, &[9000, 9001, 9002, 9003]),
        (DType::Float16, &[0, 1, 2, 3]),
        (DType::Int8, &[0, 1, 2, 3]),
        (DType::UInt8, &[0, 1, 2, 3]),
        (DType::Int32, &[0, 1, 2, 3]),
    ];
    for (scalar, offsets) in cases {
        let mut graph = Graph::new();
        let storage = buffer_of(&mut graph, 0, 16384, scalar);
        let address = shaped_addr(&mut graph, storage, offsets);
        let access = load(&mut graph, address);
        let result = apply_devectorize(&mut graph, access);
        assert_eq!(lane_count(&graph, result), offsets.len());
        assert_eq!(loads(&graph, result), offsets.len());
        assert_eq!(graph.op(result), Op::Stack);
        assert_eq!(graph.source_count(result), offsets.len());
        for (at, offset) in offsets.iter().enumerate() {
            let lane = graph.source(result, at);
            assert_eq!(graph.dtype(lane), scalar);
            let index = graph.source(graph.source(lane, 0), 1);
            assert_eq!(graph.op(index), Op::Const(ConstValue::Int(*offset)));
        }
    }
}

#[test]
fn wide_shaped_load_is_fully_scalarized() {
    for width in [32, 64] {
        let mut graph = Graph::new();
        let storage = buffer_of(&mut graph, 0, 16384, DType::Float32);
        let address = iota_addr(&mut graph, storage, width);
        let access = load(&mut graph, address);
        let result = apply_devectorize(&mut graph, access);
        assert_eq!(lane_count(&graph, result), width);
        assert_eq!(loads(&graph, result), width);
    }
}

#[test]
fn shaped_elementwise_kernel_scalarizes_loads_and_stores() {
    let mut graph = Graph::new();
    let [left, right] = [0, 1].map(|slot| {
        let storage = buffer_of(&mut graph, slot, 64, DType::Float32);
        let address = iota_addr(&mut graph, storage, 4);
        load(&mut graph, address)
    });
    let sum = graph.alu(BinaryOp::Add, left, right);
    let target = buffer_of(&mut graph, 2, 64, DType::Float32);
    let address = iota_addr(&mut graph, target, 4);
    let kernel = store(&mut graph, address, sum);
    let result = apply_devectorize(&mut graph, kernel);
    assert_eq!(loads(&graph, result), 8);
    assert_eq!(stores(&graph, result), 4);
    for id in graph.toposort(result) {
        if matches!(graph.op(id), Op::Load | Op::Store) {
            assert_eq!(lane_count(&graph, id), 1);
        }
    }
}

#[test]
fn sink_scalarizes_every_shaped_store() {
    let mut graph = Graph::new();
    let lists = [[0.0, 1.0, 2.0, 3.0], [9.0; 4]];
    let written: Vec<usize> = lists
        .iter()
        .enumerate()
        .map(|(slot, values)| {
            let storage = buffer_of(&mut graph, slot, 64, DType::Float32);
            let address = iota_addr(&mut graph, storage, 4);
            let value = float_values(&mut graph, values);
            store(&mut graph, address, value)
        })
        .collect();
    let sink = graph.sink(&written);
    let result = apply_devectorize(&mut graph, sink);
    assert_eq!(stores(&graph, result), 8);
}

fn lanes_from(graph: &mut Graph, base: usize) -> usize {
    let lanes: Vec<usize> = (0..4)
        .map(|lane| {
            let lane = graph.index_const(lane);
            graph.alu(BinaryOp::Add, base, lane)
        })
        .collect();
    graph.node(Op::Stack, DType::WeakInt, &lanes)
}

#[test]
fn loop_dependent_shaped_load_is_scalarized() {
    let mut graph = Graph::new();
    let size = graph.index_const(256);
    let storage =
        graph.unary(Op::Param { slot: 20000, addrspace: None }, DType::Float32, size);
    let range = graph.range(64, AxisType::Loop, 0);
    let four = graph.index_const(4);
    let base = graph.alu(BinaryOp::Mul, range, four);
    let offsets = lanes_from(&mut graph, base);
    let address = graph.binary(Op::Index, DType::Float32, storage, offsets);
    let access = load(&mut graph, address);
    let result = apply_devectorize(&mut graph, access);
    assert_eq!(lane_count(&graph, result), 4);
    assert_eq!(loads(&graph, result), 4);
}

#[test]
fn a_flat_memory_index_stays_flat() {
    let mut graph = Graph::new();
    let size = graph.index_const(64);
    let storage =
        graph.unary(Op::Param { slot: 22000, addrspace: None }, DType::Float32, size);
    let row = graph.range(8, AxisType::Loop, 22001);
    let eight = graph.index_const(8);
    let base = graph.alu(BinaryOp::Mul, row, eight);
    let offsets = lanes_from(&mut graph, base);
    let address = graph.binary(Op::Index, DType::Float32, storage, offsets);
    let access = load(&mut graph, address);
    let result = apply_devectorize(&mut graph, access);
    for id in graph.toposort(result) {
        if graph.op(id) == Op::Index {
            assert_eq!(graph.source(id, 0), storage);
            assert_eq!(graph.source_count(id) - 1, 1);
            assert_eq!(lane_count(&graph, graph.source(id, 1)), 1);
        }
    }
}

#[test]
fn shaped_register_store_preserves_outer_range() {
    let mut graph = Graph::new();
    let extent = graph.index_const(4);
    let axis = AxisId::Unrenumbered(0);
    let outer = graph.unary(Op::Range { axis, kind: AxisType::Loop }, DType::WeakInt, extent);
    let register =
        graph.leaf(Op::Buffer { slot: 0, space: AddrSpace::Reg, size: 2 }, DType::Float32);
    let target = graph.after(register, &[outer]);
    let zeros = float_values(&mut graph, &[0.0, 0.0]);
    let kernel = store(&mut graph, target, zeros);
    let result = apply_devectorize(&mut graph, kernel);
    let written: Vec<usize> =
        graph.toposort(result).into_iter().filter(|id| graph.op(*id) == Op::Store).collect();
    assert_eq!(written.len(), 2);
    for id in written {
        assert!(graph.scopes()[id][outer]);
    }
}

#[test]
fn scalar_memory_ops_pass_through() {
    let mut graph = Graph::new();
    let storage = buffer_of(&mut graph, 0, 64, DType::Float32);
    let five = graph.index_const(5);
    let address = graph.binary(Op::Index, DType::Float32, storage, five);
    assert_eq!(apply_devectorize(&mut graph, address), address);
    let access = load(&mut graph, address);
    let result = apply_devectorize(&mut graph, access);
    assert_eq!(graph.op(result), Op::Load);
    assert_eq!(graph.dtype(result), DType::Float32);
}

#[test]
fn sink_structure_is_preserved() {
    let mut graph = Graph::new();
    let empty = graph.sink(&[]);
    let result = apply_devectorize(&mut graph, empty);
    assert_eq!((graph.op(result), graph.source_count(result)), (Op::Sink, 0));
    let noop = graph.leaf(Op::Noop, DType::Void);
    let sink = graph.sink(&[noop]);
    let result = apply_devectorize(&mut graph, sink);
    assert_eq!((graph.op(result), graph.source_count(result)), (Op::Sink, 1));
    assert_eq!(graph.op(graph.source(result, 0)), Op::Noop);
}

#[test]
fn devectorize_lowers_bool_loads() {
    let mut graph = Graph::new();
    let storage = buffer_of(&mut graph, 0, 64, DType::Bool);
    let zero = graph.index_const(0);
    let address = graph.binary(Op::Index, DType::Bool, storage, zero);
    let access = load(&mut graph, address);
    let result = apply_devectorize(&mut graph, access);
    assert_eq!(graph.op(result), Op::Cast);
    assert_eq!(graph.dtype(graph.source(result, 0)), DType::UInt8);
    assert_eq!(graph.dtype(result), DType::Bool);
}

#[test]
fn a_guarded_access_is_guarded_on_every_lane() {
    let mut graph = Graph::new();
    let storage = buffer_of(&mut graph, 0, 64, DType::Float32);
    let address = iota_addr(&mut graph, storage, 2);
    let gate = graph.leaf(Op::Variable { name: 0, low: 0, high: 1 }, DType::Bool);
    let other = float_values(&mut graph, &[7.0, 8.0]);
    let access = graph.ternary(Op::Load, DType::Float32, address, other, gate);
    let result = scalarize(&mut graph, access).expect("two lanes");
    for at in 0..2 {
        let lane = graph.source(result, at);
        assert_eq!(graph.source(lane, 1), graph.source(other, at));
        assert_eq!(graph.source(lane, 2), gate);
    }
    let three = float_values(&mut graph, &[7.0, 8.0, 9.0]);
    let uneven = graph.ternary(Op::Load, DType::Float32, address, three, gate);
    assert_eq!(scalarize(&mut graph, uneven), None);
}

#[test]
fn shaped_index_keeps_its_selected_positions() {
    let mut graph = Graph::new();
    let values: Vec<f64> = (0..8).map(f64::from).collect();
    let values = float_values(&mut graph, &values);
    let indexed = index_axes(&mut graph, values, &[1, 3, 5, 7]);
    assert_eq!(graph.op(indexed), Op::Index);
    let stack = graph.source(indexed, 1);
    assert_eq!(graph.op(stack), Op::Stack);
    let positions: Vec<Op> =
        (0..graph.source_count(stack)).map(|at| graph.op(graph.source(stack, at))).collect();
    assert_eq!(positions, [1, 3, 5, 7].map(|at| Op::Const(ConstValue::Int(at))));
}

#[test]
fn final_rewrite_removes_data_invalid_and_keeps_gated_memory() {
    let mut graph = Graph::new();
    let gate = graph.leaf(Op::Variable { name: 0, low: 0, high: 1 }, DType::Bool);
    let marker = graph.constant(ConstValue::Invalid, DType::WeakInt);
    let [three, four, five, six] = [3.0f64, 4.0, 5.0, 6.0]
        .map(|value| graph.constant(ConstValue::Float(value.to_bits()), DType::Float32));
    let invalid_data =
        graph.ternary(Op::Ternary(TernaryOp::Where), DType::Float32, gate, three, marker);
    let value = graph.node(Op::Stack, DType::Float32, &[invalid_data, four, five, six]);
    let storage = buffer_of(&mut graph, 0, 16, DType::Float32);
    let zero = graph.index_const(0);
    let target = graph.binary(Op::Index, DType::Float32, storage, zero);
    let written = store(&mut graph, target, value);
    let result = apply_final_rewrite(&mut graph, written);
    assert!(assert_no_invalid(&graph, result));

    let address = graph.index_const(3);
    let valid =
        graph.ternary(Op::Ternary(TernaryOp::Where), DType::WeakInt, gate, address, marker);
    let guarded = graph.binary(Op::Index, DType::Float32, storage, valid);
    let access = load(&mut graph, guarded);
    let gated = apply_gater(&mut graph, access);
    assert!(assert_no_invalid(&graph, gated));
    let result = apply_final_rewrite(&mut graph, gated);
    assert!(assert_no_invalid(&graph, result));
    assert_eq!((graph.op(result), graph.source_count(result)), (Op::Load, 3));
    assert_eq!(graph.source(result, 2), gate);
    let index = graph.source(result, 0);
    assert_eq!(graph.op(index), Op::Index);
    assert_eq!(graph.source(index, 1), address);
}

#[test]
fn a_bare_invalid_value_becomes_zero() {
    let mut graph = Graph::new();
    let marker = graph.constant(ConstValue::Invalid, DType::Float32);
    let result = apply_final_rewrite(&mut graph, marker);
    assert_eq!(graph.op(result), Op::Const(ConstValue::Float(0)));
    let index = graph.constant(ConstValue::Invalid, DType::WeakInt);
    assert_eq!(apply_final_rewrite(&mut graph, index), index);
}

#[test]
fn shaped_builders() {
    let mut graph = Graph::new();
    let param = codegen_param(&mut graph, 3, DType::Int32, AddrSpace::Local);
    assert_eq!(graph.op(param), Op::Param { slot: 3, addrspace: Some(AddrSpace::Local) });
    assert_eq!(find_dims(&graph, param), Some(vec![]));
    for (node, size) in
        [(buffer_of(&mut graph, 0, 40, DType::Float32), 40), (param, 1024)]
    {
        let define = buffer_to_define(&mut graph, node);
        assert_eq!(graph.op(define), Op::Param { slot: node, addrspace: None });
        assert_eq!(find_dims(&graph, define), Some(vec![size]));
    }
    let line = float_values(&mut graph, &[1.0, 2.0, 3.0, 4.0]);
    let square = reshape_to(&mut graph, line, &[2, 2]);
    assert_eq!(find_dims(&graph, square), Some(vec![2, 2]));
    assert_eq!(lane_count(&graph, square), 4);
}
