//! Rewrites of memory accesses and of vector arithmetic.

use svod_schedule::graph::{BinaryOp, ConstValue, DType, Graph, Op, TernaryOp, UnaryOp};
use svod_schedule::helpers::{any_op, assert_no_invalid, Kind};
use svod_schedule::passes::{
    apply_bool_storage, apply_gater, apply_invalid_fold, apply_no_vectorized_alu, lane_count,
};

fn float(graph: &mut Graph, value: f64) -> usize {
    graph.constant(ConstValue::Float(value.to_bits()), DType::Float32)
}

fn boolean(graph: &mut Graph, value: bool) -> usize {
    graph.constant(ConstValue::Bool(value), DType::Bool)
}

fn bool_var(graph: &mut Graph, name: usize) -> usize {
    graph.leaf(Op::Variable { name, low: 0, high: 1 }, DType::Bool)
}

fn invalid(graph: &mut Graph) -> usize {
    graph.constant(ConstValue::Invalid, DType::Index)
}

fn buffer(graph: &mut Graph, dtype: DType) -> usize {
    graph.leaf(Op::Param { slot: 0, addrspace: None }, dtype)
}

fn index(graph: &mut Graph, buffer: usize, at: &[usize]) -> usize {
    let dtype = graph.dtype(buffer);
    graph.led(Op::Index, dtype, buffer, at)
}

fn load(graph: &mut Graph, address: usize) -> usize {
    let dtype = graph.dtype(address);
    graph.unary(Op::Load, dtype, address)
}

fn store(graph: &mut Graph, address: usize, value: usize) -> usize {
    graph.binary(Op::Store, DType::Void, address, value)
}

fn stack(graph: &mut Graph, dtype: DType, lanes: &[usize]) -> usize {
    graph.node(Op::Stack, dtype, lanes)
}

fn float_values(graph: &mut Graph, values: &[f64]) -> usize {
    let lanes: Vec<usize> = values.iter().map(|value| float(graph, *value)).collect();
    stack(graph, DType::Float32, &lanes)
}

fn bool_values(graph: &mut Graph, values: &[bool]) -> usize {
    let lanes: Vec<usize> = values.iter().map(|value| boolean(graph, *value)).collect();
    stack(graph, DType::Bool, &lanes)
}

fn indices(graph: &mut Graph, values: &[i64]) -> usize {
    let lanes: Vec<usize> = values.iter().map(|value| graph.index_const(*value)).collect();
    stack(graph, DType::Index, &lanes)
}

/// An index that is invalid where the guard does not hold.
fn valid(graph: &mut Graph, at: usize, guard: usize) -> usize {
    let marker = invalid(graph);
    let dtype = graph.dtype(at);
    graph.ternary(Op::Ternary(TernaryOp::Where), dtype, guard, at, marker)
}

fn sources(graph: &Graph, id: usize) -> Vec<usize> {
    (0..graph.source_count(id)).map(|at| graph.source(id, at)).collect()
}

fn is_zero(graph: &Graph, id: usize) -> bool {
    graph.op(id) == Op::Const(ConstValue::Float(0))
}

#[test]
fn a_valid_index_moves_its_gate_onto_the_access() {
    for guarded_store in [false, true] {
        let mut graph = Graph::new();
        let guard = bool_var(&mut graph, 0);
        let at = graph.index_const(3);
        let place = valid(&mut graph, at, guard);
        let param = buffer(&mut graph, DType::Float32);
        let address = index(&mut graph, param, &[place]);
        let access = if guarded_store {
            let value = float(&mut graph, 2.0);
            store(&mut graph, address, value)
        } else {
            load(&mut graph, address)
        };
        let result = apply_gater(&mut graph, access);
        let srcs = sources(&graph, result);
        assert_eq!(srcs.len(), 3);
        if guarded_store {
            assert_eq!(graph.op(result), Op::Store);
        } else {
            assert_eq!(graph.op(result), Op::Load);
            assert!(is_zero(&graph, srcs[1]));
        }
        assert_eq!(srcs[2], guard);
        assert_eq!(graph.op(srcs[0]), Op::Index);
        assert_eq!(sources(&graph, srcs[0]), [param, at]);
    }
}

#[test]
fn shaped_load_gate_uses_post_movement_stack_alt() {
    let mut graph = Graph::new();
    let at = indices(&mut graph, &[0, 1, 2, 3]);
    let guard = bool_values(&mut graph, &[true; 4]);
    let place = valid(&mut graph, at, guard);
    let param = buffer(&mut graph, DType::Float32);
    let address = index(&mut graph, param, &[place]);
    let access = load(&mut graph, address);
    let result = apply_gater(&mut graph, access);
    assert_eq!(graph.op(result), Op::Load);
    let alt = graph.source(result, 1);
    assert_eq!(graph.op(alt), Op::Stack);
    assert_eq!(graph.source_count(alt), 4);
    let moved = graph.toposort(alt).iter().any(|id| {
        matches!(graph.op(*id), Op::Reshape | Op::Permute | Op::Flip | Op::Pad)
    });
    assert!(!moved);
}

#[test]
fn two_index_gate_needs_an_image_buffer() {
    let mut graph = Graph::new();
    let guard = bool_var(&mut graph, 0);
    let (one, two) = (graph.index_const(1), graph.index_const(2));
    let (first, second) = (valid(&mut graph, one, guard), valid(&mut graph, two, guard));
    let param = buffer(&mut graph, DType::Int32);
    let address = index(&mut graph, param, &[first, second]);
    let access = load(&mut graph, address);
    let result = apply_gater(&mut graph, access);
    assert_eq!(graph.op(result), Op::Load);
    assert_eq!(graph.source_count(result), 3);
    let bare = graph.source(result, 0);
    assert_eq!(graph.dtype(bare), DType::Int32);
    assert_eq!(sources(&graph, bare), [param, one, second], "only the first index gives up its guard");
}

#[test]
fn where_after_gated_load_becomes_load_alt() {
    let mut graph = Graph::new();
    let guard = bool_var(&mut graph, 0);
    let alt = float(&mut graph, 7.0);
    let at = graph.index_const(3);
    let place = valid(&mut graph, at, guard);
    let param = buffer(&mut graph, DType::Float32);
    let address = index(&mut graph, param, &[place]);
    let access = load(&mut graph, address);
    let choice = graph.ternary(Op::Ternary(TernaryOp::Where), DType::Float32, guard, access, alt);
    let result = apply_gater(&mut graph, choice);
    assert_eq!(graph.op(result), Op::Load);
    assert_eq!(sources(&graph, result)[1..], [alt, guard]);
}

#[test]
fn symbolic_simple_folds_fully_invalid_memory_accesses() {
    let mut graph = Graph::new();
    let param = buffer(&mut graph, DType::Float32);
    let marker = invalid(&mut graph);
    let scalar = index(&mut graph, param, &[marker]);

    let access = load(&mut graph, scalar);
    let result = apply_invalid_fold(&mut graph, access);
    assert!(is_zero(&graph, result), "a scalar load folds to zero");
    assert!(assert_no_invalid(&graph, result));

    let value = float(&mut graph, 2.0);
    let access = store(&mut graph, scalar, value);
    let result = apply_invalid_fold(&mut graph, access);
    assert_eq!(graph.op(result), Op::Noop, "a scalar store folds to nothing");
    assert!(assert_no_invalid(&graph, result));

    let markers = stack(&mut graph, DType::Index, &[marker, marker]);
    let shaped = index(&mut graph, param, &[markers]);
    let access = load(&mut graph, shaped);
    let result = apply_invalid_fold(&mut graph, access);
    assert_eq!(graph.dtype(result), DType::Float32);
    assert_eq!(graph.op(result), Op::Stack, "a shaped load folds lane by lane");
    assert_eq!(lane_count(&graph, result), 2);
    assert!(sources(&graph, result).iter().all(|lane| is_zero(&graph, *lane)));
    assert!(assert_no_invalid(&graph, result));

    let alt = float_values(&mut graph, &[7.0, 7.0]);
    let guard = boolean(&mut graph, true);
    let access = graph.ternary(Op::Load, DType::Float32, shaped, alt, guard);
    let result = apply_invalid_fold(&mut graph, access);
    assert_eq!(result, alt, "a guarded load folds to the alternative that it has");
    assert!(assert_no_invalid(&graph, result));
}

#[test]
fn invalid_memory_fold_is_not_overbroad() {
    let mut graph = Graph::new();
    let param = buffer(&mut graph, DType::Float32);
    let marker = invalid(&mut graph);

    let one = graph.index_const(1);
    let lanes = stack(&mut graph, DType::Index, &[marker, one]);
    let mixed = index(&mut graph, param, &[lanes]);
    let access = load(&mut graph, mixed);
    let result = apply_invalid_fold(&mut graph, access);
    assert_eq!(graph.op(result), Op::Load, "a partially invalid index survives");

    let zero = graph.index_const(0);
    let second = index(&mut graph, param, &[zero, marker]);
    let access = load(&mut graph, second);
    let result = apply_invalid_fold(&mut graph, access);
    assert_eq!(graph.op(result), Op::Load, "only the first index is folded");

    let address = index(&mut graph, param, &[marker]);
    let value = float(&mut graph, 2.0);
    let guard = boolean(&mut graph, true);
    let access = graph.ternary(Op::Store, DType::Void, address, value, guard);
    let result = apply_invalid_fold(&mut graph, access);
    assert_eq!(graph.op(result), Op::Store, "a guarded store is kept");
    assert_eq!(graph.source_count(result), 3);
}

#[test]
fn load_uses_uint8_storage_only_for_bool() {
    for dtype in [DType::Bool, DType::Float32, DType::Int32] {
        let mut graph = Graph::new();
        let param = buffer(&mut graph, dtype);
        let at = graph.index_const(0);
        let address = index(&mut graph, param, &[at]);
        let access = load(&mut graph, address);
        let result = apply_bool_storage(&mut graph, access);
        assert_eq!(graph.dtype(result), dtype);
        if dtype == DType::Bool {
            assert_eq!(graph.op(result), Op::Cast);
            let byte = graph.source(result, 0);
            assert_eq!(graph.op(byte), Op::Load);
            assert_eq!(graph.dtype(byte), DType::UInt8);
        } else {
            assert_eq!(result, access);
        }
    }
}

#[test]
fn shaped_bool_load_widens_its_vector_base() {
    let mut graph = Graph::new();
    let param = buffer(&mut graph, DType::Bool);
    let at = indices(&mut graph, &[0, 1, 2, 3]);
    let address = index(&mut graph, param, &[at]);
    let access = load(&mut graph, address);
    let result = apply_bool_storage(&mut graph, access);
    assert_eq!((graph.op(result), graph.dtype(result)), (Op::Cast, DType::Bool));
    assert_eq!(lane_count(&graph, result), 4);
    let bytes = graph.source(result, 0);
    assert_eq!(graph.dtype(bytes), DType::UInt8);
    assert_eq!(lane_count(&graph, bytes), 4);
}

#[test]
fn store_uses_uint8_storage_only_for_bool() {
    for row in 0..4 {
        let mut graph = Graph::new();
        let (value, dtype, expected) = match row {
            0 => (boolean(&mut graph, true), DType::Bool, Some(DType::UInt8)),
            1 => {
                let values = bool_values(&mut graph, &[true, false, true, false]);
                (values, DType::Bool, Some(DType::UInt8))
            }
            2 => (float(&mut graph, 3.0), DType::Float32, Some(DType::Float32)),
            _ => (graph.constant(ConstValue::Invalid, DType::Bool), DType::Bool, None),
        };
        let param = buffer(&mut graph, dtype);
        let at = graph.index_const(0);
        let address = index(&mut graph, param, &[at]);
        let access = store(&mut graph, address, value);
        let result = apply_bool_storage(&mut graph, access);
        assert_eq!(graph.op(result), Op::Store);
        match expected {
            Some(stored) => assert_eq!(graph.dtype(graph.source(result, 1)), stored),
            None => assert_eq!(result, access, "an invalid value is stored as it is"),
        }
    }
}

#[test]
fn bitcast_through_bool_becomes_cast() {
    for (from, to) in [(DType::Bool, DType::UInt8), (DType::UInt8, DType::Bool)] {
        let mut graph = Graph::new();
        let value = graph.leaf(Op::Variable { name: 0, low: 0, high: 1 }, from);
        let bits = graph.unary(Op::BitCast, to, value);
        let result = apply_bool_storage(&mut graph, bits);
        assert_eq!((graph.op(result), graph.dtype(result)), (Op::Cast, to));
        assert!(graph.toposort(result).iter().all(|id| graph.op(*id) != Op::BitCast));
    }
}

#[test]
fn gated_bool_load_keeps_gate_and_converts_alt() {
    let mut graph = Graph::new();
    let param = buffer(&mut graph, DType::Bool);
    let at = graph.index_const(0);
    let address = index(&mut graph, param, &[at]);
    let (alt, guard) = (boolean(&mut graph, true), boolean(&mut graph, false));
    let access = graph.ternary(Op::Load, DType::Bool, address, alt, guard);
    let result = apply_bool_storage(&mut graph, access);
    assert_eq!(graph.op(result), Op::Cast);
    let byte = graph.source(result, 0);
    assert_eq!(graph.op(byte), Op::Load);
    assert_eq!(graph.dtype(graph.source(byte, 1)), DType::UInt8);
    assert_eq!(graph.source(byte, 2), guard);
}

#[derive(Clone, Copy, Debug)]
enum Alu {
    Binary(BinaryOp),
    Unary(UnaryOp),
    Cast,
    Where,
    MulAcc,
}

/// The scalar form of the expression when `width` is one, the vector form
/// otherwise.
fn build(graph: &mut Graph, alu: Alu, width: usize, dtype: DType) -> usize {
    let operand = |graph: &mut Graph, base: i64| {
        let lanes: Vec<usize> = (0..width as i64)
            .map(|i| {
                if dtype == DType::Float32 {
                    float(graph, (base + i) as f64)
                } else {
                    graph.constant(ConstValue::Int(base + i), dtype)
                }
            })
            .collect();
        if width == 1 {
            lanes[0]
        } else {
            stack(graph, dtype, &lanes)
        }
    };
    let (a, b) = (operand(graph, 0), operand(graph, 10));
    match alu {
        Alu::Binary(op) => graph.binary(Op::Binary(op), dtype, a, b),
        Alu::Unary(op) => graph.unary(Op::Unary(op), dtype, a),
        Alu::Cast => graph.cast(a, DType::Int64),
        Alu::Where => {
            let condition = if width == 1 {
                boolean(graph, true)
            } else {
                let values: Vec<bool> = (0..width).map(|i| i % 2 == 0).collect();
                bool_values(graph, &values)
            };
            graph.ternary(Op::Ternary(TernaryOp::Where), dtype, condition, a, b)
        }
        Alu::MulAcc => graph.ternary(Op::Ternary(TernaryOp::MulAcc), dtype, a, b, a),
    }
}

fn op_of(alu: Alu) -> Op {
    match alu {
        Alu::Binary(op) => Op::Binary(op),
        Alu::Unary(op) => Op::Unary(op),
        Alu::Cast => Op::Cast,
        Alu::Where => Op::Ternary(TernaryOp::Where),
        Alu::MulAcc => Op::Ternary(TernaryOp::MulAcc),
    }
}

#[test]
fn vector_alu_becomes_a_stack_of_scalar_lanes() {
    let cases = [
        (Alu::Binary(BinaryOp::Add), 4, DType::Float32),
        (Alu::Binary(BinaryOp::Sub), 4, DType::Float32),
        (Alu::Binary(BinaryOp::Mul), 8, DType::Float32),
        (Alu::Binary(BinaryOp::Add), 16, DType::Float32),
        (Alu::Binary(BinaryOp::Add), 4, DType::Int64),
        (Alu::Binary(BinaryOp::And), 4, DType::Int64),
        (Alu::Unary(UnaryOp::Neg), 4, DType::Float32),
        (Alu::Unary(UnaryOp::Sqrt), 4, DType::Float32),
        (Alu::Unary(UnaryOp::Exp2), 4, DType::Float32),
        (Alu::Cast, 4, DType::Float32),
        (Alu::Where, 4, DType::Float32),
        (Alu::MulAcc, 4, DType::Float32),
    ];
    for (alu, width, dtype) in cases {
        let mut graph = Graph::new();
        let vector = build(&mut graph, alu, width, dtype);
        let result = apply_no_vectorized_alu(&mut graph, vector);
        assert_eq!(graph.op(result), Op::Stack, "{alu:?}");
        let lanes = sources(&graph, result);
        assert_eq!(lanes.len(), width);
        for lane in lanes {
            assert_eq!(graph.op(lane), op_of(alu));
            assert_eq!(lane_count(&graph, lane), 1);
        }
    }
}

#[test]
fn scalar_alu_is_left_alone() {
    let cases = [
        Alu::Binary(BinaryOp::Add),
        Alu::Unary(UnaryOp::Sqrt),
        Alu::Cast,
        Alu::Where,
        Alu::MulAcc,
    ];
    for alu in cases {
        let mut graph = Graph::new();
        let scalar = build(&mut graph, alu, 1, DType::Float32);
        assert_eq!(apply_no_vectorized_alu(&mut graph, scalar), scalar, "{alu:?}");
        assert_eq!(graph.op(scalar), op_of(alu));
    }
}

#[test]
fn broadcast_operand_is_scalarized_with_its_vector_partner() {
    let mut graph = Graph::new();
    let values = float_values(&mut graph, &[0.0, 1.0, 2.0, 3.0]);
    let ten = float(&mut graph, 10.0);
    let tens = stack(&mut graph, DType::Float32, &[ten; 4]);
    let sum = graph.alu(BinaryOp::Add, values, tens);
    let result = apply_no_vectorized_alu(&mut graph, sum);
    assert_eq!(graph.op(result), Op::Stack);
    let lanes = sources(&graph, result);
    assert_eq!(lanes.len(), 4);
    for (lane, value) in lanes.iter().zip(sources(&graph, values)) {
        assert_eq!(graph.op(*lane), Op::Binary(BinaryOp::Add));
        assert_eq!(sources(&graph, *lane), [value, ten]);
    }
}

#[test]
fn mismatched_source_extent_is_not_scalarized() {
    let mut graph = Graph::new();
    let values = float_values(&mut graph, &[0.0, 1.0, 2.0, 3.0]);
    let ten = float(&mut graph, 10.0);
    let sum = graph.alu(BinaryOp::Add, values, ten);
    let result = apply_no_vectorized_alu(&mut graph, sum);
    assert_eq!(graph.op(result), Op::Binary(BinaryOp::Add));
}

#[test]
fn shaped_load_lanes_go_through_index_extraction() {
    let mut graph = Graph::new();
    let offsets = indices(&mut graph, &[0, 1]);
    let param = buffer(&mut graph, DType::Float32);
    let address = index(&mut graph, param, &[offsets]);
    let value = load(&mut graph, address);
    let sum = graph.alu(BinaryOp::Add, value, value);
    let result = apply_no_vectorized_alu(&mut graph, sum);
    assert_eq!(graph.op(result), Op::Stack);
    assert_eq!(graph.source_count(result), 2);
    for (at, lane) in sources(&graph, result).into_iter().enumerate() {
        assert_eq!(graph.op(lane), Op::Binary(BinaryOp::Add));
        let operands = sources(&graph, lane);
        assert_eq!(operands[0], operands[1]);
        let read = operands[0];
        assert_eq!((graph.op(read), graph.dtype(read)), (Op::Index, DType::Float32));
        let parts = sources(&graph, read);
        assert_eq!(parts.len(), 2);
        assert_eq!(parts[0], value);
        assert_eq!(graph.op(parts[1]), Op::Const(ConstValue::Int(at as i64)));
    }
}

#[test]
fn shaped_invalid_is_indexed_lane_by_lane() {
    let mut graph = Graph::new();
    let marker = invalid(&mut graph);
    let markers = stack(&mut graph, DType::Index, &[marker; 4]);
    let at = indices(&mut graph, &[0, 1, 2, 3]);
    let condition = bool_values(&mut graph, &[true, false, true, false]);
    let choice = Op::Ternary(TernaryOp::Where);
    let vector = graph.ternary(choice, DType::WeakInt, condition, markers, at);
    let result = apply_no_vectorized_alu(&mut graph, vector);
    assert_eq!(graph.op(result), Op::Stack);
    for lane in sources(&graph, result) {
        assert_eq!(graph.op(lane), choice);
        assert_eq!(graph.source(lane, 1), marker);
    }
    assert!(any_op(&graph, result, Kind::Invalid));
}
