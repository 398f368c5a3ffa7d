//! Loops that are split, made longer, or compared.

use svod_schedule::collapse::reduce_load_collapse;
use svod_schedule::graph::{AddrSpace, AxisId, AxisType, BinaryOp, ConstValue, DType, Graph, Op, ReduceOp, TernaryOp};
use svod_schedule::helpers::no_range_oracle;
use svod_schedule::lift::lift_summand;
use svod_schedule::pad::pad_range;
use svod_schedule::shift::shift_range;

fn sources(graph: &Graph, id: usize) -> Vec<usize> {
    (0..graph.source_count(id)).map(|at| graph.source(id, at)).collect()
}

fn float(graph: &mut Graph, value: f64) -> usize {
    graph.constant(ConstValue::Float(value.to_bits()), DType::Float32)
}

fn extent(graph: &Graph, range: usize) -> i64 {
    match graph.op(graph.source(range, 0)) {
        Op::Const(ConstValue::Int(n)) => n,
        other => panic!("expected a constant extent, got {other:?}"),
    }
}

fn value_at(graph: &Graph, id: usize, step: fn(AxisId) -> i64) -> i64 {
    match graph.op(id) {
        Op::Const(ConstValue::Int(n)) => n,
        Op::Range { axis, .. } => step(axis),
        Op::Binary(op) => {
            let a = value_at(graph, graph.source(id, 0), step);
            let b = value_at(graph, graph.source(id, 1), step);
            match op {
                BinaryOp::Add => a + b,
                BinaryOp::Sub => a - b,
                BinaryOp::Mul => a * b,
                other => panic!("unexpected {other:?}"),
            }
        }
        other => panic!("unexpected {other:?}"),
    }
}

fn evaluated(graph: &Graph, id: usize) -> f64 {
    match graph.op(id) {
        Op::Const(ConstValue::Float(bits)) => f64::from_bits(bits),
        Op::Const(ConstValue::Int(n)) => n as f64,
        Op::Cast => evaluated(graph, graph.source(id, 0)),
        Op::Binary(BinaryOp::Mul) => evaluated(graph, graph.source(id, 0)) * evaluated(graph, graph.source(id, 1)),
        other => panic!("unexpected {other:?}"),
    }
}

#[test]
fn test_shift_to_with_custom_range() {
    let mut graph = Graph::new();
    let range = graph.range(16, AxisType::Global, 0);
    let root = graph.sink(&[range]);
    let custom = graph.range(4, AxisType::Upcast, 99);
    let split = shift_range(
        &mut graph,
        root,
        range,
        4,
        AxisId::Renumbered(99),
        AxisType::Upcast,
        false,
    )
    .expect("16 % 4 == 0");
    assert_eq!(split.new, custom);
    assert_eq!(
        graph.op(split.new),
        Op::Range { axis: AxisId::Renumbered(99), kind: AxisType::Upcast }
    );
    assert_eq!(extent(&graph, split.replaced), 4);
    assert_eq!(graph.op(split.replaced), graph.op(range));
}

#[test]
fn a_split_loop_stands_for_every_step_once() {
    for top in [false, true] {
        let mut graph = Graph::new();
        let range = graph.range(12, AxisType::Global, 0);
        let two = graph.index_const(2);
        let doubled = graph.alu(BinaryOp::Mul, range, two);
        let root = graph.sink(&[doubled]);
        let split =
            shift_range(&mut graph, root, range, 4, AxisId::Renumbered(1), AxisType::Local, top)
                .expect("12 % 4 == 0");
        let value = graph.source(split.root, 0);
        assert_eq!(graph.op(value), Op::Binary(BinaryOp::Mul));
        let at = |axis: AxisId| match axis {
            AxisId::Renumbered(0) => 2,
            _ => 3,
        };
        let expected = if top { 3 * 3 + 2 } else { 2 * 4 + 3 };
        assert_eq!(value_at(&graph, value, at), 2 * expected);
        assert_eq!((extent(&graph, split.replaced), extent(&graph, split.new)), (3, 4));
    }
}

#[test]
fn an_extent_that_is_no_multiple_is_not_split() {
    let mut graph = Graph::new();
    let range = graph.range(10, AxisType::Global, 0);
    let root = graph.sink(&[range]);
    for amount in [4, 0, -5] {
        assert_eq!(
            shift_range(&mut graph, root, range, amount, AxisId::Renumbered(1), AxisType::Local, false),
            None
        );
    }
}

#[test]
fn a_symbolic_extent_is_split_by_its_factor() {
    let mut graph = Graph::new();
    let v = graph.leaf(Op::Variable { name: 0, low: 1, high: 8 }, DType::WeakInt);
    let four = graph.index_const(4);
    let end = graph.alu(BinaryOp::Mul, v, four);
    let range = graph.unary(
        Op::Range { axis: AxisId::Renumbered(0), kind: AxisType::Global },
        DType::WeakInt,
        end,
    );
    let root = graph.sink(&[range]);
    let whole =
        shift_range(&mut graph, root, range, 4, AxisId::Renumbered(1), AxisType::Local, false)
            .expect("the factor is a multiple");
    assert_eq!(graph.source(whole.replaced, 0), v, "the quotient must still depend on V");
    let half =
        shift_range(&mut graph, root, range, 2, AxisId::Renumbered(1), AxisType::Local, false)
            .expect("the factor is a multiple");
    let quotient = graph.source(half.replaced, 0);
    assert_eq!(graph.op(quotient), Op::Binary(BinaryOp::Mul));
    assert_eq!(graph.source(quotient, 0), v);
}

#[test]
fn test_padto_rounds_the_axis_and_gates_the_index() {
    let mut graph = Graph::new();
    let range = graph.range(24, AxisType::Global, 0);
    let storage =
        graph.leaf(Op::Buffer { slot: 0, space: AddrSpace::Global, size: 24 }, DType::Float32);
    let address = graph.binary(Op::Index, DType::Float32, storage, range);
    let value = graph.unary(Op::Load, DType::Float32, address);
    let root = graph.sink(&[value, range]);
    let padded = pad_range(&mut graph, root, range, 32).expect("a constant axis");
    let loops: Vec<usize> = graph
        .toposort(padded)
        .into_iter()
        .filter(|&id| matches!(graph.op(id), Op::Range { .. }))
        .collect();
    assert_eq!(loops.iter().map(|&id| extent(&graph, id)).collect::<Vec<_>>(), [32], "24 rounds up to 32");
    let access = graph.source(graph.source(padded, 0), 0);
    let guarded = graph.source(access, 1);
    assert_eq!(graph.op(guarded), Op::Ternary(TernaryOp::Where));
    let (condition, index, invalid) =
        (graph.source(guarded, 0), graph.source(guarded, 1), graph.source(guarded, 2));
    assert_eq!(graph.op(invalid), Op::Const(ConstValue::Invalid), "padded lanes must read Invalid");
    assert_eq!(extent(&graph, index), 32, "the index reads the padded axis");
    assert_eq!(graph.op(condition), Op::Binary(BinaryOp::Lt));
    assert_eq!(graph.op(graph.source(condition, 1)), Op::Const(ConstValue::Int(24)));
}

#[test]
fn padding_joins_a_guard_that_is_there_and_skips_other_loops() {
    let mut graph = Graph::new();
    let range = graph.range(6, AxisType::Global, 0);
    let other = graph.range(5, AxisType::Global, 1);
    let storage =
        graph.leaf(Op::Buffer { slot: 0, space: AddrSpace::Global, size: 30 }, DType::Float32);
    let four = graph.index_const(4);
    let below = graph.binary(Op::Binary(BinaryOp::Lt), DType::Bool, range, four);
    let invalid = graph.constant(ConstValue::Invalid, DType::WeakInt);
    let guarded = graph.ternary(Op::Ternary(TernaryOp::Where), DType::WeakInt, below, range, invalid);
    let address = graph.led(Op::Index, DType::Float32, storage, &[guarded, other]);
    let root = graph.sink(&[address]);
    let padded = pad_range(&mut graph, root, range, 8).expect("a constant axis");
    let access = graph.source(padded, 0);
    let list = sources(&graph, access);
    assert_eq!(list[2], other);
    let condition = graph.source(list[1], 0);
    assert_eq!(graph.op(condition), Op::Binary(BinaryOp::And));
    assert_eq!(extent(&graph, graph.source(list[1], 1)), 8);
    assert_eq!(pad_range(&mut graph, root, range, 5), None, "a loop does not get shorter");
}

#[test]
fn an_index_overflow_bound_keeps_the_loaded_side_on_the_left() {
    let mut graph = Graph::new();
    let storage =
        graph.leaf(Op::Buffer { slot: 0, space: AddrSpace::Global, size: 16 }, DType::Index);
    let zero = graph.index_const(0);
    let place = graph.binary(Op::Index, DType::Index, storage, zero);
    let loaded = graph.unary(Op::Load, DType::Index, place);
    let address = graph.cast(loaded, DType::WeakInt);
    let offset = graph.index_const(3);
    let sum = graph.alu(BinaryOp::Add, address, offset);
    let ten = graph.index_const(10);
    let condition = graph.binary(Op::Binary(BinaryOp::Lt), DType::Bool, sum, ten);
    let folded = lift_summand(&mut graph, condition).expect("Lt(x, c - y)");
    assert_eq!(graph.op(folded), Op::Binary(BinaryOp::Lt));
    assert_eq!(graph.source(folded, 0), address, "the loaded address must stay on the left");
    assert_eq!(value_at(&graph, graph.source(folded, 1), |_| 0), 7, "the bound becomes 10 - 3");
}

#[test]
fn a_range_free_ne_is_lifted_out_of_the_addition() {
    let mut graph = Graph::new();
    let scalar = graph.leaf(Op::Variable { name: 0, low: 0, high: 31 }, DType::WeakInt);
    let four = graph.index_const(4);
    let sum = graph.alu(BinaryOp::Add, scalar, four);
    let nine = graph.index_const(9);
    let condition = graph.binary(Op::Binary(BinaryOp::Ne), DType::Bool, sum, nine);
    let folded = lift_summand(&mut graph, condition).expect("a lifted summand");
    assert_eq!(graph.op(folded), Op::Binary(BinaryOp::Ne));
    assert_eq!(graph.source(folded, 0), scalar, "the range-free scalar is isolated on the left");
    assert_eq!(value_at(&graph, graph.source(folded, 1), |_| 0), 5, "9 - 4 = 5");
}

#[test]
fn an_ne_over_a_range_keeps_the_range_on_the_left() {
    let mut graph = Graph::new();
    let range = graph.range(10, AxisType::Reduce, 0);
    let four = graph.index_const(4);
    let nine = graph.index_const(9);
    for (a, b) in [(range, four), (four, range)] {
        let sum = graph.alu(BinaryOp::Add, a, b);
        let condition = graph.binary(Op::Binary(BinaryOp::Ne), DType::Bool, sum, nine);
        let folded = lift_summand(&mut graph, condition).expect("a lifted summand");
        assert_eq!(graph.op(folded), Op::Binary(BinaryOp::Ne));
        let left = graph.source(folded, 0);
        assert!(!no_range_oracle(&graph, left), "the range cannot be folded away");
    }
    let condition = graph.binary(Op::Binary(BinaryOp::Ne), DType::Bool, four, range);
    assert_eq!(lift_summand(&mut graph, condition), None);
}

#[test]
fn a_non_add_reduce_is_not_collapsed() {
    let mut graph = Graph::new();
    let range = graph.range(10, AxisType::Reduce, 0);
    let one = float(&mut graph, 1.0);
    let counted = graph.cast(range, DType::Float32);
    let body = graph.alu(BinaryOp::Mul, counted, one);
    assert_eq!(reduce_load_collapse(&mut graph, body, range), None, "only ADD reduces are bounded");
}

#[test]
fn nested_unparented_reduces_fold_to_the_product_of_their_extents() {
    let mut graph = Graph::new();
    let outer = graph.range(10, AxisType::Reduce, 1);
    let inner = graph.range(5, AxisType::Reduce, 0);
    let one = float(&mut graph, 1.0);
    let body = reduce_load_collapse(&mut graph, one, inner).expect("the inner range is unparented");
    assert_eq!(evaluated(&graph, body), 5.0);
    let folded = reduce_load_collapse(&mut graph, body, outer).expect("the outer range is unparented");
    assert_eq!(evaluated(&graph, folded), 50.0);
    let reduced = graph.reduce(one, &[inner], ReduceOp::Add);
    assert_eq!(graph.source(reduced, 1), inner);
}
