//! Divisions as multiplications.

use svod_schedule::divide::{divide_fast, find_float_divisor, find_magic, multiply_by_reciprocal};
use svod_schedule::graph::{BinaryOp, ConstValue, DType, Graph, Op, TernaryOp};
use svod_schedule::late::Late;
use svod_schedule::passes::{rewrite, Pass};

fn float(graph: &mut Graph, value: f64) -> usize {
    graph.constant(ConstValue::Float(value.to_bits()), DType::Float32)
}

fn value_at(graph: &Graph, id: usize, x: i64) -> i64 {
    let source = |at: usize| value_at(graph, graph.source(id, at), x);
    match graph.op(id) {
        Op::Const(ConstValue::Int(n)) => n,
        Op::Variable { .. } => x,
        Op::Binary(BinaryOp::Mul) => source(0) * source(1),
        Op::Binary(BinaryOp::Add) => source(0) + source(1),
        Op::Binary(BinaryOp::Sub) => source(0) - source(1),
        Op::Binary(BinaryOp::Shr) => source(0) >> source(1),
        Op::Binary(BinaryOp::Lt) => i64::from(source(0) < source(1)),
        Op::Binary(BinaryOp::CDiv) => source(0) / source(1),
        Op::Binary(BinaryOp::CMod) => source(0) % source(1),
        Op::Ternary(TernaryOp::Where) => {
            if source(0) != 0 {
                source(1)
            } else {
                source(2)
            }
        }
        other => panic!("unexpected {other:?}"),
    }
}

fn divides(graph: &Graph, root: usize) -> bool {
    graph
        .toposort(root)
        .into_iter()
        .any(|id| matches!(graph.op(id), Op::Binary(BinaryOp::CDiv | BinaryOp::CMod)))
}

#[test]
fn fast_integer_division_is_explicitly_opt_in() {
    let mut graph = Graph::new();
    let x = graph.leaf(Op::Variable { name: 0, low: 0, high: 9999 }, DType::Int32);
    let seven = graph.constant(ConstValue::Int(7), DType::Int32);
    let division = graph.alu(BinaryOp::CDiv, x, seven);
    let modulo = graph.alu(BinaryOp::CMod, x, seven);
    for id in [division, modulo] {
        assert_eq!(divide_fast(&mut graph, id, true), None);
        let fast = divide_fast(&mut graph, id, false).expect("a constant divisor");
        assert!(!divides(&graph, fast));
        for step in [0, 1, 6, 7, 8, 48, 49, 50, 9995, 9996, 9999] {
            assert_eq!(value_at(&graph, fast, step), value_at(&graph, id, step), "at {step}");
        }
    }
    let eight = graph.constant(ConstValue::Int(8), DType::Int32);
    let power_of_two = graph.alu(BinaryOp::CDiv, x, eight);
    assert_eq!(divide_fast(&mut graph, power_of_two, false), None);
    let shifted = rewrite(&mut graph, Pass::Late(Late::DivToShr), power_of_two);
    assert_eq!(graph.op(shifted), Op::Binary(BinaryOp::Shr));
}

#[test]
fn a_fast_division_of_negative_numbers_rounds_to_zero() {
    let mut graph = Graph::new();
    let x = graph.leaf(Op::Variable { name: 0, low: -9999, high: 500 }, DType::Int32);
    for divisor in [3i64, 5, 7, 10, 12, 641] {
        let by = graph.constant(ConstValue::Int(divisor), DType::Int32);
        let division = graph.alu(BinaryOp::CDiv, x, by);
        let modulo = graph.alu(BinaryOp::CMod, x, by);
        for id in [division, modulo] {
            let fast = divide_fast(&mut graph, id, false).expect("a constant divisor");
            for step in -9999..=500 {
                assert_eq!(value_at(&graph, fast, step), value_at(&graph, id, step), "{step} by {divisor}");
            }
        }
    }
}

#[test]
fn a_division_that_would_overflow_is_left_alone() {
    let mut graph = Graph::new();
    let x = graph.leaf(Op::Variable { name: 0, low: 0, high: 2_000_000_000 }, DType::Int32);
    let seven = graph.constant(ConstValue::Int(7), DType::Int32);
    let division = graph.alu(BinaryOp::CDiv, x, seven);
    assert_eq!(divide_fast(&mut graph, division, false), None);
    let small = graph.leaf(Op::Variable { name: 1, low: 0, high: 6 }, DType::Int32);
    let nothing = graph.alu(BinaryOp::CDiv, small, seven);
    assert_eq!(divide_fast(&mut graph, nothing, false), None);
    let sum = graph.alu(BinaryOp::Add, x, seven);
    assert_eq!(divide_fast(&mut graph, sum, false), None);
}

#[test]
fn the_factor_and_the_shift_divide() {
    let found = find_magic(9999, 7);
    assert_eq!((found.factor, found.shift), (9363, 16));
    for (bound, divisor) in [(100u64, 3u64), (1000, 10), (65535, 641), (5, 5), (9, 1)] {
        let magic = find_magic(bound, divisor);
        for x in 0..=bound {
            assert_eq!((x as u128 * magic.factor) >> magic.shift, (x / divisor) as u128);
        }
    }
    let wide = find_magic(i64::MAX as u64, 7);
    let x = i64::MAX as u64;
    assert!(wide.shift <= 126);
    assert_eq!(x / 7, 1317624576693539401);
}

#[test]
fn dividing_by_a_float_constant_becomes_a_reciprocal_multiply() {
    for (divisor, reciprocal) in [(2.0f64, 0.5f64), (4.0, 0.25), (5.0, 0.2), (0.5, 2.0)] {
        let mut graph = Graph::new();
        let hundred = float(&mut graph, 100.0);
        let by = float(&mut graph, divisor);
        let division = graph.alu(BinaryOp::Fdiv, hundred, by);
        let bits = find_float_divisor(&graph, division).expect("a constant divisor");
        let inverse = 1.0 / f64::from_bits(bits);
        let result = multiply_by_reciprocal(&mut graph, division, inverse.to_bits()).expect("MUL");
        assert_eq!(graph.op(result), Op::Binary(BinaryOp::Mul));
        assert_eq!(graph.source(result, 0), hundred);
        assert_eq!(
            graph.op(graph.source(result, 1)),
            Op::Const(ConstValue::Float(reciprocal.to_bits()))
        );
    }
}

#[test]
fn a_zero_divisor_is_not_rewritten_to_a_reciprocal() {
    let mut graph = Graph::new();
    let one = float(&mut graph, 1.0);
    let zero = float(&mut graph, 0.0);
    let division = graph.alu(BinaryOp::Fdiv, one, zero);
    let bits = find_float_divisor(&graph, division).expect("a constant divisor");
    let inverse = 1.0 / f64::from_bits(bits);
    assert_eq!(multiply_by_reciprocal(&mut graph, division, inverse.to_bits()), None);
    assert_eq!(multiply_by_reciprocal(&mut graph, division, f64::NAN.to_bits()), None);
    assert_eq!(find_float_divisor(&graph, one), None);
    assert_eq!(multiply_by_reciprocal(&mut graph, one, 1.0f64.to_bits()), None);
}

#[test]
fn test_disable_fast_idiv_gates_late_rewrites() {
    for disable_fast_idiv in [true, false] {
        let mut graph = Graph::new();
        let x = graph.leaf(Op::Variable { name: 0, low: 0, high: 255 }, DType::Int32);
        let three = graph.constant(ConstValue::Int(3), DType::Int32);
        let division = graph.alu(BinaryOp::CDiv, x, three);
        let rewritten = divide_fast(&mut graph, division, disable_fast_idiv).unwrap_or(division);
        assert_eq!(divides(&graph, rewritten), disable_fast_idiv);
    }
}
