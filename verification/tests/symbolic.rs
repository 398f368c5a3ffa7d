//! Expressions made simpler.

use svod_schedule::commit::commit;
use svod_schedule::graph::{
    AddrSpace, AxisId, AxisType, BinaryOp, ConstValue, DType, Graph, Op, ReduceOp, TernaryOp,
};
use svod_schedule::indexing::get_condition;
use svod_schedule::passes::{rewrite, Pass};
use svod_schedule::rounding::round_to_single;
use svod_schedule::symbolic::{distribute, simplify};

fn settled(graph: &mut Graph, root: usize) -> usize {
    let mut now = root;
    loop {
        let next = rewrite(graph, Pass::Symbolic, now);
        if next == now {
            return now;
        }
        now = next;
    }
}

fn holds(graph: &Graph, root: usize, wanted: fn(Op) -> bool) -> bool {
    graph.toposort(root).into_iter().any(|id| wanted(graph.op(id)))
}

fn param(graph: &mut Graph, slot: usize, size: i64, dtype: DType) -> usize {
    let extent = graph.index_const(size);
    graph.unary(Op::Param { slot, addrspace: None }, dtype, extent)
}

fn address(graph: &mut Graph, slot: usize, dtype: DType) -> usize {
    let storage = param(graph, slot, 8, dtype);
    let zero = graph.index_const(0);
    graph.binary(Op::Index, dtype, storage, zero)
}

#[test]
fn test_postopt_symbolic_removes_range_unparented_after_zero_fold() {
    let mut graph = Graph::new();
    let range = graph.range(7, AxisType::Reduce, 0);
    let counter = graph.cast(range, DType::Int32);
    let zero = graph.constant(ConstValue::Int(0), DType::Int32);
    let product = graph.alu(BinaryOp::Mul, counter, zero);
    let reduce = graph.reduce(product, &[range], ReduceOp::Add);
    let result = settled(&mut graph, reduce);
    assert!(!holds(&graph, result, |op| matches!(op, Op::Reduce(_))));
    assert_eq!(graph.op(result), Op::Const(ConstValue::Int(0)));
}

#[test]
fn test_postopt_symbolic_keeps_parented_reduction() {
    let mut graph = Graph::new();
    let range = graph.range(7, AxisType::Reduce, 0);
    let counter = graph.cast(range, DType::Int32);
    let reduce = graph.reduce(counter, &[range], ReduceOp::Add);
    let result = settled(&mut graph, reduce);
    assert!(matches!(graph.op(result), Op::Reduce(_)));
    assert_eq!(graph.source_count(result) - 1, 1);
}

fn where_load(index_dependent: bool) -> bool {
    let mut graph = Graph::new();
    let access = address(&mut graph, 0, DType::Float32);
    let condition = if index_dependent {
        address(&mut graph, 1, DType::Bool)
    } else {
        param(&mut graph, 1, 1, DType::Bool)
    };
    let zero = graph.constant(ConstValue::Float(0), DType::Float32);
    let masked =
        graph.ternary(Op::Ternary(TernaryOp::Where), DType::Float32, condition, access, zero);
    let result = settled(&mut graph, masked);
    if !matches!(graph.op(result), Op::Ternary(_)) {
        assert_eq!(graph.op(result), Op::Index);
        let index = graph.source(result, 1);
        assert_eq!(get_condition(&graph, index), Some(condition));
        return false;
    }
    true
}

#[test]
fn test_postopt_where_load_condition() {
    assert!(where_load(true));
    assert!(!where_load(false));
}

#[test]
fn test_preopt_cast_const_fold_enables_range_end_arithmetic() {
    let mut graph = Graph::new();
    let three = graph.constant(ConstValue::Int(3), DType::Int32);
    let cast = graph.cast(three, DType::Index);
    let one = graph.index_const(1);
    let extent = graph.alu(BinaryOp::Add, cast, one);
    let range = graph.unary(Op::Range { axis: AxisId::Renumbered(0), kind: AxisType::Loop }, DType::Index, extent);
    let end = graph.end(range, &[range]);
    let sink = graph.sink(&[end]);
    let result = settled(&mut graph, sink);
    let range = graph
        .toposort(result)
        .into_iter()
        .find(|&id| matches!(graph.op(id), Op::Range { .. }))
        .expect("the range survives");
    assert_eq!(graph.op(graph.source(range, 0)), Op::Const(ConstValue::Int(4)));
}

#[test]
fn neutral_and_absorbing_operands() {
    let mut graph = Graph::new();
    let x = graph.leaf(Op::Variable { name: 0, low: 0, high: 9 }, DType::Int32);
    let zero = graph.constant(ConstValue::Int(0), DType::Int32);
    let one = graph.constant(ConstValue::Int(1), DType::Int32);
    for (op, left, right, expected) in [
        (BinaryOp::Add, x, zero, x),
        (BinaryOp::Add, zero, x, x),
        (BinaryOp::Mul, one, x, x),
        (BinaryOp::Mul, x, zero, zero),
        (BinaryOp::Mul, zero, x, zero),
        (BinaryOp::Sub, x, zero, x),
    ] {
        let node = graph.alu(op, left, right);
        assert_eq!(simplify(&mut graph, node), Some(expected), "{op:?}");
    }
    let difference = graph.alu(BinaryOp::Sub, zero, x);
    assert_eq!(simplify(&mut graph, difference), None);
    assert_eq!(simplify(&mut graph, zero), None);
}

#[test]
fn a_float_product_with_zero_is_kept() {
    let mut graph = Graph::new();
    let storage = param(&mut graph, 0, 1, DType::Float32);
    let zero = graph.constant(ConstValue::Float(0), DType::Float32);
    let product = graph.alu(BinaryOp::Mul, storage, zero);
    assert_eq!(simplify(&mut graph, product), None);
}

fn weak(graph: &mut Graph, value: i64) -> usize {
    graph.constant(ConstValue::Int(value), DType::WeakInt)
}

fn weak_float(graph: &mut Graph, value: f64) -> usize {
    graph.constant(ConstValue::Float(value.to_bits()), DType::WeakFloat)
}

fn midpoint() -> f64 {
    1.0 + 2f64.powi(-24)
}

fn no_weak_left(graph: &Graph, root: usize) -> bool {
    graph
        .toposort(root)
        .into_iter()
        .filter(|id| !matches!(graph.op(*id), Op::Param { .. }))
        .all(|id| !matches!(graph.dtype(id), DType::WeakInt | DType::WeakFloat))
}

fn storage(graph: &mut Graph) -> usize {
    graph.leaf(Op::Buffer { slot: 0, space: AddrSpace::Global, size: 64 }, DType::Float32)
}

#[test]
fn lower_index_composition_pushes_long_cast_through_invalid() {
    let mut graph = Graph::new();
    let x = graph.leaf(Op::Variable { name: 0, low: 0, high: 15 }, DType::WeakInt);
    let eight = weak(&mut graph, 8);
    let valid = graph.binary(Op::Binary(BinaryOp::Lt), DType::Bool, x, eight);
    let marker = graph.constant(ConstValue::Invalid, DType::WeakInt);
    let gated = graph.ternary(Op::Ternary(TernaryOp::Where), DType::WeakInt, valid, x, marker);
    let long = graph.cast(gated, DType::Int64);
    let storage = storage(&mut graph);
    let address = graph.binary(Op::Index, DType::Float32, storage, long);
    let lowered = rewrite(&mut graph, Pass::Commit, address);
    let indexed = graph.source(lowered, 1);
    assert_eq!(graph.op(indexed), Op::Ternary(TernaryOp::Where));
    assert_eq!(graph.dtype(graph.source(indexed, 1)), DType::Int32);
    assert_eq!(graph.op(graph.source(indexed, 2)), Op::Const(ConstValue::Invalid));
    assert!(no_weak_left(&graph, lowered));
}

#[test]
fn extra_symbolic_distributes_weak_index_before_lowering() {
    let mut graph = Graph::new();
    let x = graph.leaf(Op::Variable { name: 0, low: 0, high: 7 }, DType::WeakInt);
    let (two, four) = (weak(&mut graph, 2), weak(&mut graph, 4));
    let sum = graph.alu(BinaryOp::Add, x, two);
    let product = graph.alu(BinaryOp::Mul, sum, four);
    let storage = storage(&mut graph);
    let address = graph.binary(Op::Index, DType::Float32, storage, product);
    let distributed = rewrite(&mut graph, Pass::Distribute, address);
    let index = graph.source(distributed, 1);
    assert_eq!(graph.op(index), Op::Binary(BinaryOp::Add));
    assert_eq!(graph.op(graph.source(index, 1)), Op::Const(ConstValue::Int(8)));
    let scaled = graph.source(index, 0);
    assert_eq!(graph.op(scaled), Op::Binary(BinaryOp::Mul));
    assert_eq!(graph.source(scaled, 0), x);
    let lowered = rewrite(&mut graph, Pass::Commit, distributed);
    assert!(no_weak_left(&graph, lowered));
    assert_eq!(graph.dtype(graph.source(lowered, 1)), DType::Int32);
}

#[test]
fn lower_index_commits_constant_stack_lanes_before_their_consumer() {
    let mut graph = Graph::new();
    let marker = graph.constant(ConstValue::Invalid, DType::WeakFloat);
    let [left, right] = [midpoint(), 1.0].map(|value| {
        let value = weak_float(&mut graph, value);
        graph.node(Op::Stack, DType::WeakFloat, &[value, marker])
    });
    let comparison = graph.binary(Op::Binary(BinaryOp::Eq), DType::Bool, left, right);
    let sink = graph.sink(&[comparison]);
    let lowered = rewrite(&mut graph, Pass::Commit, sink);
    let comparison = graph.source(lowered, 0);
    assert!(no_weak_left(&graph, lowered));
    assert_eq!(graph.op(comparison), Op::Binary(BinaryOp::Eq));
    for stack in [graph.source(comparison, 0), graph.source(comparison, 1)] {
        assert_eq!(graph.dtype(stack), DType::Float32);
        assert_eq!(graph.op(stack), Op::Stack);
        let one = Op::Const(ConstValue::Float(1f64.to_bits()));
        assert_eq!(graph.op(graph.source(stack, 0)), one);
        assert_eq!(graph.op(graph.source(stack, 1)), Op::Const(ConstValue::Invalid));
    }
}

fn production_value(graph: &mut Graph, value: usize) -> usize {
    let sink = graph.sink(&[value]);
    let distributed = rewrite(graph, Pass::Distribute, sink);
    let committed = rewrite(graph, Pass::Commit, distributed);
    let result = settled(graph, committed);
    graph.source(result, 0)
}

#[test]
fn production_scalar_midpoint_neighbors_match_f32_commitment() {
    for (value, expected) in [
        (f64::from_bits(midpoint().to_bits() - 1), true),
        (midpoint(), true),
        (f64::from_bits(midpoint().to_bits() + 1), false),
    ] {
        let mut graph = Graph::new();
        let left = weak_float(&mut graph, value);
        let right = weak_float(&mut graph, 1.0);
        let comparison = graph.binary(Op::Binary(BinaryOp::Eq), DType::Bool, left, right);
        let lowered = production_value(&mut graph, comparison);
        assert_eq!(graph.op(lowered), Op::Const(ConstValue::Bool(expected)));
    }
}

#[test]
fn a_weak_comparison_commits_before_where_bounds() {
    let mut graph = Graph::new();
    let (one, near) = (weak_float(&mut graph, 1.0), weak_float(&mut graph, midpoint()));
    let condition = graph.binary(Op::Binary(BinaryOp::Lt), DType::Bool, one, near);
    let [seven, nine] = [7, 9].map(|n| graph.constant(ConstValue::Int(n), DType::Int32));
    let choice =
        graph.ternary(Op::Ternary(TernaryOp::Where), DType::Int32, condition, seven, nine);
    let lowered = production_value(&mut graph, choice);
    assert_eq!(graph.op(lowered), Op::Const(ConstValue::Int(9)));
}

#[test]
fn float_constants_compare_as_the_machine_does() {
    let values = [
        0.0,
        -0.0,
        1.0,
        -1.0,
        1e-320,
        -1e-320,
        2.5,
        f64::INFINITY,
        f64::NEG_INFINITY,
        f64::NAN,
        -f64::NAN,
    ];
    for a in values {
        for b in values {
            for (op, expected) in
                [(BinaryOp::Lt, a < b), (BinaryOp::Eq, a == b), (BinaryOp::Ne, a != b)]
            {
                let mut graph = Graph::new();
                let left = graph.constant(ConstValue::Float(a.to_bits()), DType::Float64);
                let right = graph.constant(ConstValue::Float(b.to_bits()), DType::Float64);
                let node = graph.binary(Op::Binary(op), DType::Bool, left, right);
                let verdict = simplify(&mut graph, node).expect("two constants");
                let expected = Op::Const(ConstValue::Bool(expected));
                assert_eq!(graph.op(verdict), expected, "{a} {op:?} {b}");
            }
        }
    }
}

#[test]
fn unparented_reductions_collapse_to_a_constant() {
    for (op, extent, expected) in [(ReduceOp::Add, 10, 50), (ReduceOp::Max, 5, 5)] {
        let mut graph = Graph::new();
        let five = graph.constant(ConstValue::Int(5), DType::Int32);
        let range = graph.range(extent, AxisType::Reduce, 0);
        let reduce = graph.reduce(five, &[range], op);
        let result = settled(&mut graph, reduce);
        assert_eq!(graph.op(result), Op::Const(ConstValue::Int(expected)), "{op:?}");
    }
}

#[test]
fn range_dependent_reductions_are_kept() {
    let mut graph = Graph::new();
    let range = graph.range(10, AxisType::Reduce, 0);
    let counter = graph.cast(range, DType::Int32);
    let one = graph.constant(ConstValue::Int(1), DType::Int32);
    let sum = graph.alu(BinaryOp::Add, counter, one);
    let reduce = graph.reduce(sum, &[range], ReduceOp::Add);
    let result = settled(&mut graph, reduce);
    assert!(holds(&graph, result, |op| matches!(op, Op::Reduce(_))));
}

#[test]
fn algebra_runs_before_the_collapse() {
    for (op, binary, identity) in
        [(ReduceOp::Add, BinaryOp::Add, 0), (ReduceOp::Mul, BinaryOp::Mul, 1)]
    {
        let mut graph = Graph::new();
        let x = graph.leaf(Op::Variable { name: 0, low: 0, high: 9 }, DType::Int32);
        let identity = graph.constant(ConstValue::Int(identity), DType::Int32);
        let source = graph.alu(binary, x, identity);
        let range = graph.range(10, AxisType::Reduce, 0);
        let reduce = graph.reduce(source, &[range], op);
        let result = settled(&mut graph, reduce);
        assert!(!holds(&graph, result, |op| matches!(op, Op::Range { .. } | Op::Reduce(_))));
        let walk = graph.toposort(result);
        assert!(!walk.contains(&source), "the identity operand must be gone");
    }
}

#[test]
fn a_reduce_that_is_not_range_independent_does_not_collapse() {
    let mut graph = Graph::new();
    let five = graph.constant(ConstValue::Int(5), DType::Int32);
    let bare = graph.reduce(five, &[], ReduceOp::Add);
    assert_eq!(simplify(&mut graph, bare), None);
}

#[test]
fn weak_integers_take_the_narrowest_type() {
    let mut graph = Graph::new();
    for (high, expected) in [(i64::from(i32::MAX), DType::Int32), (1 << 31, DType::Int64)] {
        let x = graph.leaf(Op::Variable { name: 0, low: 0, high }, DType::WeakInt);
        let committed = commit(&mut graph, x).expect("a weak type");
        assert_eq!(graph.dtype(committed), expected);
        assert_eq!(commit(&mut graph, committed), None);
    }
    let x = graph.leaf(Op::Variable { name: 1, low: 0, high: 1 << 20 }, DType::WeakInt);
    let scale = weak(&mut graph, 1 << 20);
    let product = graph.alu(BinaryOp::Mul, x, scale);
    let lowered = rewrite(&mut graph, Pass::Commit, product);
    assert_eq!(graph.dtype(lowered), DType::Int64);
    for at in 0..2 {
        assert_eq!(graph.dtype(graph.source(lowered, at)), DType::Int64);
    }
    assert!(no_weak_left(&graph, lowered));
}

#[test]
fn a_weak_store_takes_the_type_of_the_storage() {
    let mut graph = Graph::new();
    let buffer =
        graph.leaf(Op::Buffer { slot: 0, space: AddrSpace::Global, size: 4 }, DType::Int64);
    let zero = weak(&mut graph, 0);
    let address = graph.binary(Op::Index, DType::Int64, buffer, zero);
    let seven = weak(&mut graph, 7);
    let store = graph.binary(Op::Store, DType::Void, address, seven);
    let lowered = rewrite(&mut graph, Pass::Commit, store);
    let value = graph.source(lowered, 1);
    assert_eq!(graph.op(value), Op::Const(ConstValue::Int(7)));
    assert_eq!(graph.dtype(value), DType::Int64);
}

#[test]
fn a_product_that_does_not_fit_is_not_multiplied_out() {
    let mut graph = Graph::new();
    let x = graph.leaf(Op::Variable { name: 0, low: 0, high: 7 }, DType::WeakInt);
    let (large, two) = (weak(&mut graph, i64::MAX), weak(&mut graph, 2));
    let sum = graph.alu(BinaryOp::Add, x, large);
    let product = graph.alu(BinaryOp::Mul, sum, two);
    assert_eq!(distribute(&mut graph, product), None);
}

#[test]
fn floats_round_as_the_machine_does() {
    let mut values = vec![
        0.0,
        1.0,
        -1.5,
        midpoint(),
        1e-40,
        1e-45,
        7e-46,
        7.1e-46,
        1.0e-46,
        2f64.powi(-149),
        2f64.powi(-150),
        3.0 * 2f64.powi(-150),
        2f64.powi(-126),
        f64::from(f32::MAX),
        f64::from(f32::MIN_POSITIVE),
        3.4028235677973366e38,
        3.4028235677973362e38,
        1e39,
        f64::INFINITY,
        std::f64::consts::PI,
    ];
    let mut bits: u64 = 0x3690_1234_5678_9abc;
    while bits < 0x4800_0000_0000_0000 {
        values.push(f64::from_bits(bits));
        bits += 0x0003_1415_9265_3589;
    }
    for value in values {
        for value in [value, -value] {
            let expected = f64::from(value as f32);
            let rounded = round_to_single(value.to_bits());
            assert_eq!(rounded, expected.to_bits(), "{value:e}");
            assert_eq!(round_to_single(rounded), rounded);
        }
    }
}
