//! Rewrites of arithmetic, of loops and of choices.

use svod_schedule::bounds::find_bounds;
use svod_schedule::dce::is_empty_range;
use svod_schedule::graph::{
    AddrSpace, AxisId, AxisType, BinaryOp, ConstValue, DType, Graph, Op, ReduceOp, TernaryOp,
    UnaryOp,
};
use svod_schedule::helpers::{no_load_oracle, no_range_oracle};
use svod_schedule::late::{find_exponent, Late};
use svod_schedule::passes::{rewrite, Pass};

fn variable(graph: &mut Graph, name: usize, low: i64, high: i64) -> usize {
    graph.leaf(Op::Variable { name, low, high }, DType::Int32)
}

fn bool_var(graph: &mut Graph, name: usize) -> usize {
    graph.leaf(Op::Variable { name, low: 0, high: 1 }, DType::Bool)
}

/// A number that is known not to be negative.
fn x(graph: &mut Graph) -> usize {
    variable(graph, 0, 0, 9999)
}

/// A number whose sign is not known.
fn signed(graph: &mut Graph) -> usize {
    variable(graph, 1, -9999, 9999)
}

fn less(graph: &mut Graph, a: usize, b: usize) -> usize {
    graph.binary(Op::Binary(BinaryOp::Lt), DType::Bool, a, b)
}

fn not(graph: &mut Graph, a: usize) -> usize {
    graph.unary(Op::Unary(UnaryOp::Not), DType::Bool, a)
}

fn select(graph: &mut Graph, c: usize, a: usize, b: usize) -> usize {
    graph.ternary(Op::Ternary(TernaryOp::Where), DType::Int32, c, a, b)
}

fn invalid(graph: &mut Graph) -> usize {
    graph.constant(ConstValue::Invalid, DType::Int32)
}

fn late(graph: &mut Graph, rules: Late, root: usize) -> usize {
    rewrite(graph, Pass::Late(rules), root)
}

fn sources(graph: &Graph, id: usize) -> Vec<usize> {
    (0..graph.source_count(id)).map(|at| graph.source(id, at)).collect()
}

fn is_int(graph: &Graph, id: usize, value: i64) -> bool {
    graph.op(id) == Op::Const(ConstValue::Int(value))
}

#[test]
fn a_power_of_two_becomes_a_bit_op() {
    let cases = [
        (Late::ModToAnd, BinaryOp::FloorMod, 2, 1, BinaryOp::And),
        (Late::ModToAnd, BinaryOp::FloorMod, 8, 7, BinaryOp::And),
        (Late::ModToAnd, BinaryOp::FloorMod, 1024, 1023, BinaryOp::And),
        (Late::MulToShl, BinaryOp::Mul, 2, 1, BinaryOp::Shl),
        (Late::MulToShl, BinaryOp::Mul, 8, 3, BinaryOp::Shl),
        (Late::MulToShl, BinaryOp::Mul, 256, 8, BinaryOp::Shl),
        (Late::DivToShr, BinaryOp::CDiv, 2, 1, BinaryOp::Shr),
        (Late::DivToShr, BinaryOp::CDiv, 8, 3, BinaryOp::Shr),
        (Late::DivToShr, BinaryOp::CDiv, 256, 8, BinaryOp::Shr),
    ];
    for (rules, op, divisor, expected_rhs, expected_op) in cases {
        let mut graph = Graph::new();
        let x = x(&mut graph);
        let c = graph.index_const(divisor);
        let root = graph.alu(op, x, c);
        let result = late(&mut graph, rules, root);
        assert_eq!(graph.op(result), Op::Binary(expected_op));
        assert_eq!(graph.source(result, 0), x);
        assert!(is_int(&graph, graph.source(result, 1), expected_rhs), "{op:?} {divisor}");
    }
}

#[test]
fn only_a_signed_dividend_is_biased_before_the_right_shift() {
    for biased in [false, true] {
        let mut graph = Graph::new();
        let dividend = if biased { signed(&mut graph) } else { x(&mut graph) };
        let eight = graph.constant(ConstValue::Int(8), DType::Int32);
        let division = graph.alu(BinaryOp::CDiv, dividend, eight);
        let shifted = if biased {
            let zero = graph.constant(ConstValue::Int(0), DType::Int32);
            let seven = graph.constant(ConstValue::Int(7), DType::Int32);
            let negative = less(&mut graph, dividend, zero);
            let adjustment = select(&mut graph, negative, seven, zero);
            graph.alu(BinaryOp::Add, dividend, adjustment)
        } else {
            dividend
        };
        let three = graph.constant(ConstValue::Int(3), DType::Int32);
        let expected = graph.alu(BinaryOp::Shr, shifted, three);
        assert_eq!(late(&mut graph, Late::DivToShr, division), expected);
    }
}

#[test]
fn no_strength_reduction_without_a_power_of_two() {
    let cases = [
        (Late::ModToAnd, BinaryOp::FloorMod, 7, true),
        (Late::MulToShl, BinaryOp::Mul, 7, true),
        (Late::DivToShr, BinaryOp::CDiv, 7, true),
        (Late::DivToShr, BinaryOp::CDiv, 1, true),
        (Late::MulToShl, BinaryOp::Mul, 1, false),
        (Late::NegFromMul, BinaryOp::Mul, 7, true),
        (Late::NegFromMul, BinaryOp::Mul, -2, true),
    ];
    for (rules, op, operand, kept) in cases {
        let mut graph = Graph::new();
        let x = x(&mut graph);
        let c = graph.index_const(operand);
        let root = graph.alu(op, x, c);
        let result = late(&mut graph, rules, root);
        if kept {
            assert_eq!(graph.op(result), Op::Binary(op), "{operand}");
        } else {
            assert_eq!(result, x);
        }
    }
}

#[test]
fn negations_lower_to_the_codegen_ops() {
    let mut graph = Graph::new();
    let x = x(&mut graph);
    let minus = graph.index_const(-1);
    let product = graph.alu(BinaryOp::Mul, x, minus);
    let negated = late(&mut graph, Late::NegFromMul, product);
    assert_eq!(graph.op(negated), Op::Unary(UnaryOp::Neg));
    assert_eq!(sources(&graph, negated), [x]);

    let y = variable(&mut graph, 2, 0, 100);
    let opposite = graph.unary(Op::Unary(UnaryOp::Neg), DType::Int32, y);
    let sum = graph.alu(BinaryOp::Add, x, opposite);
    let difference = late(&mut graph, Late::NegFromMul, sum);
    assert_eq!(graph.op(difference), Op::Binary(BinaryOp::Sub));
    assert_eq!(sources(&graph, difference), [x, y]);
}

#[test]
fn negated_integer_comparisons_become_the_complementary_bound() {
    let mut graph = Graph::new();
    let x = x(&mut graph);
    let five = graph.index_const(5);

    let below = less(&mut graph, x, five);
    let root = not(&mut graph, below);
    let not_below = late(&mut graph, Late::Comparisons, root);
    assert_eq!(graph.op(not_below), Op::Binary(BinaryOp::Lt));
    assert!(is_int(&graph, graph.source(not_below, 0), 4));
    assert_eq!(graph.source(not_below, 1), x);

    let above = less(&mut graph, five, x);
    let root = not(&mut graph, above);
    let not_above = late(&mut graph, Late::Comparisons, root);
    assert_eq!(graph.op(not_above), Op::Binary(BinaryOp::Lt));
    assert_eq!(graph.source(not_above, 0), x);
    assert!(is_int(&graph, graph.source(not_above, 1), 6));

    let three = graph.index_const(3);
    let above = less(&mut graph, three, x);
    let root = graph.binary(Op::Binary(BinaryOp::And), DType::Bool, above, below);
    let band = late(&mut graph, Late::Comparisons, root);
    assert_eq!(graph.op(band), Op::Binary(BinaryOp::Eq));
    assert_eq!(graph.source(band, 0), x);
    assert!(is_int(&graph, graph.source(band, 1), 4));
}

#[test]
fn negated_operands_move_the_bound_or_flip_the_comparison() {
    let mut graph = Graph::new();
    let x = x(&mut graph);
    let minus = graph.index_const(-1);
    let five = graph.index_const(5);
    let negated = graph.alu(BinaryOp::Mul, x, minus);
    let root = less(&mut graph, negated, five);
    let result = late(&mut graph, Late::Comparisons, root);
    assert_eq!(graph.op(result), Op::Binary(BinaryOp::Lt));
    assert!(is_int(&graph, graph.source(result, 0), -5));
    assert_eq!(graph.source(result, 1), x);

    let (a, y) = (variable(&mut graph, 2, 0, 100), variable(&mut graph, 3, 0, 100));
    let four = graph.constant(ConstValue::Int(4), DType::Int32);
    let negated = graph.alu(BinaryOp::Mul, a, minus);
    let scaled = graph.alu(BinaryOp::Mul, y, four);
    let root = less(&mut graph, negated, scaled);
    let result = late(&mut graph, Late::Comparisons, root);
    assert_eq!(graph.op(result), Op::Binary(BinaryOp::Lt));
    let left = graph.source(result, 0);
    assert_eq!(graph.op(left), Op::Binary(BinaryOp::Mul));
    assert_eq!(graph.source(left, 0), y);
    assert!(is_int(&graph, graph.source(left, 1), -4));
    assert_eq!(graph.source(result, 1), a);
}

#[test]
fn exponents_of_powers_of_two() {
    for n in 1..=62 {
        assert_eq!(find_exponent(1i64 << n), Some(n));
    }
    for c in [i64::MIN, -2, -1, 0, 1, 3, 6, i64::MAX] {
        assert_eq!(find_exponent(c), None, "{c}");
    }
}

fn unsigned_range(graph: &mut Graph, end: u64) -> usize {
    let extent = graph.constant(ConstValue::UInt(end), DType::UInt32);
    let op = Op::Range { axis: AxisId::Renumbered(0), kind: AxisType::Global };
    graph.unary(op, DType::UInt32, extent)
}

#[test]
fn is_empty_range_fires_only_on_provably_empty_ranges() {
    let mut graph = Graph::new();
    let cases = [
        (graph.global_range(0, 0), true),
        (graph.global_range(1, 0), false),
        (graph.global_range(2, 0), false),
        (graph.constant(ConstValue::Int(0), DType::WeakInt), true),
        (graph.constant(ConstValue::Int(1), DType::WeakInt), false),
        (graph.constant(ConstValue::Int(0), DType::Int32), false),
        (unsigned_range(&mut graph, 1), false),
        (unsigned_range(&mut graph, 4), false),
        (graph.constant(ConstValue::Float(0), DType::Float32), false),
    ];
    for (candidate, empty) in cases {
        assert_eq!(is_empty_range(&graph, candidate), empty, "{:?}", graph.op(candidate));
    }
}

fn range_over(graph: &mut Graph, extent: usize, kind: AxisType, dtype: DType) -> usize {
    graph.unary(Op::Range { axis: AxisId::Renumbered(0), kind }, dtype, extent)
}

#[test]
fn dead_loop_ranges_fold_or_survive() {
    let mut graph = Graph::new();
    let ten = graph.constant(ConstValue::Int(10), DType::Int32);
    let minus_ten = graph.constant(ConstValue::Int(-10), DType::Int32);
    let zero = graph.constant(ConstValue::Int(0), DType::Int32);
    let clamped = graph.alu(BinaryOp::Max, minus_ten, zero);
    let clamped = range_over(&mut graph, clamped, AxisType::Global, DType::Index);
    let size = variable(&mut graph, 0, 0, 5);
    let shrunk = graph.alu(BinaryOp::Sub, size, ten);
    let shrunk = range_over(&mut graph, shrunk, AxisType::Global, DType::Index);
    let one = graph.index_const(1);
    let unrolled = range_over(&mut graph, one, AxisType::Unroll, DType::WeakInt);
    let cases = [
        (graph.global_range(0, 0), Some(DType::WeakInt)),
        (graph.global_range(-5, 0), Some(DType::WeakInt)),
        (clamped, Some(DType::WeakInt)),
        (shrunk, Some(DType::WeakInt)),
        (graph.global_range(1, 0), Some(DType::Index)),
        (unrolled, Some(DType::WeakInt)),
        (graph.global_range(2, 0), None),
    ];
    for (range, expected) in cases {
        let folded = rewrite(&mut graph, Pass::DeadLoops, range);
        match expected {
            Some(dtype) => {
                assert!(is_int(&graph, folded, 0));
                assert_eq!(graph.dtype(folded), dtype);
            }
            None => assert_eq!(folded, range),
        }
    }
}

#[test]
fn end_without_ranges_returns_the_computation() {
    let mut graph = Graph::new();
    let computation = graph.leaf(Op::Noop, DType::Void);
    assert_eq!(graph.end(computation, &[]), computation);
}

#[test]
fn end_over_no_ranges_returns_the_computation() {
    let mut graph = Graph::new();
    let computation = graph.leaf(Op::Noop, DType::Void);
    let before = graph.len();
    assert_eq!(graph.end(computation, &[]), computation);
    assert_eq!(graph.len(), before, "and no node is made");
}

#[test]
fn a_trivial_reduce_axis_does_not_erase_the_reduction() {
    let mut graph = Graph::new();
    let one = graph.constant(ConstValue::Float(1.0f64.to_bits()), DType::Float32);
    let axis = graph.range(1, AxisType::Unroll, 0);
    let sum = graph.reduce(one, &[axis], ReduceOp::Add);
    let folded = rewrite(&mut graph, Pass::DeadLoops, sum);
    let found = graph.toposort(folded).iter().any(|id| graph.op(*id) == Op::Reduce(ReduceOp::Add));
    assert!(found, "the reduction must survive");
}

#[test]
fn where_selects_a_branch_or_survives() {
    let mut graph = Graph::new();
    let (taken, other) = (graph.constant(ConstValue::Int(42), DType::Int32), graph.constant(ConstValue::Int(0), DType::Int32));
    let b = variable(&mut graph, 0, 0, 10);
    let x = variable(&mut graph, 1, 0, 100);
    let twenty = graph.constant(ConstValue::Int(20), DType::Int32);
    let fifty = graph.constant(ConstValue::Int(50), DType::Int32);
    let cases = [
        (graph.constant(ConstValue::Bool(true), DType::Bool), Some(true)),
        (graph.constant(ConstValue::Bool(false), DType::Bool), Some(false)),
        (less(&mut graph, b, twenty), Some(true)),
        (less(&mut graph, x, fifty), None),
    ];
    for (condition, takes_true) in cases {
        let choice = select(&mut graph, condition, taken, other);
        let folded = rewrite(&mut graph, Pass::DeadBranches, choice);
        match takes_true {
            Some(true) => assert_eq!(folded, taken),
            Some(false) => assert_eq!(folded, other),
            None => assert_eq!(folded, choice),
        }
    }
}

#[test]
fn invalid_wheres_collapse_to_invalid() {
    let mut graph = Graph::new();
    let x = variable(&mut graph, 1, 0, 100);
    let fifty = graph.constant(ConstValue::Int(50), DType::Int32);
    let (one, two) = (graph.constant(ConstValue::Int(1), DType::Int32), graph.constant(ConstValue::Int(2), DType::Int32));
    let marker = invalid(&mut graph);
    let undecided = less(&mut graph, x, fifty);
    let flipped = not(&mut graph, undecided);
    let cases = [
        select(&mut graph, undecided, marker, marker),
        select(&mut graph, flipped, marker, marker),
        select(&mut graph, marker, one, two),
    ];
    for case in cases {
        assert_eq!(rewrite(&mut graph, Pass::DeadBranches, case), marker);
    }
}

#[test]
fn an_invalid_true_branch_is_canonicalized_once() {
    let mut graph = Graph::new();
    let x = variable(&mut graph, 1, 0, 100);
    let fifty = graph.constant(ConstValue::Int(50), DType::Int32);
    let value = graph.constant(ConstValue::Int(7), DType::Int32);
    let marker = invalid(&mut graph);
    let condition = less(&mut graph, x, fifty);
    let choice = select(&mut graph, condition, marker, value);
    let folded = rewrite(&mut graph, Pass::DeadBranches, choice);
    let flipped = not(&mut graph, condition);
    assert_eq!(folded, select(&mut graph, flipped, value, marker));
    assert_eq!(rewrite(&mut graph, Pass::DeadBranches, folded), folded);
}

#[test]
fn nested_wheres_with_invalid_branches_normalize() {
    let mut graph = Graph::new();
    let (p, q) = (bool_var(&mut graph, 0), bool_var(&mut graph, 1));
    let (live, value) = (graph.constant(ConstValue::Int(3), DType::Int32), graph.constant(ConstValue::Int(5), DType::Int32));
    let marker = invalid(&mut graph);

    let inner = select(&mut graph, q, value, marker);
    let merged = select(&mut graph, p, inner, marker);
    let folded = rewrite(&mut graph, Pass::DeadBranches, merged);
    let both = graph.binary(Op::Binary(BinaryOp::And), DType::Bool, p, q);
    assert_eq!(folded, select(&mut graph, both, value, marker));

    let lifted = select(&mut graph, p, live, inner);
    let folded = rewrite(&mut graph, Pass::DeadBranches, lifted);
    let either = graph.binary(Op::Binary(BinaryOp::Or), DType::Bool, p, q);
    let kept = select(&mut graph, p, live, value);
    assert_eq!(folded, select(&mut graph, either, kept, marker));
}

fn param(graph: &mut Graph, slot: usize, dtype: DType) -> usize {
    graph.leaf(Op::Param { slot, addrspace: None }, dtype)
}

fn index(graph: &mut Graph, buffer: usize, at: usize) -> usize {
    let dtype = graph.dtype(buffer);
    graph.binary(Op::Index, dtype, buffer, at)
}

fn load(graph: &mut Graph, address: usize) -> usize {
    let dtype = graph.dtype(address);
    graph.unary(Op::Load, dtype, address)
}

fn store(graph: &mut Graph, address: usize, value: usize) -> usize {
    graph.binary(Op::Store, DType::Void, address, value)
}

fn f64_const(graph: &mut Graph, value: f64) -> usize {
    graph.constant(ConstValue::Float(value.to_bits()), DType::Float64)
}

fn has_dtype(graph: &Graph, root: usize, dtype: DType) -> bool {
    graph.toposort(root).iter().any(|id| graph.dtype(*id) == dtype)
}

fn first_op(graph: &Graph, root: usize, found: impl Fn(Op) -> bool) -> usize {
    *graph.toposort(root).iter().find(|id| found(graph.op(**id))).expect("the operation is there")
}

#[test]
fn internal_f64_computes_in_f32_when_unsupported() {
    let mut graph = Graph::new();
    let zero = graph.index_const(0);
    let input = param(&mut graph, 1, DType::Float32);
    let address = index(&mut graph, input, zero);
    let loaded = load(&mut graph, address);
    let wide = graph.cast(loaded, DType::Float64);
    let half = f64_const(&mut graph, 0.5);
    let offset = f64_const(&mut graph, 1.25);
    let scaled = graph.alu(BinaryOp::Mul, wide, half);
    let sum = graph.alu(BinaryOp::Add, scaled, offset);
    let narrow = graph.cast(sum, DType::Float32);
    let output = param(&mut graph, 0, DType::Float32);
    let place = index(&mut graph, output, zero);
    let stored = store(&mut graph, place, narrow);
    let sink = graph.sink(&[stored]);
    assert!(has_dtype(&graph, sink, DType::Float64));
    let demoted = rewrite(&mut graph, Pass::Demote, sink);
    assert!(!has_dtype(&graph, demoted, DType::Float64));
    let floats: Vec<usize> = graph
        .toposort(demoted)
        .into_iter()
        .filter(|id| matches!(graph.op(*id), Op::Const(ConstValue::Float(_))))
        .collect();
    assert_eq!(floats.len(), 2);
    assert!(floats.iter().all(|id| graph.dtype(*id) == DType::Float32));
    assert_eq!(rewrite(&mut graph, Pass::Demote, demoted), demoted, "single precision is kept");
}

#[test]
fn external_f64_storage_keeps_its_dtype() {
    let mut graph = Graph::new();
    let zero = graph.index_const(0);
    let input = param(&mut graph, 1, DType::Float64);
    let address = index(&mut graph, input, zero);
    let loaded = load(&mut graph, address);
    let two = f64_const(&mut graph, 2.0);
    let doubled = graph.alu(BinaryOp::Mul, loaded, two);
    let narrow = graph.cast(doubled, DType::Float32);
    let output = param(&mut graph, 0, DType::Float32);
    let place = index(&mut graph, output, zero);
    let stored = store(&mut graph, place, narrow);
    let sink = graph.sink(&[stored]);
    let demoted = rewrite(&mut graph, Pass::Demote, sink);
    assert!(graph.toposort(demoted).contains(&input), "external storage keeps its type");
    let read = first_op(&graph, demoted, |op| op == Op::Load);
    assert_eq!(graph.dtype(read), DType::Float64);
    let product = first_op(&graph, demoted, |op| op == Op::Binary(BinaryOp::Mul));
    assert_eq!(graph.dtype(product), DType::Float32);
}

#[test]
fn gated_load_alts_survive_for_external_storage_only() {
    let mut graph = Graph::new();
    let at = graph.index_const(0);
    let guard = graph.constant(ConstValue::Bool(true), DType::Bool);
    let (zero, one) = (f64_const(&mut graph, 0.0), f64_const(&mut graph, 1.0));
    let internal = graph.alu(BinaryOp::Add, zero, one);
    let input = param(&mut graph, 1, DType::Float64);
    let address = index(&mut graph, input, at);
    let read = graph.ternary(Op::Load, DType::Float64, address, zero, guard);
    let sum = graph.alu(BinaryOp::Add, read, internal);
    let value = graph.cast(sum, DType::Float32);
    let output = param(&mut graph, 0, DType::Float32);
    let place = index(&mut graph, output, at);
    let stored = store(&mut graph, place, value);
    let sink = graph.sink(&[stored]);
    let demoted = rewrite(&mut graph, Pass::Demote, sink);
    let read = first_op(&graph, demoted, |op| op == Op::Load);
    assert_eq!(graph.dtype(read), DType::Float64);
    assert_eq!(graph.dtype(graph.source(read, 1)), DType::Float64);
    let sum = first_op(&graph, demoted, |op| op == Op::Binary(BinaryOp::Add));
    assert_eq!(graph.dtype(sum), DType::Float32);
    assert!(sources(&graph, sum).iter().all(|id| graph.dtype(*id) == DType::Float32));

    let local = graph.leaf(Op::Buffer { slot: 3, space: AddrSpace::Local, size: 4 }, DType::Float64);
    let address = index(&mut graph, local, at);
    let read = graph.ternary(Op::Load, DType::Float64, address, zero, guard);
    let sink = graph.sink(&[read]);
    let demoted = rewrite(&mut graph, Pass::Demote, sink);
    assert!(!has_dtype(&graph, demoted, DType::Float64));
    let read = first_op(&graph, demoted, |op| op == Op::Load);
    assert_eq!(graph.dtype(graph.source(read, 1)), DType::Float32);
}

#[test]
fn bitcasts_and_params_are_never_demoted() {
    let mut graph = Graph::new();
    let number = graph.constant(ConstValue::Int(0x3FF0000000000000), DType::Int64);
    let bits = graph.unary(Op::BitCast, DType::Float64, number);
    let scalar = param(&mut graph, 0, DType::Float64);
    let sum = graph.alu(BinaryOp::Add, bits, scalar);
    let sink = graph.sink(&[bits, scalar, sum]);
    let demoted = rewrite(&mut graph, Pass::Demote, sink);
    let walk = graph.toposort(demoted);
    assert!(walk.contains(&bits), "the bitcast survives");
    assert!(walk.contains(&scalar));
    let sum = first_op(&graph, demoted, |op| op == Op::Binary(BinaryOp::Add));
    assert_eq!(graph.dtype(sum), DType::Float32);
}

#[test]
fn scratch_buffers_and_reductions_are_demoted() {
    let mut graph = Graph::new();
    let zero = graph.index_const(0);
    let scratch = Op::Buffer { slot: 3, space: AddrSpace::Local, size: 16 };
    let local = graph.leaf(scratch, DType::Float64);
    let input = param(&mut graph, 1, DType::Float32);
    let address = index(&mut graph, input, zero);
    let loaded = load(&mut graph, address);
    let value = graph.cast(loaded, DType::Float64);
    let place = index(&mut graph, local, zero);
    let fill = store(&mut graph, place, value);
    let range = graph.range(16, AxisType::Reduce, 0);
    let address = index(&mut graph, local, range);
    let partial = load(&mut graph, address);
    let sum = graph.reduce(partial, &[range], ReduceOp::Add);
    let narrow = graph.cast(sum, DType::Float32);
    let output = param(&mut graph, 0, DType::Float32);
    let place = index(&mut graph, output, zero);
    let out = store(&mut graph, place, narrow);
    let end = graph.end(sum, &[range]);
    let sink = graph.sink(&[fill, end, out]);
    let demoted = rewrite(&mut graph, Pass::Demote, sink);
    assert!(!has_dtype(&graph, demoted, DType::Float64));
    let local = first_op(&graph, demoted, |op| op == scratch);
    assert_eq!(graph.dtype(local), DType::Float32);
}

#[test]
fn vector_f64_becomes_vector_f32() {
    let mut graph = Graph::new();
    let (one, two) = (f64_const(&mut graph, 1.0), f64_const(&mut graph, 2.0));
    let lanes = graph.node(Op::Stack, DType::Float64, &[one, two]);
    let sum = graph.alu(BinaryOp::Add, lanes, lanes);
    let sink = graph.sink(&[sum]);
    let demoted = rewrite(&mut graph, Pass::Demote, sink);
    assert!(!has_dtype(&graph, demoted, DType::Float64));
    let lanes = first_op(&graph, demoted, |op| op == Op::Stack);
    assert_eq!((graph.dtype(lanes), graph.source_count(lanes)), (DType::Float32, 2));
}

#[test]
fn cached_guards_match_dfs_oracle() {
    let mut graph = Graph::new();
    let (ten, twenty) = (graph.constant(ConstValue::Int(10), DType::Int32), graph.constant(ConstValue::Int(20), DType::Int32));
    let five = graph.constant(ConstValue::Int(5), DType::Int32);
    let (zero, one) = (graph.index_const(0), graph.index_const(1));
    let range = graph.range(10, AxisType::Reduce, 0);
    let counter = graph.cast(range, DType::Int32);
    let buffer = param(&mut graph, 0, DType::Float32);
    let at_zero = index(&mut graph, buffer, zero);
    let at_range = index(&mut graph, buffer, range);
    let (fixed, moving) = (load(&mut graph, at_zero), load(&mut graph, at_range));
    let nothing = graph.constant(ConstValue::Float(0), DType::Float32);
    let whole = graph.constant(ConstValue::Float(1.0f64.to_bits()), DType::Float32);
    let stop = graph.index_const(5);
    let inside = less(&mut graph, range, stop);
    let known = less(&mut graph, one, stop);
    let cases = [
        (ten, true, true),
        (graph.alu(BinaryOp::Add, ten, twenty), true, true),
        (range, false, true),
        (graph.alu(BinaryOp::Add, counter, five), false, true),
        (graph.reduce(counter, &[range], ReduceOp::Add), false, true),
        (fixed, true, false),
        (moving, false, false),
        (select(&mut graph, inside, fixed, nothing), false, false),
        (select(&mut graph, known, whole, nothing), true, true),
    ];
    for (root, no_range, no_load) in cases {
        assert_eq!(no_range_oracle(&graph, root), no_range, "{:?}", graph.op(root));
        assert_eq!(no_load_oracle(&graph, root), no_load, "{:?}", graph.op(root));
    }
}

#[test]
fn bounds_follow_the_declared_ranges() {
    let mut graph = Graph::new();
    let x = variable(&mut graph, 0, -3, 4);
    let range = graph.global_range(8, 0);
    let product = graph.alu(BinaryOp::Mul, x, range);
    assert_eq!(find_bounds(&graph, product), Some((-21, 28)));
    let three = graph.index_const(3);
    let rest = graph.alu(BinaryOp::FloorMod, product, three);
    assert_eq!(find_bounds(&graph, rest), Some((0, 2)));
    let huge = variable(&mut graph, 1, i64::MIN, i64::MAX);
    let sum = graph.alu(BinaryOp::Add, huge, three);
    assert_eq!(find_bounds(&graph, sum), None, "it may wrap");
}
