//! Reductions, the windows that guard them, and the loops that they end.

use svod_schedule::bounds::find_bounds;
use svod_schedule::collapse::{reduce_collapse, reduce_load_collapse};
use svod_schedule::fold::fold_alone;
use svod_schedule::graph::{AxisType, BinaryOp, ConstValue, DType, Graph, Op, ReduceOp, TernaryOp, UnaryOp};
use svod_schedule::flatten::flatten_range_impl;
use svod_schedule::passes::{rewrite, Pass};
use svod_schedule::reduce::{range_size_as_i64, reduce_mul_chain, reduce_simplify, reduce_unparented};
use svod_schedule::window::{
    counted_extent, find_whole_number, find_window, float_bits, picked_step, window_width,
};

const END: i64 = 10;

fn number(graph: &mut Graph, value: i64) -> usize {
    graph.constant(ConstValue::Int(value), DType::Int32)
}

fn float(graph: &mut Graph, value: f64) -> usize {
    graph.constant(ConstValue::Float(value.to_bits()), DType::Float32)
}

fn reduce_range(graph: &mut Graph, extent: i64, axis: usize) -> usize {
    graph.range(extent, AxisType::Reduce, axis)
}

fn sources(graph: &Graph, id: usize) -> Vec<usize> {
    (0..graph.source_count(id)).map(|at| graph.source(id, at)).collect()
}

#[test]
fn an_unparented_range_scales_the_source() {
    for (op, expected) in [(ReduceOp::Add, BinaryOp::Mul), (ReduceOp::Mul, BinaryOp::Pow)] {
        let mut graph = Graph::new();
        let five = number(&mut graph, 5);
        let range = reduce_range(&mut graph, 10, 0);
        let reduce = graph.reduce(five, &[range], op);
        let result = reduce_simplify(&mut graph, reduce).expect("the loop is folded");
        assert_eq!(graph.op(result), Op::Binary(expected));
        assert_eq!(graph.source(result, 0), five);
        let scale = graph.source(result, 1);
        assert_eq!(fold_alone(&graph, scale), Some(ConstValue::Int(10)), "the scale is the extent");
    }
}

#[test]
fn max_is_idempotent_over_an_unparented_range() {
    let mut graph = Graph::new();
    let five = number(&mut graph, 5);
    let range = reduce_range(&mut graph, 10, 0);
    let reduce = graph.reduce(five, &[range], ReduceOp::Max);
    assert_eq!(reduce_simplify(&mut graph, reduce), Some(five));
}

#[test]
fn min_is_not_an_unparented_fold() {
    let mut graph = Graph::new();
    let value = number(&mut graph, 42);
    let range = reduce_range(&mut graph, 5, 0);
    let reduce = graph.reduce(value, &[range], ReduceOp::Min);
    assert_eq!(reduce_simplify(&mut graph, reduce), None);
}

#[test]
fn a_range_the_source_reads_is_not_unparented() {
    let mut graph = Graph::new();
    let range = reduce_range(&mut graph, 10, 0);
    let reduce = graph.reduce(range, &[range], ReduceOp::Add);
    assert_eq!(reduce_simplify(&mut graph, reduce), None);
}

#[test]
fn every_unparented_range_folds_into_its_own_factor() {
    let mut graph = Graph::new();
    let five = number(&mut graph, 5);
    let (first, second) = (reduce_range(&mut graph, 3, 0), reduce_range(&mut graph, 4, 1));
    let reduce = graph.reduce(five, &[first, second], ReduceOp::Add);
    let result = reduce_simplify(&mut graph, reduce).expect("both loops are folded");
    assert_eq!(graph.op(result), Op::Binary(BinaryOp::Mul));
    let (inner, outer) = (graph.source(result, 0), graph.source(result, 1));
    assert_eq!(graph.op(inner), Op::Binary(BinaryOp::Mul));
    assert_eq!(fold_alone(&graph, inner), Some(ConstValue::Int(15)));
    assert_eq!(fold_alone(&graph, outer), Some(ConstValue::Int(4)));
    assert_eq!(fold_alone(&graph, result), Some(ConstValue::Int(60)));
}

#[test]
fn a_parented_range_stays_inside_the_reduce() {
    let mut graph = Graph::new();
    let (parented, unparented) = (reduce_range(&mut graph, 5, 0), reduce_range(&mut graph, 10, 1));
    let three = number(&mut graph, 3);
    let counter = graph.cast(parented, DType::Int32);
    let src = graph.alu(BinaryOp::Add, three, counter);
    let reduce = graph.reduce(src, &[parented, unparented], ReduceOp::Add);
    let result = reduce_simplify(&mut graph, reduce).expect("one loop is folded");
    assert_eq!(graph.op(result), Op::Binary(BinaryOp::Mul));
    let inner = graph.source(result, 0);
    assert_eq!(graph.op(inner), Op::Reduce(ReduceOp::Add));
    assert_eq!(sources(&graph, inner), [src, parented]);
}

#[test]
fn a_constant_factor_lifts_out_of_the_reduce() {
    let cases = [
        (ReduceOp::Add, 3, true),
        (ReduceOp::Add, -1, true),
        (ReduceOp::Max, 3, true),
        (ReduceOp::Max, -1, false),
    ];
    for (op, factor, lifts) in cases {
        let mut graph = Graph::new();
        let range = reduce_range(&mut graph, 10, 0);
        let counter = graph.cast(range, DType::Int32);
        let constant = number(&mut graph, factor);
        let src = graph.alu(BinaryOp::Mul, counter, constant);
        let reduce = graph.reduce(src, &[range], op);
        let lifted = match reduce_simplify(&mut graph, reduce) {
            Some(result) => {
                graph.op(result) == Op::Binary(BinaryOp::Mul) && graph.source(result, 1) == constant
            }
            None => false,
        };
        assert_eq!(lifted, lifts, "{op:?} {factor}");
    }
}

#[test]
fn a_float_product_does_not_lift() {
    let mut graph = Graph::new();
    let range = reduce_range(&mut graph, 10, 0);
    let counter = graph.cast(range, DType::Float32);
    let factor = float(&mut graph, 2.5);
    let src = graph.alu(BinaryOp::Mul, counter, factor);
    let reduce = graph.reduce(src, &[range], ReduceOp::Max);
    assert_eq!(reduce_simplify(&mut graph, reduce), None);
    assert_eq!(reduce_mul_chain(&mut graph, reduce), None);
}

#[test]
fn a_symbolic_max_factor_without_bounds_stays_inside() {
    let mut graph = Graph::new();
    let range = reduce_range(&mut graph, 10, 0);
    let counter = graph.cast(range, DType::Int32);
    let unbounded = Op::Variable { name: 0, low: i64::MIN, high: i64::MAX };
    let unbounded = graph.leaf(unbounded, DType::Int32);
    let src = graph.alu(BinaryOp::Mul, counter, unbounded);
    let reduce = graph.reduce(src, &[range], ReduceOp::Max);
    assert_eq!(reduce_simplify(&mut graph, reduce), None);
}

#[test]
fn several_constant_factors_lift_into_one_product() {
    let mut graph = Graph::new();
    let range = reduce_range(&mut graph, 10, 0);
    let counter = graph.cast(range, DType::Int32);
    let (two, five) = (number(&mut graph, 2), number(&mut graph, 5));
    let product = graph.alu(BinaryOp::Mul, two, counter);
    let src = graph.alu(BinaryOp::Mul, product, five);
    let reduce = graph.reduce(src, &[range], ReduceOp::Add);
    let result = reduce_simplify(&mut graph, reduce).expect("the factors are taken out");
    let mut factors = Vec::new();
    let mut node = result;
    while graph.op(node) == Op::Binary(BinaryOp::Mul) {
        factors.push(fold_alone(&graph, graph.source(node, 1)).expect("a constant"));
        node = graph.source(node, 0);
    }
    assert_eq!(graph.op(node), Op::Reduce(ReduceOp::Add), "the loop stays inside");
    factors.sort_by_key(|value| match value {
        ConstValue::Int(n) => *n,
        other => panic!("expected an integer, got {other:?}"),
    });
    assert_eq!(factors, [ConstValue::Int(2), ConstValue::Int(5)]);
}

#[test]
fn independent_ranges_all_collapse_together() {
    let mut graph = Graph::new();
    let five = number(&mut graph, 5);
    let (first, second) = (reduce_range(&mut graph, 10, 0), reduce_range(&mut graph, 20, 1));
    let reduce = graph.reduce(five, &[first, second], ReduceOp::Add);
    let result = reduce_unparented(&mut graph, reduce).expect("both loops go");
    let walk = graph.toposort(result);
    assert!(walk.iter().all(|id| !matches!(graph.op(*id), Op::Range { .. } | Op::Reduce(_))));
    assert_eq!(fold_alone(&graph, result), Some(ConstValue::Int(1000)));
}

#[test]
fn only_a_constant_range_reports_a_size() {
    let mut graph = Graph::new();
    let fixed = graph.global_range(100, 0);
    assert_eq!(range_size_as_i64(&graph, fixed), Some(100));
    let reduced = reduce_range(&mut graph, 42, 1);
    assert_eq!(range_size_as_i64(&graph, reduced), Some(42));
    let n = graph.leaf(Op::Variable { name: 0, low: 0, high: 1000 }, DType::Index);
    let op = graph.op(fixed);
    let symbolic = graph.unary(op, DType::Index, n);
    assert_eq!(range_size_as_i64(&graph, symbolic), None);
    let hundred = number(&mut graph, 100);
    assert_eq!(range_size_as_i64(&graph, hundred), None);
}

/// The conditions that bound a loop counter from above and from below.
#[derive(Clone, Copy, Debug)]
enum Bound {
    Below(i64),
    From(i64),
}

fn apply(graph: &mut Graph, bound: Bound, range: usize) -> usize {
    match bound {
        Bound::Below(cut) => {
            let cut = graph.index_const(cut);
            graph.binary(Op::Binary(BinaryOp::Lt), DType::Bool, range, cut)
        }
        Bound::From(lower) => {
            let below = apply(graph, Bound::Below(lower), range);
            graph.unary(Op::Unary(UnaryOp::Not), DType::Bool, below)
        }
    }
}

fn gated(graph: &mut Graph, condition: usize) -> usize {
    let (one, zero) = (float(graph, 1.0), float(graph, 0.0));
    graph.ternary(Op::Ternary(TernaryOp::Where), DType::Float32, condition, one, zero)
}

fn is_float(graph: &Graph, id: usize, value: f64) -> bool {
    graph.op(id) == Op::Const(ConstValue::Float(value.to_bits()))
}

#[test]
fn a_gated_reduce_folds_to_the_counted_extent() {
    let cases = [
        (Bound::Below(5), 5.0),
        (Bound::Below(0), 0.0),
        (Bound::Below(12), 10.0),
        (Bound::From(3), 7.0),
        (Bound::From(0), 10.0),
        (Bound::From(12), 0.0),
    ];
    for (bound, expected) in cases {
        let mut graph = Graph::new();
        let range = reduce_range(&mut graph, END, 0);
        let condition = apply(&mut graph, bound, range);
        let body = gated(&mut graph, condition);
        let folded = reduce_load_collapse(&mut graph, body, range).expect("the sum is folded");
        assert!(is_float(&graph, folded, expected), "{bound:?}");
    }
}

#[test]
fn a_two_sided_gate_folds_to_the_width_of_the_window() {
    let cases = [
        (true, 2, 7, 5.0),
        (false, 3, 8, 5.0),
        (true, 0, 10, 10.0),
        (false, 0, 10, 10.0),
        (true, -4, 14, 10.0),
        (false, -4, 14, 10.0),
        (true, 7, 2, 0.0),
        (false, 12, 15, 0.0),
        (false, 4, 4, 0.0),
    ];
    for (negated, lower, upper, expected) in cases {
        let mut graph = Graph::new();
        let range = reduce_range(&mut graph, END, 0);
        let above = if negated {
            apply(&mut graph, Bound::From(lower), range)
        } else {
            let before = graph.index_const(lower - 1);
            graph.binary(Op::Binary(BinaryOp::Lt), DType::Bool, before, range)
        };
        let below = apply(&mut graph, Bound::Below(upper), range);
        let both = graph.binary(Op::Binary(BinaryOp::And), DType::Bool, above, below);
        assert!(find_window(&graph, both, range).is_some());
        let body = gated(&mut graph, both);
        let folded = reduce_load_collapse(&mut graph, body, range).expect("the sum is folded");
        assert!(is_float(&graph, folded, expected), "{lower} {upper}");
        let counted = (0..END).filter(|step| *step >= lower && *step < upper).count();
        assert_eq!(expected, counted as f64);
        assert_eq!(window_width(END, lower, upper), counted as i64);
    }
}

#[test]
fn a_gate_reading_a_foreign_range_does_not_collapse() {
    let mut graph = Graph::new();
    let (range, foreign) = (reduce_range(&mut graph, 8, 0), reduce_range(&mut graph, 8, 1));
    let condition = graph.cast(foreign, DType::Bool);
    let body = gated(&mut graph, condition);
    assert_eq!(reduce_load_collapse(&mut graph, body, range), None);
    let counter = graph.cast(range, DType::Float32);
    assert_eq!(reduce_load_collapse(&mut graph, counter, range), None, "nothing guards it");
}

/// A variable with one value.
fn fixed(graph: &mut Graph, value: i64) -> usize {
    graph.leaf(Op::Variable { name: 0, low: value, high: value }, DType::Index)
}

fn equality(graph: &mut Graph, op: BinaryOp, a: usize, b: usize) -> usize {
    graph.binary(Op::Binary(op), DType::Bool, a, b)
}

fn select(graph: &mut Graph, condition: usize, a: usize, b: usize) -> usize {
    graph.ternary(Op::Ternary(TernaryOp::Where), DType::Float32, condition, a, b)
}

/// Collapses a sum, and takes the branches that are known to be taken.
fn collapse(graph: &mut Graph, body: usize, range: usize) -> Option<usize> {
    let folded = reduce_load_collapse(graph, body, range)?;
    Some(rewrite(graph, Pass::DeadBranches, folded))
}

#[test]
fn an_eq_gated_body_collapses_to_the_indexed_value() {
    for index in [3, 0, 9] {
        let mut graph = Graph::new();
        let range = reduce_range(&mut graph, END, 0);
        let idx = fixed(&mut graph, index);
        let (value, zero) = (float(&mut graph, 3.0), float(&mut graph, 0.0));
        let picks = equality(&mut graph, BinaryOp::Eq, idx, range);
        let body = select(&mut graph, picks, value, zero);
        assert_eq!(collapse(&mut graph, body, range), Some(value), "{index}");
    }
}

#[test]
fn an_index_outside_of_the_loop_picks_nothing() {
    for index in [-1, 10] {
        let mut graph = Graph::new();
        let range = reduce_range(&mut graph, END, 0);
        let idx = fixed(&mut graph, index);
        let (value, zero) = (float(&mut graph, 3.0), float(&mut graph, 0.0));
        let picks = equality(&mut graph, BinaryOp::Eq, idx, range);
        let body = select(&mut graph, picks, value, zero);
        assert_eq!(collapse(&mut graph, body, range), Some(zero), "{index}");
    }
}

#[test]
fn a_ne_gated_body_collapses_to_the_indexed_value() {
    let mut graph = Graph::new();
    let range = reduce_range(&mut graph, END, 0);
    let idx = fixed(&mut graph, 4);
    let (value, zero) = (float(&mut graph, 2.5), float(&mut graph, 0.0));
    let differs = equality(&mut graph, BinaryOp::Ne, idx, range);
    let body = select(&mut graph, differs, zero, value);
    assert_eq!(collapse(&mut graph, body, range), Some(value));
}

/// What a collapsed sum of the loop counter converts.
fn picked(graph: &Graph, folded: usize) -> Option<(i64, i64)> {
    assert_eq!((graph.op(folded), graph.dtype(folded)), (Op::Cast, DType::Float32));
    find_bounds(graph, graph.source(folded, 0))
}

#[test]
fn an_offset_range_is_solved_for() {
    for (offset, index, expected) in [(5, 8, 3), (2, 2, 0), (1, 9, 8)] {
        let mut graph = Graph::new();
        let range = reduce_range(&mut graph, END, 0);
        let idx = fixed(&mut graph, index);
        let k = graph.index_const(offset);
        let moved = graph.alu(BinaryOp::Add, range, k);
        let step = graph.cast(range, DType::Float32);
        let zero = float(&mut graph, 0.0);
        let picks = equality(&mut graph, BinaryOp::Eq, idx, moved);
        let body = select(&mut graph, picks, step, zero);
        let folded = collapse(&mut graph, body, range).expect("the offset is solved for");
        assert_eq!(picked(&graph, folded), Some((expected, expected)));
        assert_eq!(picked_step(index, offset, END), Some(expected));
    }
    for (offset, index) in [(5, 4), (0, 10), (i64::MAX, i64::MIN), (i64::MIN, i64::MAX)] {
        assert_eq!(picked_step(index, offset, END), None);
    }
}

#[test]
fn a_cast_between_the_range_and_the_comparison_is_peeled() {
    let mut graph = Graph::new();
    let range = reduce_range(&mut graph, END, 0);
    let idx = fixed(&mut graph, 7);
    let wide = graph.cast(range, DType::Int64);
    let narrow = graph.cast(wide, DType::Int32);
    let index = graph.cast(idx, DType::Int32);
    let step = graph.cast(range, DType::Float32);
    let zero = float(&mut graph, 0.0);
    let picks = equality(&mut graph, BinaryOp::Eq, index, narrow);
    let body = select(&mut graph, picks, step, zero);
    let folded = collapse(&mut graph, body, range).expect("the conversions are looked through");
    assert_eq!(picked(&graph, folded), Some((7, 7)));
}

#[test]
fn a_cast_that_does_not_hold_the_range_is_not_peeled() {
    let mut graph = Graph::new();
    let range = reduce_range(&mut graph, 1000, 0);
    let idx = fixed(&mut graph, 7);
    let narrow = graph.cast(range, DType::Int8);
    let index = graph.cast(idx, DType::Int8);
    let (value, zero) = (float(&mut graph, 3.0), float(&mut graph, 0.0));
    let picks = equality(&mut graph, BinaryOp::Eq, index, narrow);
    let body = select(&mut graph, picks, value, zero);
    assert_eq!(reduce_load_collapse(&mut graph, body, range), None);
}

#[test]
fn the_range_may_be_either_operand() {
    let mut graph = Graph::new();
    let range = reduce_range(&mut graph, END, 0);
    let idx = fixed(&mut graph, 6);
    let step = graph.cast(range, DType::Float32);
    let zero = float(&mut graph, 0.0);
    let picks = equality(&mut graph, BinaryOp::Eq, range, idx);
    let body = select(&mut graph, picks, step, zero);
    let folded = collapse(&mut graph, body, range).expect("either side may be the loop");
    assert_eq!(picked(&graph, folded), Some((6, 6)));
}

#[test]
fn a_scaled_range_keeps_its_reduce() {
    let mut graph = Graph::new();
    let range = reduce_range(&mut graph, END, 0);
    let idx = fixed(&mut graph, 6);
    let two = graph.index_const(2);
    let scaled = graph.alu(BinaryOp::Mul, range, two);
    let picks = equality(&mut graph, BinaryOp::Eq, idx, scaled);
    let body = gated(&mut graph, picks);
    assert_eq!(reduce_load_collapse(&mut graph, body, range), None);
}

#[test]
fn an_index_that_reaches_the_range_does_not_collapse() {
    let mut graph = Graph::new();
    let range = reduce_range(&mut graph, END, 0);
    let (two, three) = (graph.index_const(2), graph.index_const(3));
    let scaled = graph.alu(BinaryOp::Mul, range, two);
    let moved = graph.alu(BinaryOp::Add, range, three);
    let picks = equality(&mut graph, BinaryOp::Eq, moved, scaled);
    let body = gated(&mut graph, picks);
    assert_eq!(reduce_load_collapse(&mut graph, body, range), None);
}

#[test]
fn a_multiplication_by_a_cast_bool_becomes_a_where() {
    let mut graph = Graph::new();
    let gate = graph.leaf(Op::Variable { name: 1, low: 0, high: 1 }, DType::Bool);
    let three = number(&mut graph, 3);
    let truth = graph.cast(gate, DType::Int32);
    let product = graph.alu(BinaryOp::Mul, three, truth);
    let range = reduce_range(&mut graph, END, 0);
    let folded = reduce_load_collapse(&mut graph, product, range).expect("the loop is not read");
    assert_eq!(graph.op(folded), Op::Binary(BinaryOp::Mul));
    let (lowered, count) = (graph.source(folded, 0), graph.source(folded, 1));
    assert_eq!(graph.op(lowered), Op::Ternary(TernaryOp::Where));
    let parts = sources(&graph, lowered);
    assert_eq!(parts[..2], [gate, three]);
    assert_eq!(graph.op(parts[2]), Op::Const(ConstValue::Int(0)));
    assert_eq!(fold_alone(&graph, count), Some(ConstValue::Int(END)));
}

#[test]
fn counts_are_clamped_and_encoded() {
    assert_eq!(counted_extent(10, 5), 5);
    assert_eq!(counted_extent(10, -3), 0);
    assert_eq!(counted_extent(10, 12), 10);
    for n in [0, 1, 2, 3, 10, 1000, (1 << 53) - 1] {
        assert_eq!(f64::from_bits(float_bits(n)), n as f64);
    }
}

fn nested_ends(graph: &mut Graph, depth: usize) -> usize {
    let mut inner = float(graph, 1.0);
    for i in 0..depth {
        let range = graph.global_range(10 * (i as i64 + 1), i);
        inner = graph.end(inner, &[range]);
    }
    inner
}

#[test]
fn nothing_to_canonicalize_returns_none() {
    for row in 0..5 {
        let mut graph = Graph::new();
        let root = match row {
            0..=2 => nested_ends(&mut graph, row + 1),
            3 => float(&mut graph, 1.0),
            _ => {
                let param = graph.leaf(Op::Param { slot: 0, addrspace: None }, DType::Float32);
                let zero = graph.index_const(0);
                let address = graph.binary(Op::Index, DType::Float32, param, zero);
                let value = float(&mut graph, 1.0);
                graph.binary(Op::Store, DType::Void, address, value)
            }
        };
        assert_eq!(flatten_range_impl(&mut graph, root), None);
        assert_eq!(rewrite(&mut graph, Pass::Flatten, root), root);
    }
}

#[test]
fn a_range_expression_is_split_and_a_boolean_backedge_survives() {
    let mut graph = Graph::new();
    let (one, two) = (float(&mut graph, 1.0), float(&mut graph, 2.0));
    let sum = graph.alu(BinaryOp::Add, one, two);
    let (first, second) = (graph.global_range(10, 0), graph.global_range(20, 1));
    let combined = graph.alu(BinaryOp::Add, first, second);
    let end = graph.end(sum, &[combined]);
    let flat = flatten_range_impl(&mut graph, end).expect("the expression is split");
    assert_eq!(sources(&graph, flat), [sum, first, second]);

    let bools = [
        graph.constant(ConstValue::Bool(true), DType::Bool),
        graph.constant(ConstValue::Bool(false), DType::Bool),
    ];
    let backedge = graph.node(Op::Stack, DType::Bool, &bools);
    let end = graph.end(one, &[backedge, first]);
    let flat = flatten_range_impl(&mut graph, end).expect("the loop moves to the front");
    assert_eq!(graph.op(flat), Op::End);
    assert_eq!(sources(&graph, flat), [one, first, backedge]);
}

#[test]
fn a_parameter_in_the_gate_is_factored_out_of_the_count() {
    for swapped in [false, true] {
        let mut graph = Graph::new();
        let range = reduce_range(&mut graph, END, 0);
        let param = graph.leaf(Op::Param { slot: 0, addrspace: None }, DType::Int32);
        let one = graph.constant(ConstValue::Int(1), DType::Int32);
        let test = equality(&mut graph, BinaryOp::Eq, param, one);
        let below = apply(&mut graph, Bound::Below(5), range);
        let (left, right) = if swapped { (below, test) } else { (test, below) };
        let gate = graph.binary(Op::Binary(BinaryOp::And), DType::Bool, left, right);
        let (two, zero) = (float(&mut graph, 2.0), float(&mut graph, 0.0));
        let body = select(&mut graph, gate, two, zero);
        let folded = reduce_load_collapse(&mut graph, body, range).expect("the sum is folded");
        assert_eq!(graph.op(folded), Op::Ternary(TernaryOp::Where));
        assert_eq!(graph.source(folded, 0), test, "the parameter is still tested");
        assert!(is_float(&graph, graph.source(folded, 1), 10.0));
        assert!(is_float(&graph, graph.source(folded, 2), 0.0));
    }
}

#[test]
fn whole_floats_are_read_back() {
    for n in [0u64, 1, 2, 3, 5, 10, 255, 1 << 24, (1 << 52) + 1, (1 << 53) - 1] {
        assert_eq!(find_whole_number(float_bits(n)), Some(n));
        assert_eq!(float_bits(n), (n as f64).to_bits());
    }
    for value in [0.5, -1.0, 2.5, 1e300, f64::NAN, f64::INFINITY, -0.0, 9007199254740992.0] {
        assert_eq!(find_whole_number(value.to_bits()), None, "{value}");
    }
}

/// What an index expression is where the variable has a value.
fn number_at(graph: &Graph, id: usize, variable: i64) -> i64 {
    let of = |k: usize| number_at(graph, graph.source(id, k), variable);
    match graph.op(id) {
        Op::Const(ConstValue::Int(n)) => n,
        Op::Variable { .. } => variable,
        Op::Cast => of(0),
        Op::Binary(BinaryOp::Add) => of(0) + of(1),
        Op::Binary(BinaryOp::Sub) => of(0) - of(1),
        Op::Binary(BinaryOp::Mul) => of(0) * of(1),
        Op::Binary(BinaryOp::Max) => of(0).max(of(1)),
        Op::Binary(BinaryOp::Lt) => (of(0) < of(1)) as i64,
        Op::Ternary(TernaryOp::Where) => if of(0) != 0 { of(1) } else { of(2) },
        other => panic!("unexpected {other:?}"),
    }
}

#[test]
fn reduce_collapse_lifts_a_commutative_add_in_either_order() {
    for range_first in [true, false] {
        for (a, b) in [(0, 1), (3, -2)] {
            let mut graph = Graph::new();
            let range = reduce_range(&mut graph, 32, 0);
            let scalar = graph.leaf(Op::Variable { name: 0, low: 0, high: 31 }, graph.dtype(range));
            let (x, y) = if range_first { (range, scalar) } else { (scalar, range) };
            let sum = graph.alu(BinaryOp::Add, x, y);
            let bound = graph.constant(ConstValue::Int(31), graph.dtype(sum));
            let below = graph.binary(Op::Binary(BinaryOp::Lt), DType::Bool, sum, bound);
            let [first, second] = [a, b].map(|n| graph.constant(ConstValue::Int(n), DType::Int32));
            let choice = Op::Ternary(TernaryOp::Where);
            let body = graph.ternary(choice, DType::Int32, below, first, second);
            let reduce = graph.reduce(body, &[range], ReduceOp::Add);
            let result = reduce_collapse(&mut graph, reduce).expect("the sum is folded");
            let walk = graph.toposort(result);
            assert!(walk.iter().all(|id| !matches!(graph.op(*id), Op::Range { .. } | Op::Reduce(_))));
            for variable in -40..40 {
                let expected: i64 = (0..32).map(|r| if r + variable < 31 { a } else { b }).sum();
                assert_eq!(number_at(&graph, result, variable), expected, "{variable}");
            }
        }
    }
}
