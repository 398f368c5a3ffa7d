//! Ranges, the indices they make, and the windows that are written and read.

use svod_schedule::disjoint::{disjoint_windows, find_gap, find_linear};
use svod_schedule::graph::{AddrSpace, AxisId, AxisType, BinaryOp, ConstValue, DType, Graph, Op, ReduceOp, TernaryOp, UnaryOp};
use svod_schedule::indexing::{
    all_ranges_same, get_condition, get_idx, get_valid, merge_consumer_ranges, remove_movement,
    IndexingContext,
};
use svod_schedule::movement::{apply_movement_op, fold_movements, Movement};
use svod_schedule::ranged::{reduce_over_ranges, walk_reduction};

fn buffer(graph: &mut Graph, slot: usize, size: usize) -> usize {
    graph.leaf(Op::Buffer { slot, space: AddrSpace::Global, size }, DType::Float32)
}

fn is_int(graph: &Graph, id: usize, value: i64) -> bool {
    graph.op(id) == Op::Const(ConstValue::Int(value))
}

#[test]
fn ranges_are_numbered_sequentially_and_size_one_axes_are_free() {
    let mut graph = Graph::new();
    let mut ctx = IndexingContext::new();
    assert_eq!(ctx.range_counter(), 0);
    for (i, extent) in [10usize, 20, 0, 1 << 30].into_iter().enumerate() {
        let range = ctx.new_range(&mut graph, extent, AxisType::Loop);
        let op = Op::Range { axis: AxisId::Unrenumbered(i), kind: AxisType::Loop };
        assert_eq!(graph.op(range), op);
        assert!(is_int(&graph, graph.source(range, 0), extent as i64));
        assert_eq!(ctx.range_counter(), i + 1);
    }
    let single = ctx.new_range(&mut graph, 1, AxisType::Loop);
    assert!(is_int(&graph, single, 0));
    assert_eq!(ctx.range_counter(), 4, "an axis of one element takes no number");

    let n = graph.leaf(Op::Variable { name: 0, low: 0, high: i64::MAX }, DType::Index);
    let symbolic = ctx.new_range_from(&mut graph, n, AxisType::Loop);
    assert_eq!(graph.source(symbolic, 0), n);
    let reduced = ctx.new_range(&mut graph, 10, AxisType::Reduce);
    let op = Op::Range { axis: AxisId::Unrenumbered(5), kind: AxisType::Reduce };
    assert_eq!(graph.op(reduced), op);

    let mut second = IndexingContext::new();
    let first = second.new_range(&mut graph, 30, AxisType::Loop);
    let op = Op::Range { axis: AxisId::Unrenumbered(0), kind: AxisType::Loop };
    assert_eq!(graph.op(first), op);
}

#[test]
fn input_and_output_ranges_are_stored_and_read_back_per_uop() {
    let mut graph = Graph::new();
    let mut ctx = IndexingContext::new();
    let x = graph.leaf(Op::Variable { name: 0, low: 0, high: i64::MAX }, DType::Float32);
    let (r0, r1) = (
        ctx.new_range(&mut graph, 10, AxisType::Loop),
        ctx.new_range(&mut graph, 20, AxisType::Loop),
    );
    assert!(ctx.input_ranges(x).is_none() && ctx.output_ranges(x).is_none());
    ctx.set_ranges(x, vec![r0, r1], vec![r0]);
    assert_eq!(ctx.input_ranges(x), Some(&vec![r0, r1]));
    assert_eq!(ctx.output_ranges(x), Some(&vec![r0]));
}

#[test]
fn the_realize_map_distinguishes_all_axes_from_named_axes() {
    let mut graph = Graph::new();
    let mut ctx = IndexingContext::new();
    let x = graph.leaf(Op::Variable { name: 0, low: 0, high: i64::MAX }, DType::Float32);
    assert!(!ctx.should_realize(x));
    assert!(ctx.get_realize_axes(x).is_none());
    ctx.mark_realize_all(x);
    assert!(ctx.should_realize(x));
    assert!(ctx.get_realize_axes(x).is_none());
    ctx.mark_realize(x, vec![0, 2]);
    assert_eq!(ctx.get_realize_axes(x), Some(&vec![0, 2]));
}

#[test]
fn ranges_are_the_same_only_when_they_are_the_same_node() {
    let mut graph = Graph::new();
    let mut ctx = IndexingContext::new();
    let r0 = ctx.new_range(&mut graph, 10, AxisType::Loop);
    let r1 = ctx.new_range(&mut graph, 20, AxisType::Loop);
    assert!(all_ranges_same(&vec![]));
    assert!(all_ranges_same(&vec![r0]));
    assert!(all_ranges_same(&vec![r0, r0]));
    assert!(!all_ranges_same(&vec![get_idx(&graph, r0), get_idx(&graph, r1)]));
}

/// An index that is valid below a bound, or always.
fn gated(graph: &mut Graph, idx: usize, bound: Option<i64>) -> usize {
    let valid = match bound {
        Some(bound) => {
            let bound = graph.index_const(bound);
            graph.binary(Op::Binary(BinaryOp::Lt), DType::Bool, idx, bound)
        }
        None => graph.constant(ConstValue::Bool(true), DType::Bool),
    };
    let marker = graph.constant(ConstValue::Invalid, DType::Index);
    let dtype = graph.dtype(idx);
    graph.ternary(Op::Ternary(TernaryOp::Where), dtype, valid, idx, marker)
}

#[test]
fn a_gated_range_decomposes_into_its_index_and_its_condition() {
    let mut graph = Graph::new();
    let mut ctx = IndexingContext::new();
    let idx = ctx.new_range(&mut graph, 10, AxisType::Loop);
    assert_eq!(get_idx(&graph, idx), idx);
    assert_eq!(get_condition(&graph, idx), None);
    let always = get_valid(&mut graph, idx);
    assert_eq!(graph.op(always), Op::Const(ConstValue::Bool(true)));

    let (narrow, wide) = (gated(&mut graph, idx, Some(5)), gated(&mut graph, idx, Some(8)));
    assert_eq!(get_idx(&graph, narrow), idx);
    let valid = get_valid(&mut graph, narrow);
    assert_eq!(graph.source(narrow, 0), valid);

    let storage = buffer(&mut graph, 0, 10);
    let consumers = vec![vec![narrow], vec![wide]];
    let merged = merge_consumer_ranges(&mut graph, &mut ctx, storage, &vec![10], &consumers);
    assert_eq!(merged.len(), 1);
    assert_eq!(graph.op(merged[0]), Op::Ternary(TernaryOp::Where));
    assert_eq!(graph.source(merged[0], 1), idx);
    let either = graph.source(merged[0], 0);
    assert_eq!(graph.op(either), Op::Binary(BinaryOp::Or));
}

#[test]
fn consumer_ranges_converge_or_realize() {
    let mut graph = Graph::new();
    let mut ctx = IndexingContext::new();
    let storage = buffer(&mut graph, 0, 100);
    let r = ctx.new_range(&mut graph, 100, AxisType::Loop);
    let a = ctx.new_range(&mut graph, 100, AxisType::Loop);
    let b = ctx.new_range(&mut graph, 100, AxisType::Loop);

    let consumers = vec![vec![r], vec![r]];
    let merged = merge_consumer_ranges(&mut graph, &mut ctx, storage, &vec![100], &consumers);
    assert_eq!(merged, [r]);
    assert!(!ctx.should_realize(storage));

    let consumers = vec![vec![a], vec![b]];
    let merged = merge_consumer_ranges(&mut graph, &mut ctx, storage, &vec![100], &consumers);
    assert_eq!(merged.len(), 1);
    assert!(merged[0] != a && merged[0] != b);
    assert_eq!(ctx.get_realize_axes(storage), Some(&vec![0]));

    let wide = buffer(&mut graph, 1, 200);
    let mut ctx = IndexingContext::new();
    let shared = ctx.new_range(&mut graph, 10, AxisType::Loop);
    let c = ctx.new_range(&mut graph, 20, AxisType::Loop);
    let d = ctx.new_range(&mut graph, 20, AxisType::Loop);
    let consumers = vec![vec![shared, c], vec![shared, d]];
    let merged = merge_consumer_ranges(&mut graph, &mut ctx, wide, &vec![10, 20], &consumers);
    assert_eq!(merged.len(), 2);
    assert!(merged[0] != shared && merged[1] != c);
    assert_eq!(ctx.get_realize_axes(wide), Some(&vec![0, 1]));
}

#[test]
fn a_dimension_with_no_consumers_is_realized_on_its_own() {
    let mut graph = Graph::new();
    let mut ctx = IndexingContext::new();
    let storage = buffer(&mut graph, 0, 10);
    let merged = merge_consumer_ranges(&mut graph, &mut ctx, storage, &vec![10], &vec![]);
    assert_eq!(merged.len(), 1);
    assert!(matches!(graph.op(merged[0]), Op::Range { .. }));
    assert_eq!(ctx.get_realize_axes(storage), Some(&vec![0]));
}

#[test]
fn a_consumer_with_more_ranges_than_dimensions_is_truncated() {
    let mut graph = Graph::new();
    let mut ctx = IndexingContext::new();
    let storage = buffer(&mut graph, 0, 10);
    let used = ctx.new_range(&mut graph, 10, AxisType::Loop);
    let extra = ctx.new_range(&mut graph, 10, AxisType::Loop);
    let consumers = vec![vec![used, extra]];
    let merged = merge_consumer_ranges(&mut graph, &mut ctx, storage, &vec![10], &consumers);
    assert_eq!(merged, [used]);
    assert!(!ctx.should_realize(storage));
}

#[test]
fn an_always_valid_guard_short_circuits_to_the_bare_index() {
    let mut graph = Graph::new();
    let mut ctx = IndexingContext::new();
    let storage = buffer(&mut graph, 0, 10);
    let idx = ctx.new_range(&mut graph, 10, AxisType::Loop);
    let truthy = gated(&mut graph, idx, None);
    let consumers = vec![vec![truthy], vec![truthy]];
    let merged = merge_consumer_ranges(&mut graph, &mut ctx, storage, &vec![10], &consumers);
    assert_eq!(merged.len(), 1);
    assert_eq!(get_idx(&graph, merged[0]), idx);
    let valid = get_valid(&mut graph, merged[0]);
    assert_eq!(graph.op(valid), Op::Const(ConstValue::Bool(true)));
    assert!(!ctx.should_realize(storage));
}

#[test]
fn self_assign_windows() {
    let mut graph = Graph::new();
    let t = graph.leaf(Op::Variable { name: 0, low: 0, high: 100 }, DType::Index);
    let c = |graph: &mut Graph, n: i64| graph.index_const(n);
    let plus = |graph: &mut Graph, a: usize, n: i64| {
        let n = graph.index_const(n);
        graph.alu(BinaryOp::Add, a, n)
    };
    let next = plus(&mut graph, t, 1);
    let over = plus(&mut graph, t, 2);
    let (two, three) = (c(&mut graph, 2), c(&mut graph, 3));
    let spread_next = graph.alu(BinaryOp::Mul, two, next);
    let spread = graph.alu(BinaryOp::Mul, two, t);
    let spread_over = plus(&mut graph, spread, 2);
    let strided_next = graph.alu(BinaryOp::Mul, next, three);
    let strided = graph.alu(BinaryOp::Mul, t, three);
    let one = c(&mut graph, 1);
    let nested = graph.alu(BinaryOp::Add, one, next);
    let far = plus(&mut graph, t, 200);
    let narrow_far = graph.cast(far, DType::Int8);
    let narrow = graph.cast(t, DType::Int8);
    let cases = [
        (t, next, 1, 1, false),
        (next, t, 1, 1, false),
        (spread_next, spread, 2, 2, false),
        (strided_next, strided, 3, 3, false),
        (next, t, 2, 1, false),
        (t, next, 1, 2, false),
        (t, t, 1, 1, true),
        (spread_next, spread_over, 2, 2, true),
        (over, nested, 1, 1, true),
        (next, t, 1, 2, true),
        (t, next, 2, 1, true),
        (narrow_far, narrow, 100, 100, true),
    ];
    for (row, (write, read, write_size, read_size, keeps)) in cases.into_iter().enumerate() {
        let apart = disjoint_windows(&graph, write, write_size, read, read_size);
        assert_eq!(!apart, keeps, "row {row}");
    }
    assert_eq!(find_gap(&graph, strided_next, strided), Some(3));
    assert_eq!(find_gap(&graph, spread, strided), None);
    let sum = find_linear(&graph, strided_next).expect("it fits");
    assert_eq!((sum.terms, sum.constant), (vec![(t, 3)], 3));
}

fn shrink(offsets: &[usize], sizes: &[usize]) -> Movement {
    Movement::Shrink { offsets: offsets.to_vec(), sizes: sizes.to_vec() }
}

fn pad(begin: &[usize], end: &[usize]) -> Movement {
    Movement::Pad { begin: begin.to_vec(), end: end.to_vec() }
}

#[test]
fn movement_chains_read_at_the_flat_offset() {
    let cases = [
        (vec![200], vec![Movement::Reshape(vec![10, 20])], vec![3, 7], Some(67)),
        (
            vec![200],
            vec![Movement::Reshape(vec![10, 1, 20]), Movement::Expand(vec![10, 5, 20])],
            vec![3, 4, 7],
            Some(67),
        ),
        (
            vec![6000],
            vec![Movement::Reshape(vec![10, 20, 30]), Movement::Permute(vec![1, 2, 0])],
            vec![19, 29, 9],
            Some(5999),
        ),
        (
            vec![400],
            vec![Movement::Reshape(vec![10, 40]), shrink(&[0, 10], &[5, 20])],
            vec![2, 3],
            Some(93),
        ),
        (
            vec![200],
            vec![Movement::Reshape(vec![10, 20]), Movement::Flip(vec![false, true])],
            vec![1, 0],
            Some(39),
        ),
        (
            vec![200],
            vec![Movement::Reshape(vec![10, 20]), pad(&[1, 2], &[1, 2])],
            vec![1, 2],
            Some(0),
        ),
        (
            vec![200],
            vec![Movement::Reshape(vec![10, 20]), pad(&[1, 2], &[1, 2])],
            vec![0, 5],
            None,
        ),
        (
            vec![10],
            vec![
                Movement::Reshape(vec![10, 1]),
                Movement::Expand(vec![10, 5]),
                Movement::Reshape(vec![50]),
            ],
            vec![23],
            Some(4),
        ),
    ];
    for (dims, ops, index, expected) in cases {
        assert_eq!(fold_movements(&ops, &dims, &index), expected, "{ops:?} {index:?}");
    }
}

#[test]
fn a_zero_offset_window_reads_what_it_shows() {
    let plain = vec![Movement::Reshape(vec![10, 20])];
    let whole = vec![Movement::Reshape(vec![10, 20]), shrink(&[0, 0], &[10, 20])];
    for index in [vec![0, 0], vec![4, 19], vec![9, 3]] {
        assert_eq!(fold_movements(&whole, &vec![200], &index), fold_movements(&plain, &vec![200], &index));
    }
}

#[test]
fn a_right_only_pad_reads_where_the_source_does() {
    let padded = vec![Movement::Reshape(vec![10, 20]), pad(&[0, 0], &[2, 3])];
    for row in 0..10 {
        for column in 0..20 {
            let at = fold_movements(&padded, &vec![200], &vec![row, column]);
            assert_eq!(at, Some(20 * row + column));
        }
    }
    assert_eq!(fold_movements(&padded, &vec![200], &vec![10, 0]), None);
}

#[test]
fn expand_pads_the_rank() {
    let source = apply_movement_op(&Movement::Expand(vec![3, 20]), &vec![20], &vec![2, 7]);
    assert_eq!(source, Some(vec![7]));
    assert_eq!(fold_movements(&vec![Movement::Expand(vec![3, 20])], &vec![20], &vec![2, 7]), Some(7));
}

fn moved(graph: &mut Graph, op: Op, source: usize) -> usize {
    let list = match op {
        Op::Permute => [1, 0],
        _ => [4, 8],
    };
    let sizes = list.map(|n| graph.index_const(n));
    if op == Op::Permute {
        return graph.led(op, DType::Float32, source, &sizes);
    }
    let shape = graph.node(Op::Stack, DType::Index, &sizes);
    graph.binary(op, DType::Float32, source, shape)
}

#[test]
fn a_ranged_movement_op_collapses_to_its_source() {
    for op in [Op::Permute, Op::Reshape, Op::Expand] {
        let mut graph = Graph::new();
        let source = graph.constant(ConstValue::Float(1.0f64.to_bits()), DType::Float32);
        let movement = moved(&mut graph, op, source);
        let range = graph.range(4, AxisType::Loop, 0);
        let mut ctx = IndexingContext::new();
        ctx.set_ranges(movement, vec![range], vec![range]);
        assert_eq!(remove_movement(&graph, &ctx, movement), Some(source), "{op:?}");
    }
}

#[test]
fn nothing_is_removed_before_ranges_are_assigned() {
    let mut graph = Graph::new();
    let source = graph.constant(ConstValue::Float(1.0f64.to_bits()), DType::Float32);
    let mut ctx = IndexingContext::new();
    let permuted = moved(&mut graph, Op::Permute, source);
    let root = graph.unary(Op::Unary(UnaryOp::Sqrt), DType::Float32, source);
    for id in [permuted, root] {
        assert_eq!(remove_movement(&graph, &ctx, id), None);
    }
    ctx.set_ranges(root, vec![], vec![]);
    assert_eq!(remove_movement(&graph, &ctx, root), None, "it moves nothing");
}

#[test]
fn tensor_reduce_becomes_a_loop_reduce_over_ranges() {
    let mut graph = Graph::new();
    let flat = buffer(&mut graph, 0, 6);
    let sizes = [graph.index_const(2), graph.index_const(3)];
    let shape = graph.node(Op::Stack, DType::Index, &sizes);
    let source = graph.binary(Op::Reshape, DType::Float32, flat, shape);
    let axes = [graph.index_const(1), graph.index_const(0)];
    let leading = graph.led(Op::Permute, DType::Float32, source, &axes);
    let op = Op::AxisReduce { with: ReduceOp::Add, count: 1 };
    let reduced = graph.unary(op, DType::Float32, leading);
    let kept = graph.unary(Op::Contiguous, DType::Float32, reduced);
    let sink = graph.sink(&[kept]);

    let mut ctx = IndexingContext::new();
    let output = ctx.new_range(&mut graph, 2, AxisType::Loop);
    assert!(walk_reduction(&mut ctx, &mut graph, reduced, &vec![output]));
    let inputs = ctx.input_ranges(reduced).expect("its ranges are known").clone();
    assert_eq!(inputs.len(), 2);
    assert_eq!(inputs[1], output);
    assert!(is_int(&graph, graph.source(inputs[0], 0), 3), "as long as the reduced axis");

    let ranged = reduce_over_ranges(&mut graph, &ctx, sink);
    let walk = graph.toposort(ranged);
    assert!(walk.iter().all(|id| !matches!(graph.op(*id), Op::AxisReduce { .. })));
    let reductions: Vec<usize> =
        walk.into_iter().filter(|id| matches!(graph.op(*id), Op::Reduce(_))).collect();
    assert_eq!(reductions.len(), 1);
    assert_eq!((graph.source(reductions[0], 0), graph.source(reductions[0], 1)), (leading, inputs[0]));

    let untouched = reduce_over_ranges(&mut graph, &IndexingContext::new(), sink);
    assert_eq!(untouched, sink, "without ranges nothing changes");
    let unknown = graph.leaf(Op::Noop, DType::Float32);
    let stuck = graph.unary(op, DType::Float32, unknown);
    assert!(!walk_reduction(&mut ctx, &mut graph, stuck, &vec![]), "its shape is not known");
}

#[test]
fn opaque_bodies_keep_their_reductions() {
    let mut graph = Graph::new();
    let flat = buffer(&mut graph, 0, 8);
    let op = Op::AxisReduce { with: ReduceOp::Add, count: 1 };
    let reduced = graph.unary(op, DType::Float32, flat);
    let argument = buffer(&mut graph, 1, 8);
    let call = graph.binary(Op::Call, DType::Void, reduced, argument);
    let mut ctx = IndexingContext::new();
    assert!(walk_reduction(&mut ctx, &mut graph, reduced, &vec![]));
    assert_eq!(reduce_over_ranges(&mut graph, &ctx, call), call);
}
