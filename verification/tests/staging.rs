//! Values that are stored between kernels, and the loops that they are stored in.

use svod_schedule::bufferize::{bufferize_to_store, find_bufs, find_storage};
use svod_schedule::context::RangeifyBufferContext;
use svod_schedule::early::{drop_dead_axes, early_rewrite, is_dead_axis};
use svod_schedule::ends::split_ends;
use svod_schedule::folding::{fold_buffer, is_noop, relinearize, remove_bufferize};
use svod_schedule::graph::{AddrSpace, AxisId, AxisType, BinaryOp, ConstValue, DType, Graph, Op, ReduceOp, TernaryOp};
use svod_schedule::helpers::{count_stages, stores};
use svod_schedule::indexing::IndexingContext;
use svod_schedule::limits::{count_arguments, limit_buffers};
use svod_schedule::narrow::{merge_adjacent, simplify_ranges};

fn sources(graph: &Graph, id: usize) -> Vec<usize> {
    (0..graph.source_count(id)).map(|at| graph.source(id, at)).collect()
}

fn float(graph: &mut Graph, value: f64) -> usize {
    graph.constant(ConstValue::Float(value.to_bits()), DType::Float32)
}

fn global(graph: &mut Graph, slot: usize) -> usize {
    graph.leaf(Op::Buffer { slot, space: AddrSpace::Global, size: 40 }, DType::Float32)
}

fn param(graph: &mut Graph, slot: usize) -> usize {
    graph.leaf(Op::Param { slot, addrspace: None }, DType::Float32)
}

fn index(graph: &mut Graph, storage: usize, at: &[usize]) -> usize {
    let dtype = graph.dtype(storage);
    graph.led(Op::Index, dtype, storage, at)
}

fn load(graph: &mut Graph, address: usize) -> usize {
    let dtype = graph.dtype(address);
    graph.unary(Op::Load, dtype, address)
}

fn store(graph: &mut Graph, address: usize, value: usize) -> usize {
    graph.binary(Op::Store, DType::Void, address, value)
}

fn stage(graph: &mut Graph, value: usize, loops: &[usize]) -> usize {
    let dtype = graph.dtype(value);
    graph.led(Op::Stage { space: AddrSpace::Global, removable: true }, dtype, value, loops)
}

fn noop(graph: &mut Graph) -> usize {
    graph.leaf(Op::Noop, DType::Void)
}

#[test]
fn a_staged_compute_becomes_a_buffer_backed_store() {
    let mut graph = Graph::new();
    let mut ctx = RangeifyBufferContext::new();
    let compute = float(&mut graph, 42.0);
    let range = graph.global_range(10, 0);
    let staged = stage(&mut graph, compute, &[range]);
    let result = bufferize_to_store(&mut graph, staged, &mut ctx).expect("a staged value");
    assert_eq!(graph.op(result), Op::After);
    let (storage, end) = (graph.source(result, 0), graph.source(result, 1));
    assert_eq!(graph.source_count(result), 2);
    assert_eq!(graph.op(storage), Op::Buffer { slot: 0, space: AddrSpace::Global, size: 10 });
    assert_eq!(graph.op(end), Op::End);
    assert_eq!(sources(&graph, end)[1..], [range]);
    let stored = graph.source(end, 0);
    assert_eq!(graph.op(stored), Op::Store);
    assert_eq!(graph.source_count(stored), 2);
    assert_eq!(graph.source(stored, 1), compute);
    let address = graph.source(stored, 0);
    assert_eq!(sources(&graph, address), [storage, range]);
    assert_eq!(ctx.get_buffer(staged), Some(result));
    assert_eq!(ctx.local_counter, 0);
}

#[test]
fn a_stage_over_an_after_reuses_the_underlying_buffer() {
    let mut graph = Graph::new();
    let storage = global(&mut graph, 0);
    let range = graph.global_range(8, 0);
    let nothing = noop(&mut graph);
    let zero = graph.index_const(0);
    let target = index(&mut graph, storage, &[zero]);
    let same = store(&mut graph, target, target);
    for dep in [nothing, same] {
        let mut ctx = RangeifyBufferContext::new();
        let after = graph.after(storage, &[dep]);
        let staged = stage(&mut graph, after, &[range]);
        let result = bufferize_to_store(&mut graph, staged, &mut ctx).expect("a staged value");
        assert_eq!(result, storage);
        assert_eq!(ctx.get_buffer(staged), Some(storage));
        assert_eq!(stores(&graph, result), 0);
    }
}

#[test]
fn only_a_stage_converts() {
    let mut graph = Graph::new();
    let mut ctx = RangeifyBufferContext::new();
    let one = float(&mut graph, 1.0);
    assert_eq!(bufferize_to_store(&mut graph, one, &mut ctx), None);
}

#[test]
fn rangeless_stage_stores_without_an_end_wrapper() {
    let mut graph = Graph::new();
    let mut ctx = RangeifyBufferContext::new();
    let compute = float(&mut graph, 42.0);
    let staged = stage(&mut graph, compute, &[]);
    let result = bufferize_to_store(&mut graph, staged, &mut ctx).expect("a staged value");
    assert_eq!(graph.op(result), Op::After);
    assert_eq!(graph.source_count(result), 2);
    assert!(matches!(graph.op(graph.source(result, 0)), Op::Buffer { .. }));
    assert_eq!(graph.op(graph.source(result, 1)), Op::Store);
}

#[test]
fn every_staged_value_takes_a_slot_of_its_own() {
    let mut graph = Graph::new();
    let mut ctx = RangeifyBufferContext::new();
    let range = graph.global_range(10, 0);
    let (one, two) = (float(&mut graph, 1.0), float(&mut graph, 2.0));
    let (first, second) = (stage(&mut graph, one, &[range]), stage(&mut graph, two, &[range]));
    let a = bufferize_to_store(&mut graph, first, &mut ctx).expect("a staged value");
    let b = bufferize_to_store(&mut graph, second, &mut ctx).expect("a staged value");
    assert_ne!(graph.op(graph.source(a, 0)), graph.op(graph.source(b, 0)));
    assert_eq!(bufferize_to_store(&mut graph, first, &mut ctx), Some(a), "it is stored once");
}

#[test]
fn accepted() {
    for row in 0..4 {
        let mut graph = Graph::new();
        let (a, b) = (global(&mut graph, 0), global(&mut graph, 1));
        let zero = graph.index_const(0);
        let guard = graph.constant(ConstValue::Bool(true), DType::Bool);
        let (at_a, at_b) = (index(&mut graph, a, &[zero]), index(&mut graph, b, &[zero]));
        let (root, expected) = match row {
            0 => {
                let read = load(&mut graph, at_b);
                (store(&mut graph, at_a, read), 2)
            }
            1 => {
                let read = load(&mut graph, at_a);
                (store(&mut graph, at_a, read), 1)
            }
            2 => {
                let alt = float(&mut graph, 0.0);
                let read = graph.ternary(Op::Load, DType::Float32, at_b, alt, guard);
                (graph.ternary(Op::Store, DType::Void, at_a, read, guard), 2)
            }
            _ => {
                let marker = graph.constant(ConstValue::Invalid, DType::Index);
                let choice = Op::Ternary(TernaryOp::Where);
                let place = graph.ternary(choice, DType::Index, guard, zero, marker);
                let address = index(&mut graph, b, &[place]);
                let read = load(&mut graph, address);
                (store(&mut graph, at_a, read), 2)
            }
        };
        let found = find_bufs(&graph, root).expect("each storage is indexed in one way");
        assert_eq!(found.len(), expected, "row {row}");
    }
}

#[test]
fn distinct_index_sources_for_one_buffer_are_reported() {
    let mut graph = Graph::new();
    let storage = global(&mut graph, 0);
    let zero = graph.index_const(0);
    let direct = index(&mut graph, storage, &[zero]);
    let chosen = graph.unary(Op::MSelect(0), DType::Float32, storage);
    let selected = index(&mut graph, chosen, &[zero]);
    let read = load(&mut graph, direct);
    let root = store(&mut graph, selected, read);
    let error = find_bufs(&graph, root).expect_err("one storage is indexed in two ways");
    assert_eq!(error.buffer, storage);
    assert_eq!(find_storage(&graph, chosen), storage);
}

/// A sum over `count` storages.
fn chain_over(graph: &mut Graph, count: usize, at: usize, storage: fn(&mut Graph, usize) -> usize) -> usize {
    let first = storage(graph, 0);
    let mut acc = index(graph, first, &[at]);
    for slot in 1..count {
        let next = storage(graph, slot);
        let read = index(graph, next, &[at]);
        acc = graph.alu(BinaryOp::Add, acc, read);
    }
    acc
}

fn local(graph: &mut Graph, slot: usize) -> usize {
    graph.leaf(Op::Buffer { slot, space: AddrSpace::Local, size: 40 }, DType::Float32)
}

#[test]
fn a_storage_input_costs_an_argument_slot() {
    for storage in [global, param] {
        for (inputs, materializes) in [(30, false), (31, true), (35, true)] {
            let mut graph = Graph::new();
            let mut ctx = IndexingContext::new();
            let at = ctx.new_range(&mut graph, 10, AxisType::Loop);
            let root = chain_over(&mut graph, inputs, at, storage);
            assert_eq!(count_arguments(&graph, root), inputs);
            let result = limit_buffers(&mut graph, &mut ctx, root, 31);
            assert_eq!(count_stages(&graph, result) > 0, materializes, "{inputs} inputs");
            if !materializes {
                assert_eq!(result, root);
            }
        }
    }
}

#[test]
fn a_ternary_operand_tree_is_materialized_too() {
    let mut graph = Graph::new();
    let mut ctx = IndexingContext::new();
    let at = ctx.new_range(&mut graph, 10, AxisType::Loop);
    let reads: Vec<usize> = (0..13)
        .map(|slot| {
            let storage = global(&mut graph, slot);
            index(&mut graph, storage, &[at])
        })
        .collect();
    let less = |graph: &mut Graph, a: usize, b: usize| {
        graph.binary(Op::Binary(BinaryOp::Lt), DType::Bool, a, b)
    };
    let mut condition = less(&mut graph, reads[1], reads[0]);
    for slot in (2..10).step_by(2) {
        let next = less(&mut graph, reads[slot + 1], reads[slot]);
        condition = graph.binary(Op::Binary(BinaryOp::And), DType::Bool, condition, next);
    }
    let other = graph.alu(BinaryOp::Add, reads[11], reads[12]);
    let choice = Op::Ternary(TernaryOp::Where);
    let root = graph.ternary(choice, DType::Float32, condition, reads[10], other);
    let result = limit_buffers(&mut graph, &mut ctx, root, 10);
    assert_eq!(count_stages(&graph, result), 2);
    assert_eq!(graph.op(result), choice);
}

#[test]
fn an_existing_stage_is_not_materialized_again() {
    let mut graph = Graph::new();
    let mut ctx = IndexingContext::new();
    let at = ctx.new_range(&mut graph, 10, AxisType::Loop);
    let storage = global(&mut graph, 0);
    let read = index(&mut graph, storage, &[at]);
    let staged = stage(&mut graph, read, &[at]);
    let root = index(&mut graph, staged, &[at]);
    assert_eq!(limit_buffers(&mut graph, &mut ctx, root, 31), root);
}

#[test]
fn a_collapsed_range_still_consumes_its_axis_id() {
    let mut graph = Graph::new();
    let mut ctx = IndexingContext::new();
    let visible = ctx.new_range(&mut graph, 10, AxisType::Weak);
    let one = graph.index_const(1);
    ctx.new_range_from(&mut graph, one, AxisType::Weak);
    let root = chain_over(&mut graph, 3, visible, global);
    let result = limit_buffers(&mut graph, &mut ctx, root, 3);
    let staged = *graph
        .toposort(result)
        .iter()
        .find(|id| matches!(graph.op(**id), Op::Stage { .. }))
        .expect("an operand is staged");
    let loops = sources(&graph, staged)[1..].to_vec();
    assert_eq!(loops.len(), 1);
    let op = Op::Range { axis: AxisId::Unrenumbered(2), kind: AxisType::Weak };
    assert_eq!(graph.op(loops[0]), op);
    assert_eq!(ctx.range_counter(), 3);
}

#[test]
fn a_device_range_is_carried_through_without_renumbering() {
    let mut graph = Graph::new();
    let mut ctx = IndexingContext::new();
    let weak = ctx.new_range(&mut graph, 10, AxisType::Weak);
    let one = graph.index_const(1);
    ctx.new_range_from(&mut graph, one, AxisType::Weak);
    let launched = graph.range(10, AxisType::Device, 7);
    let reads: Vec<usize> = [weak, launched, weak]
        .into_iter()
        .enumerate()
        .map(|(slot, at)| {
            let storage = global(&mut graph, slot);
            index(&mut graph, storage, &[at])
        })
        .collect();
    let mixed = graph.alu(BinaryOp::Add, reads[0], reads[1]);
    let root = graph.alu(BinaryOp::Add, mixed, reads[2]);
    let result = limit_buffers(&mut graph, &mut ctx, root, 3);
    let staged = *graph
        .toposort(result)
        .iter()
        .find(|id| matches!(graph.op(**id), Op::Stage { .. }))
        .expect("an operand is staged");
    let loops = sources(&graph, staged)[1..].to_vec();
    assert!(loops.contains(&launched));
    let op = Op::Range { axis: AxisId::Unrenumbered(2), kind: AxisType::Weak };
    assert!(loops.iter().any(|id| graph.op(*id) == op));
    assert_eq!(ctx.range_counter(), 3);
}

#[test]
fn local_storage_does_not_consume_an_argument_slot() {
    let mut graph = Graph::new();
    let mut ctx = IndexingContext::new();
    let at = ctx.new_range(&mut graph, 10, AxisType::Loop);
    let root = chain_over(&mut graph, 40, at, local);
    assert_eq!(count_arguments(&graph, root), 0);
    assert_eq!(limit_buffers(&mut graph, &mut ctx, root, 31), root);
}

#[test]
fn an_after_costs_one_argument_not_its_producer_cone() {
    let mut graph = Graph::new();
    let mut ctx = IndexingContext::new();
    let at = ctx.new_range(&mut graph, 10, AxisType::Loop);
    let deps: Vec<usize> = (2..42)
        .map(|slot| {
            let storage = global(&mut graph, slot);
            index(&mut graph, storage, &[at])
        })
        .collect();
    let (first, second) = (global(&mut graph, 0), global(&mut graph, 1));
    let after = graph.after(first, &deps);
    let ordered = index(&mut graph, after, &[at]);
    let other = index(&mut graph, second, &[at]);
    let sum = graph.alu(BinaryOp::Add, ordered, other);
    let root = graph.alu(BinaryOp::Add, sum, ordered);
    assert_eq!(count_arguments(&graph, root), 2);
    assert_eq!(limit_buffers(&mut graph, &mut ctx, root, 31), root);
}

#[test]
fn a_cast_operand_is_materialized() {
    let mut graph = Graph::new();
    let mut ctx = IndexingContext::new();
    let at = ctx.new_range(&mut graph, 10, AxisType::Loop);
    let chain = chain_over(&mut graph, 30, at, global);
    let wide = graph.cast(chain, DType::Float64);
    let last = global(&mut graph, 30);
    let read = index(&mut graph, last, &[at]);
    let other = graph.cast(read, DType::Float64);
    let root = graph.alu(BinaryOp::Add, wide, other);
    let result = limit_buffers(&mut graph, &mut ctx, root, 31);
    assert!(count_stages(&graph, result) > 0);
}

#[test]
fn a_closed_reduce_range_is_not_an_axis_of_the_new_stage() {
    let mut graph = Graph::new();
    let mut ctx = IndexingContext::new();
    let outer = ctx.new_range(&mut graph, 10, AxisType::Loop);
    let inner = ctx.new_range(&mut graph, 4, AxisType::Reduce);
    let chain = chain_over(&mut graph, 30, inner, global);
    let reduced = graph.reduce(chain, &[inner], ReduceOp::Add);
    let reads: Vec<usize> = (30..32)
        .map(|slot| {
            let storage = global(&mut graph, slot);
            index(&mut graph, storage, &[outer])
        })
        .collect();
    let over = graph.alu(BinaryOp::Add, reduced, reads[0]);
    let root = graph.alu(BinaryOp::Add, over, reads[1]);
    let result = limit_buffers(&mut graph, &mut ctx, root, 31);
    let walk = graph.toposort(result);
    let staged =
        *walk.iter().find(|id| matches!(graph.op(**id), Op::Stage { .. })).expect("an operand is staged");
    let loops = sources(&graph, staged)[1..].to_vec();
    assert_eq!(loops.len(), 1);
    assert!(!loops.contains(&inner));
    assert!(walk.contains(&inner), "the reduction keeps the loop that it closes");
}

/// An address that is read below a bound.
fn gated_index(graph: &mut Graph, range: usize, bound: i64) -> usize {
    let bound = graph.index_const(bound);
    let below = graph.binary(Op::Binary(BinaryOp::Lt), DType::Bool, range, bound);
    let place = valid(graph, range, below);
    let storage = global(graph, 0);
    index(graph, storage, &[place])
}

fn valid(graph: &mut Graph, at: usize, guard: usize) -> usize {
    let marker = graph.constant(ConstValue::Invalid, DType::Index);
    let dtype = graph.dtype(at);
    graph.ternary(Op::Ternary(TernaryOp::Where), dtype, guard, at, marker)
}

fn narrowed_end(graph: &Graph, root: usize, number: usize) -> (i64, AxisType) {
    for id in graph.toposort(root) {
        if let Op::Range { axis: AxisId::Renumbered(n), kind } = graph.op(id) {
            if n == number {
                match graph.op(graph.source(id, 0)) {
                    Op::Const(ConstValue::Int(extent)) => return (extent, kind),
                    other => panic!("expected a constant extent, got {other:?}"),
                }
            }
        }
    }
    panic!("the loop must stay");
}

#[test]
fn a_bounded_access_narrows_its_range() {
    for (number, bound, expected) in [(0, 7, 7), (1, 5, 5), (3, 6, 16)] {
        let mut graph = Graph::new();
        let kind = if number == 3 { AxisType::Reduce } else { AxisType::Loop };
        let range = graph.range(16, kind, number);
        let address = gated_index(&mut graph, range, bound);
        let read = load(&mut graph, address);
        let value = if number == 3 { graph.reduce(read, &[range], ReduceOp::Add) } else { read };
        let sink = graph.sink(&[value]);
        let result = simplify_ranges(&mut graph, sink);
        assert_eq!(narrowed_end(&graph, result, number).0, expected);
    }
}

#[test]
fn conflicting_gates_choose_the_largest_bound() {
    let mut graph = Graph::new();
    let range = graph.range(16, AxisType::Loop, 2);
    let reads = [4, 9].map(|bound| {
        let address = gated_index(&mut graph, range, bound);
        load(&mut graph, address)
    });
    let sink = graph.sink(&reads);
    let result = simplify_ranges(&mut graph, sink);
    assert_eq!(narrowed_end(&graph, result, 2).0, 9);

    let storage = global(&mut graph, 0);
    let ungated = graph.range(16, AxisType::Loop, 4);
    let indirect = graph.range(16, AxisType::Loop, 5);
    let (one, eight) = (graph.index_const(1), graph.index_const(8));
    let next = graph.alu(BinaryOp::Add, indirect, one);
    let guard = graph.binary(Op::Binary(BinaryOp::Lt), DType::Bool, next, eight);
    let place = valid(&mut graph, indirect, guard);
    let reads = [index(&mut graph, storage, &[ungated]), index(&mut graph, storage, &[place])]
        .map(|address| load(&mut graph, address));
    let sink = graph.sink(&reads);
    let result = simplify_ranges(&mut graph, sink);
    assert_eq!(narrowed_end(&graph, result, 4).0, 16);
    assert_eq!(narrowed_end(&graph, result, 5).0, 16);
}

#[test]
fn narrowing_respects_ungated_uses() {
    let mut graph = Graph::new();
    let (r, q) = (graph.range(16, AxisType::Loop, 6), graph.range(16, AxisType::Loop, 7));
    let narrow = gated_index(&mut graph, r, 4);
    let two = graph.index_const(2);
    let below = graph.binary(Op::Binary(BinaryOp::Lt), DType::Bool, q, two);
    let place = valid(&mut graph, q, below);
    let matrix = global(&mut graph, 1);
    let wide = index(&mut graph, matrix, &[place, r]);
    let reads = [narrow, wide].map(|address| load(&mut graph, address));
    let sink = graph.sink(&reads);
    let result = simplify_ranges(&mut graph, sink);
    assert_eq!(narrowed_end(&graph, result, 6).0, 16);
    assert_eq!(narrowed_end(&graph, result, 7).0, 2);
}

#[test]
fn a_narrowed_range_stays_a_range_of_its_axis_type() {
    for (number, bound, kind) in [(8, 7, AxisType::Loop), (9, 5, AxisType::Reduce)] {
        let mut graph = Graph::new();
        let range = graph.range(16, kind, number);
        let address = gated_index(&mut graph, range, bound);
        let read = load(&mut graph, address);
        let sink = graph.sink(&[read]);
        let result = simplify_ranges(&mut graph, sink);
        assert_eq!(narrowed_end(&graph, result, number), (bound, kind));
    }
}

#[test]
fn adjacent_const_ranges_merge_into_one() {
    let mut graph = Graph::new();
    let (a, b) = (graph.range(10, AxisType::Loop, 20), graph.range(20, AxisType::Loop, 21));
    let one = float(&mut graph, 1.0);
    let end = graph.end(one, &[a, b]);
    let merged = merge_adjacent(&mut graph, end).expect("two loops run as one");
    let loops = sources(&graph, merged)[1..].to_vec();
    assert_eq!(loops.len(), 1);
    let extent = graph.source(loops[0], 0);
    assert_eq!(graph.op(extent), Op::Const(ConstValue::Int(200)));
}

#[test]
fn symbolic_and_empty_range_ends_block_the_merge() {
    let mut graph = Graph::new();
    let n = graph.leaf(Op::Variable { name: 0, low: 1, high: 8 }, DType::Index);
    let op = Op::Range { axis: AxisId::Renumbered(22), kind: AxisType::Loop };
    let symbolic = graph.unary(op, DType::Index, n);
    let constant = graph.range(20, AxisType::Loop, 23);
    let empty = graph.range(0, AxisType::Loop, 24);
    let one = float(&mut graph, 1.0);
    let cases = [
        [symbolic, constant],
        [constant, symbolic],
        [symbolic, symbolic],
        [empty, constant],
        [constant, empty],
    ];
    for loops in cases {
        let end = graph.end(one, &loops);
        assert_eq!(merge_adjacent(&mut graph, end), None);
    }
}

#[test]
fn an_end_over_several_ranges_closes_them_from_the_inside() {
    let mut graph = Graph::new();
    let (outer, inner) = (graph.range(4, AxisType::Loop, 0), graph.range(8, AxisType::Loop, 1));
    let value = float(&mut graph, 1.0);
    let end = graph.end(value, &[inner, outer]);
    let split = split_ends(&mut graph, end);
    assert_eq!(sources(&graph, split)[1..], [outer]);
    let within = graph.source(split, 0);
    assert_eq!(sources(&graph, within), [value, inner]);
    assert_eq!(split_ends(&mut graph, split), split);
    assert_eq!(split_ends(&mut graph, value), value);
}

#[test]
fn a_stage_read_at_its_own_ranges_folds_away() {
    let mut graph = Graph::new();
    let x = param(&mut graph, 1);
    let r = graph.global_range(10, 0);
    let staged = stage(&mut graph, x, &[r]);
    let read = index(&mut graph, staged, &[r]);
    assert_eq!(fold_buffer(&graph, read), Some(x));
}

#[test]
fn stages_that_are_not_noops_are_kept() {
    let mut graph = Graph::new();
    let x = param(&mut graph, 1);
    let (r, other) = (graph.global_range(10, 0), graph.global_range(10, 1));
    let staged = stage(&mut graph, x, &[r]);
    let read = index(&mut graph, staged, &[other]);
    assert_eq!(fold_buffer(&graph, read), None);
}

#[test]
fn the_noop_fold_applies_to_arbitrary_compute() {
    let mut graph = Graph::new();
    let x = graph.leaf(Op::Variable { name: 0, low: 0, high: 100 }, DType::Float32);
    let y = graph.leaf(Op::Variable { name: 1, low: 0, high: 100 }, DType::Float32);
    let compute = graph.alu(BinaryOp::Add, x, y);
    let r = graph.global_range(10, 0);
    let staged = stage(&mut graph, compute, &[r]);
    let read = index(&mut graph, staged, &[r]);
    assert_eq!(fold_buffer(&graph, read), Some(compute));
}

#[test]
fn constants_fold_out_of_every_wrapper() {
    let cases = [
        (DType::Int32, ConstValue::Int(42)),
        (DType::Bool, ConstValue::Bool(true)),
        (DType::Float32, ConstValue::Float(std::f64::consts::PI.to_bits())),
        (DType::Float32, ConstValue::Float(2.5f64.to_bits())),
    ];
    for (dtype, value) in cases {
        let mut graph = Graph::new();
        let c = graph.constant(value, dtype);
        let (r, s) = (graph.global_range(10, 0), graph.global_range(20, 1));
        let staged = stage(&mut graph, c, &[r]);
        let indexed = index(&mut graph, c, &[r, s]);
        let copied = graph.unary(Op::Copy, dtype, c);
        let read = index(&mut graph, staged, &[r]);
        for wrapped in [staged, indexed, copied, read] {
            assert_eq!(fold_buffer(&graph, wrapped), Some(c));
        }
    }
}

#[test]
fn an_mstack_of_constants_folds() {
    let mut graph = Graph::new();
    let c = graph.constant(ConstValue::Int(7), DType::Int32);
    let nothing = noop(&mut graph);
    let stacked = graph.node(Op::MStack, DType::Int32, &[c, nothing]);
    let r = graph.global_range(10, 0);
    let read = index(&mut graph, stacked, &[r]);
    assert_eq!(fold_buffer(&graph, read), Some(c));
}

#[test]
fn buffer_folding_leaves_unrelated_nodes_alone() {
    let mut graph = Graph::new();
    let c = float(&mut graph, 1.0);
    assert_eq!(fold_buffer(&graph, c), None);
}

/// A staged value read at its own loops.
fn read_back(graph: &mut Graph, compute: usize, at: usize) -> usize {
    let staged = stage(graph, compute, &[at]);
    index(graph, staged, &[at])
}

fn loop_range(graph: &mut Graph, extent: i64, number: usize) -> usize {
    graph.range(extent, AxisType::Loop, number)
}

#[test]
fn always_run_sources_are_kept() {
    for op in [Op::Contiguous, Op::Copy, Op::Noop] {
        let mut graph = Graph::new();
        let at = loop_range(&mut graph, 8, 0);
        let one = float(&mut graph, 1.0);
        let compute = if op == Op::Noop { noop(&mut graph) } else { graph.unary(op, DType::Float32, one) };
        let read = read_back(&mut graph, compute, at);
        assert_eq!(remove_bufferize(&mut graph, read), None, "{op:?}");
    }
}

#[test]
fn the_accessed_buffer_count_decides_inlining() {
    for (params, inlines) in [(3, true), (4, false)] {
        let mut graph = Graph::new();
        let at = loop_range(&mut graph, 8, 0);
        let compute = chain_over(&mut graph, params, at, param);
        let read = read_back(&mut graph, compute, at);
        assert_eq!(remove_bufferize(&mut graph, read).is_some(), inlines, "{params} storages");
    }
}

#[test]
fn four_accessed_buffers_are_over_the_cutoff() {
    let mut graph = Graph::new();
    let at = loop_range(&mut graph, 8, 0);
    let compute = chain_over(&mut graph, 4, at, param);
    let read = read_back(&mut graph, compute, at);
    assert_eq!(remove_bufferize(&mut graph, read), None);
}

#[test]
fn after_stops_the_accessed_buffer_walk() {
    let mut graph = Graph::new();
    let at = loop_range(&mut graph, 8, 0);
    let first = param(&mut graph, 0);
    let deps: Vec<usize> = (1..4)
        .map(|slot| {
            let storage = param(&mut graph, slot);
            index(&mut graph, storage, &[at])
        })
        .collect();
    let sum = graph.alu(BinaryOp::Add, deps[0], deps[1]);
    let sum = graph.alu(BinaryOp::Add, sum, deps[2]);
    let after = graph.after(first, &[sum]);
    let compute = index(&mut graph, after, &[at]);
    let read = read_back(&mut graph, compute, at);
    assert!(remove_bufferize(&mut graph, read).is_some());
}

#[test]
fn a_reduce_body_decides_inlining() {
    for reads_storage in [true, false] {
        let mut graph = Graph::new();
        let (outer, inner) = (loop_range(&mut graph, 8, 0), graph.range(4, AxisType::Reduce, 1));
        let body = if reads_storage {
            let storage = param(&mut graph, 0);
            let read = index(&mut graph, storage, &[inner]);
            let counter = graph.cast(outer, DType::Float32);
            graph.alu(BinaryOp::Add, read, counter)
        } else {
            float(&mut graph, 2.0)
        };
        let compute = graph.reduce(body, &[inner], ReduceOp::Add);
        let read = read_back(&mut graph, compute, outer);
        assert_eq!(remove_bufferize(&mut graph, read).is_some(), !reads_storage);
    }
}

#[test]
fn const_range_keys_are_skipped_during_substitution() {
    let mut graph = Graph::new();
    let (written, at) = (graph.global_range(8, 0), loop_range(&mut graph, 8, 1));
    let zero = graph.index_const(0);
    let staged = stage(&mut graph, written, &[zero, written]);
    let read = index(&mut graph, staged, &[zero, at]);
    assert_eq!(remove_bufferize(&mut graph, read), Some(at));
}

#[test]
fn an_invalid_index_value_is_not_substituted() {
    let mut graph = Graph::new();
    let (first, second) = (loop_range(&mut graph, 8, 0), loop_range(&mut graph, 8, 1));
    let at = loop_range(&mut graph, 8, 2);
    let marker = graph.constant(ConstValue::Invalid, DType::Index);
    let compute = graph.alu(BinaryOp::Add, first, second);
    let staged = stage(&mut graph, compute, &[first, second]);
    let read = index(&mut graph, staged, &[at, marker]);
    let inlined = remove_bufferize(&mut graph, read).expect("it is computed again");
    let walk = graph.toposort(inlined);
    assert!(walk.contains(&at) && walk.contains(&second));
    assert!(!walk.contains(&marker));
}

#[test]
fn the_noop_collapses_rewrite_to_a_noop() {
    let mut graph = Graph::new();
    let at = loop_range(&mut graph, 8, 0);
    let storage = param(&mut graph, 0);
    let address = index(&mut graph, storage, &[at]);
    let same = store(&mut graph, address, address);
    assert!(is_noop(&graph, same));
    let nothing = noop(&mut graph);
    let end = graph.end(nothing, &[at]);
    assert!(is_noop(&graph, end));
}

#[test]
fn a_store_to_a_different_index_survives() {
    let mut graph = Graph::new();
    let at = loop_range(&mut graph, 8, 0);
    let (a, b) = (param(&mut graph, 0), param(&mut graph, 1));
    let (to, from) = (index(&mut graph, a, &[at]), index(&mut graph, b, &[at]));
    let kept = store(&mut graph, to, from);
    assert!(!is_noop(&graph, kept));
}

#[test]
fn markers_are_replaced_by_their_source() {
    let mut graph = Graph::new();
    let x = float(&mut graph, 42.0);
    let detached = graph.unary(Op::Detach, DType::Float32, x);
    let ordered = graph.unary(Op::ContiguousBackward, DType::Float32, x);
    let twice = graph.unary(Op::Detach, DType::Float32, detached);
    assert_eq!(early_rewrite(&mut graph, detached), Some(x));
    assert_eq!(early_rewrite(&mut graph, ordered), Some(x));
    assert_eq!(early_rewrite(&mut graph, twice), Some(detached));
}

#[test]
fn early_rewrites_leaves_plain_compute_alone() {
    let mut graph = Graph::new();
    let a = float(&mut graph, 1.0);
    let sum = graph.alu(BinaryOp::Add, a, a);
    for untouched in [a, sum] {
        assert_eq!(early_rewrite(&mut graph, untouched), None);
    }
}

#[test]
fn widening_integer_cast_moves_onto_the_product_operands() {
    let cases = [
        (DType::Int8, DType::Int32, true),
        (DType::UInt8, DType::UInt32, true),
        (DType::Int8, DType::UInt16, false),
        (DType::Float16, DType::Float32, false),
        (DType::Int32, DType::Int8, false),
    ];
    for (stored, wide, rewrites) in cases {
        let mut graph = Graph::new();
        let storage = |slot| Op::Buffer { slot, space: AddrSpace::Global, size: 4 };
        let (a, b) = (graph.leaf(storage(0), stored), graph.leaf(storage(1), stored));
        let product = graph.alu(BinaryOp::Mul, a, b);
        let cast = graph.cast(product, wide);
        match early_rewrite(&mut graph, cast) {
            Some(out) => {
                assert!(rewrites);
                assert_eq!(graph.op(out), Op::Binary(BinaryOp::Mul));
                assert_eq!(graph.dtype(out), wide);
                for operand in sources(&graph, out) {
                    assert_eq!((graph.op(operand), graph.dtype(operand)), (Op::Cast, wide));
                }
            }
            None => assert!(!rewrites),
        }
    }
}

#[test]
fn widening_cast_leaves_constant_products_alone() {
    let mut graph = Graph::new();
    let x = graph.leaf(Op::Buffer { slot: 0, space: AddrSpace::Global, size: 4 }, DType::Int8);
    let three = graph.constant(ConstValue::Int(3), DType::Int8);
    let product = graph.alu(BinaryOp::Mul, x, three);
    let cast = graph.cast(product, DType::Int32);
    assert_eq!(early_rewrite(&mut graph, cast), None);
}

#[test]
fn adjacent_reshapes_merge() {
    let mut graph = Graph::new();
    let source = graph.leaf(Op::Buffer { slot: 0, space: AddrSpace::Global, size: 24 }, DType::Float32);
    let shape = |graph: &mut Graph, sizes: [i64; 2]| {
        let sizes = sizes.map(|size| graph.index_const(size));
        graph.node(Op::Stack, DType::Index, &sizes)
    };
    let (first, second) = (shape(&mut graph, [4, 6]), shape(&mut graph, [2, 12]));
    let once = graph.binary(Op::Reshape, DType::Float32, source, first);
    let twice = graph.binary(Op::Reshape, DType::Float32, once, second);
    let merged = early_rewrite(&mut graph, twice).expect("two views are one");
    assert_eq!(graph.op(merged), Op::Reshape);
    assert_eq!(sources(&graph, merged), [source, second]);
}

#[test]
fn unread_ranges_are_stripped_from_the_stage() {
    for extents in [vec![1], vec![10, 1], vec![10, 20], vec![3, 4, 5]] {
        let mut graph = Graph::new();
        let one = float(&mut graph, 1.0);
        let loops: Vec<usize> = extents
            .iter()
            .enumerate()
            .map(|(id, extent)| graph.range(*extent, AxisType::Loop, id))
            .collect();
        let staged = stage(&mut graph, one, &loops);
        assert_eq!(drop_dead_axes(&graph, staged), Some(vec![]));
    }
}

#[test]
fn a_read_range_stays_on_the_stage() {
    let mut graph = Graph::new();
    let (used, unused) = (loop_range(&mut graph, 4, 0), loop_range(&mut graph, 8, 1));
    let counter = graph.cast(used, DType::Float32);
    let staged = stage(&mut graph, counter, &[used, unused]);
    assert_eq!(drop_dead_axes(&graph, staged), Some(vec![used]));
    let whole = stage(&mut graph, counter, &[used]);
    assert_eq!(drop_dead_axes(&graph, whole), None);
}

#[test]
fn always_run_sources_keep_their_dead_axes() {
    for op in [Op::Copy, Op::Contiguous, Op::Noop, Op::After] {
        let mut graph = Graph::new();
        let one = float(&mut graph, 1.0);
        let nothing = noop(&mut graph);
        let compute = match op {
            Op::Noop => nothing,
            Op::After => graph.after(one, &[nothing]),
            _ => graph.unary(op, DType::Float32, one),
        };
        let at = loop_range(&mut graph, 1, 0);
        let staged = stage(&mut graph, compute, &[at]);
        assert_eq!(drop_dead_axes(&graph, staged), None, "{op:?}");
    }
}

#[test]
fn a_symbolic_end_is_not_a_dead_axis() {
    let mut graph = Graph::new();
    let n = graph.leaf(Op::Variable { name: 0, low: 0, high: 1024 }, DType::Index);
    let op = Op::Range { axis: AxisId::Renumbered(0), kind: AxisType::Loop };
    let symbolic = graph.unary(op, DType::Index, n);
    let one = float(&mut graph, 1.0);
    let staged = stage(&mut graph, one, &[symbolic]);
    assert_eq!(drop_dead_axes(&graph, staged), None);
    let fixed = loop_range(&mut graph, 1, 1);
    assert!(is_dead_axis(&graph, fixed) && !is_dead_axis(&graph, symbolic));
}

#[test]
fn a_multi_range_noop_stage_is_removed_but_reindexed() {
    let mut graph = Graph::new();
    let x = param(&mut graph, 1);
    let ranges = [graph.global_range(10, 0), graph.global_range(20, 1)];
    let staged = stage(&mut graph, x, &ranges);
    let read = index(&mut graph, staged, &ranges);
    assert_eq!(fold_buffer(&graph, read), None);
    let result = relinearize(&mut graph, read).expect("it is read where it was written");
    let walk = graph.toposort(result);
    assert!(!walk.iter().any(|id| matches!(graph.op(*id), Op::Stage { .. })));
    assert!(walk.contains(&x));
    assert_eq!(graph.op(result), Op::Index);
    let offset = graph.source(result, 1);
    assert_eq!(graph.op(offset), Op::Binary(BinaryOp::Add));
    assert_eq!(graph.source(offset, 1), ranges[1]);
    let rows = graph.source(offset, 0);
    assert_eq!(graph.op(rows), Op::Binary(BinaryOp::Mul));
    assert_eq!(graph.source(rows, 0), ranges[0]);
    assert_eq!(graph.op(graph.source(rows, 1)), Op::Const(ConstValue::Int(20)));
    let turned = index(&mut graph, staged, &[ranges[1], ranges[0]]);
    assert_eq!(relinearize(&mut graph, turned), None);
}

#[test]
fn stage_identity_decides_buffer_reuse() {
    let mut graph = Graph::new();
    let mut ctx = RangeifyBufferContext::new();
    let r = graph.global_range(5, 0);
    let [first, second] = [42, 43].map(|value| {
        let value = graph.constant(ConstValue::Int(value), DType::Int32);
        stage(&mut graph, value, &[r])
    });
    let first_lowering = bufferize_to_store(&mut graph, first, &mut ctx).expect("first lowers");
    let after_repeat = bufferize_to_store(&mut graph, first, &mut ctx).expect("first re-lowers");
    let storage = find_storage(&graph, graph.source(first_lowering, 0));
    assert_eq!(storage, find_storage(&graph, graph.source(after_repeat, 0)));
    assert_eq!(ctx.lunique_counter, 1, "a repeated STAGE must not allocate a second slot");
    let other = bufferize_to_store(&mut graph, second, &mut ctx).expect("second lowers");
    assert_ne!(find_storage(&graph, graph.source(other, 0)), storage);
    assert_eq!(ctx.lunique_counter, 2, "the distinct STAGE allocates its own slot");
}

#[test]
fn a_local_stage_is_not_bufferized_here() {
    let mut graph = Graph::new();
    let mut ctx = RangeifyBufferContext::new();
    let one = float(&mut graph, 1.0);
    let range = graph.global_range(4, 0);
    let staged = graph.led(
        Op::Stage { space: AddrSpace::Local, removable: true },
        DType::Float32,
        one,
        &[range],
    );
    assert_eq!(bufferize_to_store(&mut graph, staged, &mut ctx), None);
    assert_eq!(ctx.lunique_counter, 0);
}

#[test]
fn a_non_removable_stage_is_kept() {
    let mut graph = Graph::new();
    let address = graph.range(8, AxisType::Loop, 0);
    let (one, two) = (float(&mut graph, 1.0), float(&mut graph, 2.0));
    let compute = graph.alu(BinaryOp::Add, one, two);
    for removable in [false, true] {
        let staged = graph.led(
            Op::Stage { space: AddrSpace::Local, removable },
            DType::Float32,
            compute,
            &[address],
        );
        let read = index(&mut graph, staged, &[address]);
        assert_eq!(remove_bufferize(&mut graph, read).is_some(), removable);
    }
}

#[test]
fn test_scheduler_bufs_lists_index_operations() {
    let mut graph = Graph::new();
    let storage =
        graph.leaf(Op::Buffer { slot: 0, space: AddrSpace::Global, size: 16 }, DType::Float32);
    let range = graph.global_range(16, 0);
    let access = index(&mut graph, storage, &[range]);
    let value = load(&mut graph, access);
    let kernel = graph.sink(&[value]);
    assert_eq!(find_bufs(&graph, kernel).expect("one route"), vec![access]);
}

#[test]
fn dead_axis_by_extent() {
    for (extent, dead) in [(0, true), (1, true), (2, false), (10, false)] {
        let mut graph = Graph::new();
        let range = graph.range(extent, AxisType::Loop, 0);
        assert_eq!(is_dead_axis(&graph, range), dead, "{extent}");
    }
}

#[test]
#[should_panic(expected = "cycle detected while indexing")]
fn distinct_index_sources_for_one_buffer_are_a_cycle() {
    let mut graph = Graph::new();
    let storage = global(&mut graph, 0);
    let zero = graph.index_const(0);
    let direct = index(&mut graph, storage, &[zero]);
    let chosen = graph.unary(Op::MSelect(0), DType::Float32, storage);
    let selected = index(&mut graph, chosen, &[zero]);
    let value = load(&mut graph, direct);
    let root = store(&mut graph, selected, value);
    find_bufs(&graph, root).expect("cycle detected while indexing");
}
