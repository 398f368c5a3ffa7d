//! Storage that a kernel has of its own, and the loops that fill it.

use svod_schedule::bufferize::find_storage;
use svod_schedule::ends::split_ends;
use svod_schedule::graph::{AddrSpace, AxisId, AxisType, ConstValue, DType, Graph, Op};
use svod_schedule::helpers::regs;
use svod_schedule::local::{add_local_buffer, LocalBufferContext};
use svod_schedule::merge::merge_register_read_ends;
use svod_schedule::shape::find_dims;

fn sources(graph: &Graph, id: usize) -> Vec<usize> {
    (0..graph.source_count(id)).map(|at| graph.source(id, at)).collect()
}

fn float(graph: &mut Graph, value: f64) -> usize {
    graph.constant(ConstValue::Float(value.to_bits()), DType::Float32)
}

fn stage(graph: &mut Graph, value: usize, loops: &[usize]) -> usize {
    let dtype = graph.dtype(value);
    graph.led(Op::Stage { space: AddrSpace::Local, removable: true }, dtype, value, loops)
}

fn noop(graph: &mut Graph) -> usize {
    graph.leaf(Op::Noop, DType::Void)
}

fn buffer_slot(graph: &Graph, lowered: usize) -> usize {
    match graph.op(find_storage(graph, lowered)) {
        Op::Buffer { slot, .. } => slot,
        other => panic!("expected storage, got {other:?}"),
    }
}

fn slots(axes: Vec<Option<AxisId>>) -> Vec<usize> {
    let mut graph = Graph::new();
    let mut ctx = LocalBufferContext::new();
    let mut found = Vec::new();
    for (at, axis) in axes.iter().enumerate() {
        let value = float(&mut graph, at as f64);
        let staged = stage(&mut graph, value, &[]);
        let lowered =
            add_local_buffer(&mut graph, staged, axis, &mut ctx).expect("lower");
        found.push(buffer_slot(&graph, lowered));
    }
    found
}

#[test]
fn add_local_buffer_matches_stage_mapping_and_numbering() {
    let mut graph = Graph::new();
    let r0 = graph.global_range(2, 0);
    let r1 = graph.global_range(3, 1);
    let compute = float(&mut graph, 7.0);
    let staged = stage(&mut graph, compute, &[r0, r1]);
    let mut ctx = LocalBufferContext::new();
    let lowered = add_local_buffer(&mut graph, staged, &None, &mut ctx)
        .expect("a local STAGE lowers");
    assert_eq!(graph.dtype(lowered), DType::Float32);
    assert_eq!(graph.op(lowered), Op::After);
    let passthrough = graph.source(lowered, 0);
    assert_eq!(find_dims(&graph, passthrough), Some(vec![2, 3]));
    let storage = find_storage(&graph, passthrough);
    assert_eq!(graph.op(storage), Op::Buffer { slot: 0, space: AddrSpace::Local, size: 6 });
    assert_eq!(graph.dtype(storage), DType::Float32);
    assert_eq!(graph.source_count(lowered), 2, "the AFTER carries one END dependency");
    let end = graph.source(lowered, 1);
    assert_eq!(graph.op(end), Op::End);
    assert_eq!(sources(&graph, end)[1..], [r0, r1]);
    let stored = graph.source(end, 0);
    assert_eq!(graph.op(stored), Op::Store);
    assert_eq!(graph.source_count(stored), 2, "no guard");
    assert_eq!(graph.source(stored, 1), compute);
    let address = graph.source(stored, 0);
    assert_eq!(sources(&graph, address), [passthrough, r0, r1]);

    let other = float(&mut graph, 8.0);
    let axisless = stage(&mut graph, other, &[]);
    let second = add_local_buffer(&mut graph, axisless, &None, &mut ctx)
        .expect("a second STAGE");
    assert_eq!(buffer_slot(&graph, second), 1, "an axisless STAGE takes the next fallback slot");
}

#[test]
fn grouped_local_axis_drives_slot_without_colliding_with_nested_axes() {
    let scalar = AxisId::Renumbered(7);
    let nested = scalar.child(0);
    let found = slots(vec![Some(scalar), nested]);
    assert_eq!(found[0], 7, "a scalar axis keeps its numeric slot");
    assert_ne!(found[1], found[0], "a nested axis must not collide with its scalar parent");
    assert!(found[1] >= 1 << (usize::BITS - 1), "nested slots live in the reserved high namespace");
}

#[test]
fn grouped_local_slots_repeat_across_kernel_rewrites() {
    let lower = || vec![Some(AxisId::Renumbered(3)), AxisId::Renumbered(3).child(1)];
    let found = slots(lower());
    assert_eq!(found, slots(lower()), "slot assignment is deterministic across rewrites");
    assert_eq!(found[0], 3, "the scalar axis keeps its numeric slot");
    assert!(found[1] >= 1 << (usize::BITS - 1), "the nested axis uses the high namespace");
}

#[test]
fn allocate_wraps_on_a_slot_collision() {
    let found = slots(vec![Some(AxisId::Renumbered(3)), Some(AxisId::Renumbered(3))]);
    assert_eq!(found, [3, 4], "a colliding slot wraps to the next free one");
    let last = slots(vec![Some(AxisId::Renumbered(usize::MAX)), Some(AxisId::Renumbered(usize::MAX))]);
    assert_eq!(last, [usize::MAX, 0], "the first slot comes behind the last one");
}

#[test]
fn a_slot_is_given_out_once() {
    let mut ctx = LocalBufferContext::new();
    let mut given = Vec::new();
    for at in 0..6usize {
        given.push(ctx.allocate(&Some(AxisId::Renumbered(at % 2))));
        given.push(ctx.allocate(&None));
    }
    let mut sorted = given.clone();
    sorted.sort();
    sorted.dedup();
    assert_eq!(sorted.len(), given.len());
    assert_eq!(ctx.used, given);
}

#[test]
fn add_local_buffer_ignores_non_stage_roots() {
    let mut graph = Graph::new();
    let mut ctx = LocalBufferContext::new();
    let one = float(&mut graph, 1.0);
    assert_eq!(add_local_buffer(&mut graph, one, &None, &mut ctx), None);
    assert!(ctx.used.is_empty());
}

#[test]
fn add_local_buffer_honours_the_stage_addrspace() {
    let mut graph = Graph::new();
    let mut ctx = LocalBufferContext::new();
    let one = float(&mut graph, 1.0);
    let staged = graph.led(
        Op::Stage { space: AddrSpace::Global, removable: true },
        DType::Float32,
        one,
        &[],
    );
    let lowered = add_local_buffer(&mut graph, staged, &None, &mut ctx)
        .expect("a global STAGE still lowers");
    let storage = find_storage(&graph, graph.source(lowered, 0));
    assert_eq!(
        graph.op(storage),
        Op::Param { slot: 0, addrspace: Some(AddrSpace::Global) },
        "a global STAGE lowers to a PARAM"
    );
}

#[test]
fn a_stage_of_unknown_size_takes_no_slot() {
    let mut graph = Graph::new();
    let mut ctx = LocalBufferContext::new();
    let one = float(&mut graph, 1.0);
    let unknown = graph.leaf(Op::Param { slot: 0, addrspace: None }, DType::Float32);
    let staged = stage(&mut graph, one, &[unknown]);
    assert_eq!(add_local_buffer(&mut graph, staged, &None, &mut ctx), None);
    assert!(ctx.used.is_empty());
    assert_eq!(ctx.next, 0);
}

fn register_end(graph: &mut Graph, slot: usize, value: i64, range: usize) -> (usize, usize) {
    let register = graph.leaf(Op::Buffer { slot, space: AddrSpace::Reg, size: 1 }, DType::Int32);
    let zero = graph.index_const(0);
    let address = graph.binary(Op::Index, DType::Int32, register, zero);
    let number = graph.constant(ConstValue::Int(value), DType::Int32);
    let stored = graph.binary(Op::Store, DType::Void, address, number);
    let ended = graph.end(stored, &[range]);
    let behind = graph.after(register, &[ended]);
    let read = graph.binary(Op::Index, DType::Int32, behind, zero);
    (graph.unary(Op::Load, DType::Int32, read), ended)
}

fn ends_over(graph: &Graph, root: usize, range: usize) -> Vec<usize> {
    graph
        .toposort(root)
        .into_iter()
        .filter(|&id| graph.op(id) == Op::End && sources(graph, id)[1..] == [range])
        .collect()
}

#[test]
fn register_reads_merge_only_their_shared_range_ends() {
    let mut graph = Graph::new();
    let range = graph.range(4, AxisType::Loop, 0);
    let (left, left_end) = register_end(&mut graph, 0, 1, range);
    let (right, right_end) = register_end(&mut graph, 1, 2, range);
    let storage =
        graph.leaf(Op::Buffer { slot: 2, space: AddrSpace::Global, size: 1 }, DType::Int32);
    let zero = graph.index_const(0);
    let address = graph.binary(Op::Index, DType::Int32, storage, zero);
    let three = graph.constant(ConstValue::Int(3), DType::Int32);
    let stored = graph.binary(Op::Store, DType::Void, address, three);
    let unrelated = graph.end(stored, &[range]);
    let root = graph.sink(&[left, right, unrelated]);

    let result = merge_register_read_ends(&mut graph, root);
    let matching = ends_over(&graph, result, range);
    assert_eq!(matching.len(), 2);
    assert!(matching.contains(&unrelated));
    assert!(matching.iter().any(|&end| {
        let computed = graph.source(end, 0);
        graph.op(computed) == Op::Group && graph.source_count(computed) == 2
    }));
    let walk = graph.toposort(result);
    assert!(!walk.contains(&left_end) && !walk.contains(&right_end));
}

#[test]
fn register_loops_that_differ_stay_apart() {
    let mut graph = Graph::new();
    let first = graph.range(4, AxisType::Loop, 0);
    let second = graph.range(4, AxisType::Loop, 1);
    let (left, _) = register_end(&mut graph, 0, 1, first);
    let (right, _) = register_end(&mut graph, 1, 2, second);
    let root = graph.sink(&[left, right]);
    assert_eq!(merge_register_read_ends(&mut graph, root), root);
}

#[test]
fn test_pm_split_ends_reattaches_bool_and_void_backedges_outermost() {
    let mut graph = Graph::new();
    let computation = float(&mut graph, 1.0);
    let outer_range = graph.range(4, AxisType::Loop, 0);
    let inner_range = graph.range(8, AxisType::Loop, 1);
    let bool_backedge = graph.constant(ConstValue::Bool(true), DType::Bool);
    let void_backedge = noop(&mut graph);
    let original =
        graph.end(computation, &[bool_backedge, outer_range, void_backedge, inner_range]);
    let result = split_ends(&mut graph, original);
    assert_eq!(graph.op(result), Op::End);
    assert_eq!(sources(&graph, result)[1..], [bool_backedge, void_backedge]);
    let range_ends = graph.source(result, 0);
    assert_eq!(graph.op(range_ends), Op::End);
    assert_eq!(sources(&graph, range_ends)[1..], [outer_range]);
    let inner_end = graph.source(range_ends, 0);
    assert_eq!(graph.op(inner_end), Op::End);
    assert_eq!(sources(&graph, inner_end), [computation, inner_range]);
}

#[test]
fn test_pm_split_ends_sorts_nested_axis_ids_and_preserves_range_dependencies() {
    let mut graph = Graph::new();
    let computation = graph.constant(ConstValue::Float(3.0f64.to_bits()), DType::Float32);
    let dependency = graph.constant(ConstValue::Bool(true), DType::Bool);
    let parent = AxisId::Renumbered(2);
    let part = |at: usize| parent.child(at).expect("there is room");
    let mut range = |extent: i64, axis: AxisId, deps: &[usize]| {
        let end = graph.index_const(extent);
        graph.led(Op::Range { axis, kind: AxisType::Loop }, DType::WeakInt, end, deps)
    };
    let parent_range = range(2, parent, &[]);
    let child_zero = range(3, part(0), &[]);
    let child_one = range(5, part(1), &[dependency]);
    for loops in [[parent_range, child_zero, child_one], [child_one, parent_range, child_zero]] {
        let original = graph.end(computation, &loops);
        let result = split_ends(&mut graph, original);
        let mut cursor = result;
        for expected in [parent_range, child_zero, child_one] {
            assert_eq!(graph.op(cursor), Op::End);
            assert_eq!(graph.source_count(cursor), 2);
            assert_eq!(graph.source(cursor, 1), expected);
            cursor = graph.source(cursor, 0);
        }
        assert_eq!(cursor, computation);
        let inner = graph.end(computation, &[child_one]);
        let middle = graph.end(inner, &[child_zero]);
        assert_eq!(graph.end(middle, &[parent_range]), result);
    }
    assert_eq!(graph.source_count(child_one), 2);
    assert_eq!(graph.source(child_one, 1), dependency);
}

#[test]
fn test_pm_split_ends_empty_target_ranges_preserves_backedges_and_identity() {
    let mut graph = Graph::new();
    let computation = float(&mut graph, 2.0);
    let condition = graph.constant(ConstValue::Bool(false), DType::Bool);
    let nothing = noop(&mut graph);
    let original = graph.end(computation, &[condition, nothing]);
    assert_eq!(split_ends(&mut graph, original), original);
}

#[test]
fn registers_are_counted_once_each() {
    let mut graph = Graph::new();
    let range = graph.range(4, AxisType::Reduce, 0);
    let (_, first) = register_end(&mut graph, 0, 1, range);
    let (_, second) = register_end(&mut graph, 1, 2, range);
    let sink = graph.sink(&[first, second, first]);
    assert_eq!(regs(&graph, sink), 2);
    assert_eq!(regs(&graph, range), 0);
}
