//! Values that are split over several devices.

use svod_schedule::graph::{AddrSpace, AxisType, BinaryOp, ConstValue, DType, Graph, Op, ReduceOp};
use svod_schedule::indexing::IndexingContext;
use svod_schedule::multi::{
    reason_text, validate_no_unresolved_allreduce, validate_supported_subset, MultiError,
    Operation, Reason,
};
use svod_schedule::passes::{rewrite, Pass};
use svod_schedule::ranged::{reduce_over_ranges, walk_reduction};

fn sources(graph: &Graph, id: usize) -> Vec<usize> {
    (0..graph.source_count(id)).map(|at| graph.source(id, at)).collect()
}

fn storage(graph: &mut Graph, slot: usize, size: usize, dtype: DType) -> usize {
    graph.leaf(Op::Buffer { slot, space: AddrSpace::Global, size }, dtype)
}

fn buffer(graph: &mut Graph, slot: usize, size: usize) -> usize {
    storage(graph, slot, size, DType::Float32)
}

fn stack(graph: &mut Graph, sizes: &[i64]) -> usize {
    let sizes: Vec<usize> = sizes.iter().map(|size| graph.index_const(*size)).collect();
    graph.node(Op::Stack, DType::Index, &sizes)
}

/// Eight elements as two rows of four.
fn matrix(graph: &mut Graph, slot: usize) -> usize {
    let flat = buffer(graph, slot, 8);
    let shape = stack(graph, &[2, 4]);
    graph.binary(Op::Reshape, DType::Float32, flat, shape)
}

fn multi(graph: &mut Graph, value: usize, axis: usize) -> usize {
    let dtype = graph.dtype(value);
    graph.unary(Op::Multi(axis), dtype, value)
}

fn sharded(graph: &mut Graph, slot: usize, axis: usize) -> usize {
    let local = matrix(graph, slot);
    multi(graph, local, axis)
}

fn sum(graph: &mut Graph, a: usize, b: usize) -> usize {
    graph.binary(Op::Binary(BinaryOp::Add), DType::Float32, a, b)
}

fn axis_reduce(graph: &mut Graph, value: usize, with: ReduceOp, count: usize) -> usize {
    let dtype = graph.dtype(value);
    graph.unary(Op::AxisReduce { with, count }, dtype, value)
}

fn permute(graph: &mut Graph, value: usize, axes: &[i64]) -> usize {
    let axes: Vec<usize> = axes.iter().map(|axis| graph.index_const(*axis)).collect();
    let dtype = graph.dtype(value);
    graph.led(Op::Permute, dtype, value, &axes)
}

fn flip(graph: &mut Graph, value: usize, axes: &[bool]) -> usize {
    let axes: Vec<usize> =
        axes.iter().map(|flip| graph.constant(ConstValue::Bool(*flip), DType::Bool)).collect();
    graph.led(Op::Flip, DType::Float32, value, &axes)
}

fn mstack(graph: &mut Graph, parts: &[usize]) -> usize {
    let dtype = graph.dtype(parts[0]);
    graph.node(Op::MStack, dtype, parts)
}

/// A reduction along the axis of a split into two parts.
fn sharded_reduce(graph: &mut Graph, with: ReduceOp, dtypes: [DType; 2]) -> usize {
    let parts = [storage(graph, 0, 4, dtypes[0]), storage(graph, 1, 4, dtypes[1])];
    let stacked = mstack(graph, &parts);
    let split = multi(graph, stacked, 0);
    axis_reduce(graph, split, with, 1)
}

/// The part that each device computes, and the axis of the split.
fn per_shard(graph: &Graph, id: usize) -> (usize, usize) {
    match graph.op(id) {
        Op::Multi(axis) => (graph.source(id, 0), axis),
        other => panic!("expected a split value, got {other:?}"),
    }
}

#[test]
fn mselect_resolves_to_its_shard() {
    let mut graph = Graph::new();
    let (first, second) = (buffer(&mut graph, 0, 6), buffer(&mut graph, 1, 6));
    let stacked = mstack(&mut graph, &[first, second]);
    let chosen = graph.unary(Op::MSelect(1), DType::Float32, stacked);
    assert_eq!(rewrite(&mut graph, Pass::Multi, chosen), second);
    let shape = stack(&mut graph, &[2, 3]);
    let reshaped = graph.binary(Op::Reshape, DType::Float32, stacked, shape);
    let chosen = graph.unary(Op::MSelect(1), DType::Float32, reshaped);
    let result = rewrite(&mut graph, Pass::Multi, chosen);
    assert_eq!(graph.op(result), Op::Reshape);
    assert_eq!(sources(&graph, result), [second, shape]);
}

#[test]
fn same_axis_alu_runs_per_shard() {
    let mut graph = Graph::new();
    let (a, b) = (buffer(&mut graph, 0, 8), buffer(&mut graph, 1, 8));
    let (left, right) = (multi(&mut graph, a, 0), multi(&mut graph, b, 0));
    let root = sum(&mut graph, left, right);
    let result = rewrite(&mut graph, Pass::Multi, root);
    let (part, axis) = per_shard(&graph, result);
    assert_eq!(axis, 0);
    assert_eq!(graph.op(part), Op::Binary(BinaryOp::Add));
    assert_eq!(sources(&graph, part), [a, b]);
}

#[test]
fn a_scalar_operand_needs_no_layout_of_its_own() {
    let mut graph = Graph::new();
    let local = buffer(&mut graph, 0, 8);
    let scalar = graph.constant(ConstValue::Float(2.0f64.to_bits()), DType::Float32);
    let split = multi(&mut graph, local, 0);
    let root = sum(&mut graph, split, scalar);
    let result = rewrite(&mut graph, Pass::Multi, root);
    let (part, axis) = per_shard(&graph, result);
    assert_eq!(axis, 0);
    assert_eq!(sources(&graph, part), [local, scalar]);
    assert_eq!(validate_supported_subset(&graph, result), Ok(()));
}

#[test]
fn permute_remaps_the_shard_axis() {
    let mut graph = Graph::new();
    let flat = buffer(&mut graph, 0, 6);
    let shape = stack(&mut graph, &[2, 3]);
    let local = graph.binary(Op::Reshape, DType::Float32, flat, shape);
    let split = multi(&mut graph, local, 0);
    let root = permute(&mut graph, split, &[1, 0]);
    let result = rewrite(&mut graph, Pass::Multi, root);
    let (part, axis) = per_shard(&graph, result);
    assert_eq!(axis, 1);
    assert_eq!(part, permute(&mut graph, local, &[1, 0]));
}

#[test]
fn movement_across_a_non_shard_axis_runs_per_shard() {
    for flips in [true, false] {
        let mut graph = Graph::new();
        let split = sharded(&mut graph, 0, 0);
        let root = if flips {
            flip(&mut graph, split, &[false, true])
        } else {
            let before = stack(&mut graph, &[0, 0]);
            let behind = stack(&mut graph, &[0, 1]);
            graph.ternary(Op::Pad, DType::Float32, split, before, behind)
        };
        let result = rewrite(&mut graph, Pass::Multi, root);
        let (part, axis) = per_shard(&graph, result);
        assert_eq!(axis, 0);
        assert_eq!(graph.op(part), graph.op(root));
        assert_eq!(graph.source_count(part), graph.source_count(root));
        assert_eq!(validate_supported_subset(&graph, result), Ok(()));
    }
}

#[test]
fn dtype_and_contiguity_wrappers_pass_through_the_shard_layout() {
    let cases = [
        (Op::Cast, DType::Float16),
        (Op::BitCast, DType::Int32),
        (Op::Contiguous, DType::Float32),
        (Op::Detach, DType::Float32),
        (Op::ContiguousBackward, DType::Float32),
    ];
    for (op, dtype) in cases {
        let mut graph = Graph::new();
        let local = buffer(&mut graph, 0, 8);
        let split = multi(&mut graph, local, 0);
        let root = graph.unary(op, dtype, split);
        let result = rewrite(&mut graph, Pass::Multi, root);
        let (part, axis) = per_shard(&graph, result);
        assert_eq!(axis, 0);
        assert_eq!((graph.op(part), graph.dtype(part)), (op, dtype));
        assert_eq!(sources(&graph, part), [local]);
    }
}

#[test]
fn a_reduce_over_another_axis_keeps_the_shard_layout() {
    let mut graph = Graph::new();
    let local = matrix(&mut graph, 0);
    let split = multi(&mut graph, local, 1);
    let root = axis_reduce(&mut graph, split, ReduceOp::Add, 1);
    let result = rewrite(&mut graph, Pass::Multi, root);
    let (part, axis) = per_shard(&graph, result);
    assert_eq!(axis, 0);
    assert_eq!(graph.op(part), Op::AxisReduce { with: ReduceOp::Add, count: 1 });
    assert_eq!(sources(&graph, part), [local]);
    assert_eq!(validate_supported_subset(&graph, result), Ok(()));
}

#[test]
fn multi_pm_leaves_unsupported_forms_alone() {
    for row in 0..10 {
        let mut graph = Graph::new();
        let (a, b) = (buffer(&mut graph, 0, 8), buffer(&mut graph, 1, 8));
        let split = multi(&mut graph, a, 0);
        let node = match row {
            0 => {
                let other = multi(&mut graph, b, 1);
                sum(&mut graph, split, other)
            }
            1 => {
                let eight = graph.index_const(8);
                graph.binary(Op::Reshape, DType::Float32, split, eight)
            }
            2 => {
                let stacked = mstack(&mut graph, &[a, b]);
                graph.unary(Op::MSelect(2), DType::Float32, stacked)
            }
            3 => {
                let one = graph.constant(ConstValue::Int(1), DType::Int32);
                graph.unary(Op::MSelect(0), DType::Int32, one)
            }
            4 => sum(&mut graph, a, b),
            5 => axis_reduce(&mut graph, split, ReduceOp::Add, 0),
            6 => {
                let range = graph.range(4, AxisType::Reduce, 3);
                let op = Op::AxisReduce { with: ReduceOp::Add, count: 1 };
                graph.binary(op, DType::Float32, split, range)
            }
            7 => {
                let stacked = mstack(&mut graph, &[a]);
                let alone = multi(&mut graph, stacked, 0);
                axis_reduce(&mut graph, alone, ReduceOp::Add, 1)
            }
            8 => sharded_reduce(&mut graph, ReduceOp::Add, [DType::Float32, DType::Int32]),
            _ => sharded_reduce(&mut graph, ReduceOp::Mul, [DType::Float32; 2]),
        };
        assert_eq!(rewrite(&mut graph, Pass::Multi, node), node, "row {row}");
    }
}

#[test]
fn unsupported_multi_forms_are_typed_errors() {
    let mut graph = Graph::new();
    let (first, second) = (sharded(&mut graph, 0, 0), sharded(&mut graph, 1, 1));
    let plain = matrix(&mut graph, 2);
    let eight = graph.index_const(8);
    let bools = [storage(&mut graph, 3, 4, DType::Bool), storage(&mut graph, 4, 4, DType::Bool)];
    let bools = mstack(&mut graph, &bools);
    let cases = [
        (sum(&mut graph, first, second), MultiError::AxisMismatch { left: 0, right: 1 }),
        (multi(&mut graph, first, 0), MultiError::Nested),
        (
            graph.binary(Op::Reshape, DType::Float32, first, eight),
            MultiError::MovementUnsupported { operation: Operation::Reshape, axis: 0 },
        ),
        (
            flip(&mut graph, first, &[true, false]),
            MultiError::MovementUnsupported { operation: Operation::Flip, axis: 0 },
        ),
        (sum(&mut graph, first, plain), MultiError::LayoutMissing { axis: 0 }),
        (
            axis_reduce(&mut graph, first, ReduceOp::Add, 1),
            MultiError::ReductionAcrossShardAxis { axis: 0 },
        ),
        (
            sharded_reduce(&mut graph, ReduceOp::Mul, [DType::Float32; 2]),
            MultiError::ReductionAcrossShardAxis { axis: 0 },
        ),
        (
            sharded_reduce(&mut graph, ReduceOp::Add, [DType::Float32, DType::Int32]),
            MultiError::Unsupported { operation: Operation::Multi, reason: Reason::ShardsDiffer },
        ),
        (
            graph.unary(Op::AllReduce(ReduceOp::Add), DType::Bool, bools),
            MultiError::Unsupported {
                operation: Operation::AllReduce,
                reason: Reason::CollectiveDType,
            },
        ),
    ];
    for (node, expected) in cases {
        let sink = graph.sink(&[node]);
        assert_eq!(validate_supported_subset(&graph, sink), Err(expected));
    }
    assert!(reason_text(Reason::ShardsDiffer).contains("identical dtype and shape"));
    assert_eq!(reason_text(Reason::CollectiveDType), "host collective dtype is not supported");
}

#[test]
fn independent_outputs_may_have_different_single_axis_layouts() {
    let mut graph = Graph::new();
    let (first, second) = (sharded(&mut graph, 0, 0), sharded(&mut graph, 1, 1));
    let sink = graph.sink(&[first, second]);
    assert_eq!(validate_supported_subset(&graph, sink), Ok(()));
}

#[test]
fn shard_axis_reduce_emits_local_reduce_then_allreduce() {
    let cases = [(0, ReduceOp::Add, false), (1, ReduceOp::Add, true), (0, ReduceOp::Max, false)];
    for (axis, with, permuted) in cases {
        let mut graph = Graph::new();
        let shards = [matrix(&mut graph, 0), matrix(&mut graph, 1)];
        let stacked = mstack(&mut graph, &shards);
        let split = multi(&mut graph, stacked, axis);
        let leading = if permuted { permute(&mut graph, split, &[1, 0]) } else { split };
        let reduced = axis_reduce(&mut graph, leading, with, 1);
        let result = rewrite(&mut graph, Pass::Multi, reduced);
        assert_eq!(graph.op(result), Op::AllReduce(with));
        let locals = graph.source(result, 0);
        assert_eq!(graph.op(locals), Op::MStack);
        assert_eq!(graph.source_count(locals), 2);
        for (local, shard) in sources(&graph, locals).into_iter().zip(shards) {
            assert_eq!(graph.op(local), Op::AxisReduce { with, count: 1 });
            let part = graph.source(local, 0);
            if permuted {
                assert_eq!(part, permute(&mut graph, shard, &[1, 0]));
            } else {
                assert_eq!(part, shard);
            }
        }
        assert_eq!(validate_supported_subset(&graph, result), Ok(()));

        let sink = graph.sink(&[result]);
        let mut ctx = IndexingContext::new();
        for local in sources(&graph, locals) {
            let output = ctx.new_range(&mut graph, 4, AxisType::Loop);
            assert!(walk_reduction(&mut ctx, &mut graph, local, &vec![output]));
        }
        let ranged = reduce_over_ranges(&mut graph, &ctx, sink);
        let walk = graph.toposort(ranged);
        assert!(walk.iter().all(|id| !matches!(graph.op(*id), Op::AxisReduce { .. })));
        let reductions: Vec<usize> =
            walk.into_iter().filter(|id| graph.op(*id) == Op::Reduce(with)).collect();
        assert_eq!(reductions.len(), 2);
        for reduction in reductions {
            let range = graph.source(reduction, 1);
            assert!(matches!(graph.op(range), Op::Range { kind: AxisType::Reduce, .. }));
        }
    }
}

#[test]
fn reduced_precision_cast_is_restored_around_collective() {
    let mut graph = Graph::new();
    let low = [storage(&mut graph, 0, 4, DType::Float16), storage(&mut graph, 1, 4, DType::Float16)];
    let wide = [graph.cast(low[0], DType::Float32), graph.cast(low[1], DType::Float32)];
    let stacked = mstack(&mut graph, &wide);
    let split = multi(&mut graph, stacked, 0);
    let reduced = axis_reduce(&mut graph, split, ReduceOp::Add, 1);
    let result = rewrite(&mut graph, Pass::Multi, reduced);
    assert_eq!((graph.op(result), graph.dtype(result)), (Op::Cast, DType::Float32));
    let collective = graph.source(result, 0);
    assert_eq!(graph.op(collective), Op::AllReduce(ReduceOp::Add));
    let locals = graph.source(collective, 0);
    assert!(sources(&graph, locals).iter().all(|local| graph.dtype(*local) == DType::Float16));
}

#[test]
fn allreduce_lowers_to_opaque_host_call_before_program_codegen() {
    let mut graph = Graph::new();
    let (a, b) = (buffer(&mut graph, 0, 4), buffer(&mut graph, 1, 4));
    let locals =
        [axis_reduce(&mut graph, a, ReduceOp::Add, 1), axis_reduce(&mut graph, b, ReduceOp::Add, 1)];
    let stacked = mstack(&mut graph, &locals);
    let all = graph.unary(Op::AllReduce(ReduceOp::Add), DType::Float32, stacked);
    assert!(!validate_no_unresolved_allreduce(&graph, all));
    let lowered = rewrite(&mut graph, Pass::LowerCollectives, all);
    assert!(validate_no_unresolved_allreduce(&graph, lowered));
    assert_eq!(graph.op(lowered), Op::After);
    let call = graph.source(lowered, 1);
    assert_eq!(graph.op(call), Op::Call);
    let body = graph.source(call, 0);
    assert_eq!(graph.op(body), Op::Collective(ReduceOp::Add));
    let args = sources(&graph, call)[1..].to_vec();
    assert_eq!(args.len(), 3, "the output and two parts");
    assert_eq!(graph.op(args[0]), Op::Contiguous);
    assert_eq!(args[0], args[1], "the output is the first part");
    assert_eq!(graph.source_count(body), args.len());
}
