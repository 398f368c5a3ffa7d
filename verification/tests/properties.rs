//! Laws tried on every input of a small size.

use svod_schedule::collapse::{reduce_collapse, reduce_load_collapse};
use svod_schedule::fold::fold_alone;
use svod_schedule::folding::remove_bufferize;
use svod_schedule::graph::{
    AddrSpace, AxisId, AxisType, BinaryOp, ConstValue, DType, Graph, Op, ReduceOp, TernaryOp,
};
use svod_schedule::helpers::count_stages;
use svod_schedule::indexing::IndexingContext;
use svod_schedule::limits::limit_buffers;
use svod_schedule::reduce::reduce_simplify;
use svod_schedule::resolve::resolve_calls;
use svod_schedule::scalarize::apply_devectorize;
use svod_schedule::shaped::shaped_addr;
use svod_schedule::shift::{shift_range, split_marked};

fn float(graph: &mut Graph, value: f64) -> usize {
    graph.constant(ConstValue::Float(value.to_bits()), DType::Float32)
}

fn buffer(graph: &mut Graph, slot: usize, size: usize, dtype: DType) -> usize {
    graph.leaf(Op::Buffer { slot, space: AddrSpace::Global, size }, dtype)
}

fn index(graph: &mut Graph, storage: usize, at: usize) -> usize {
    let dtype = graph.dtype(storage);
    graph.binary(Op::Index, dtype, storage, at)
}

fn load(graph: &mut Graph, address: usize) -> usize {
    let dtype = graph.dtype(address);
    graph.unary(Op::Load, dtype, address)
}

fn holds(graph: &Graph, root: usize, wanted: fn(Op) -> bool) -> bool {
    graph.toposort(root).iter().any(|id| wanted(graph.op(*id)))
}

fn sum_of(graph: &mut Graph, list: &[usize]) -> usize {
    list[1..].iter().fold(list[0], |sum, term| graph.alu(BinaryOp::Add, sum, *term))
}

#[test]
fn a_gated_reduce_collapses_to_the_brute_force_count() {
    for extent in 1..24 {
        for cut in 0..24 {
            let mut graph = Graph::new();
            let range = graph.range(extent, AxisType::Reduce, 0);
            let bound = graph.index_const(cut);
            let condition = graph.binary(Op::Binary(BinaryOp::Lt), DType::Bool, range, bound);
            let (one, zero) = (float(&mut graph, 1.0), float(&mut graph, 0.0));
            let choice = Op::Ternary(TernaryOp::Where);
            let body = graph.ternary(choice, DType::Float32, condition, one, zero);
            let folded = reduce_load_collapse(&mut graph, body, range).expect("one guarded loop");
            assert!(!holds(&graph, folded, |op| matches!(op, Op::Range { .. })));
            let count = (0..extent).filter(|step| *step < cut).count() as f64;
            let expected = Op::Const(ConstValue::Float(count.to_bits()));
            assert_eq!(graph.op(folded), expected, "extent {extent} cut {cut}");
        }
    }
}

#[test]
fn an_unparented_add_scales_by_the_extent() {
    for source in -20..20 {
        for extent in 1..16 {
            let mut graph = Graph::new();
            let value = graph.constant(ConstValue::Int(source), DType::Int32);
            let range = graph.range(extent, AxisType::Reduce, 0);
            let reduce = graph.reduce(value, &[range], ReduceOp::Add);
            let folded = reduce_simplify(&mut graph, reduce).expect("the loop is not read");
            assert_eq!(fold_alone(&graph, folded), Some(ConstValue::Int(source * extent)));
        }
    }
}

#[test]
fn a_range_independent_body_collapses() {
    for op in [ReduceOp::Add, ReduceOp::Mul, ReduceOp::Max, ReduceOp::Min] {
        let mut graph = Graph::new();
        let src = graph.constant(ConstValue::Float(2.5f64.to_bits()), DType::Float64);
        let range = graph.range(100, AxisType::Reduce, 0);
        let reduce = graph.reduce(src, &[range], op);
        let result = reduce_collapse(&mut graph, reduce).expect("the loop is not read");
        assert!(!holds(&graph, result, |op| matches!(op, Op::Range { .. } | Op::Reduce(_))));
        assert_eq!(graph.dtype(result), DType::Float64, "{op:?}");
    }
}

fn value_at(graph: &Graph, id: usize, step: &dyn Fn(AxisId) -> i64) -> i64 {
    match graph.op(id) {
        Op::Const(ConstValue::Int(n)) => n,
        Op::Range { axis, .. } => step(axis),
        Op::Binary(op) => {
            let a = value_at(graph, graph.source(id, 0), step);
            let b = value_at(graph, graph.source(id, 1), step);
            match op {
                BinaryOp::Add => a + b,
                BinaryOp::Mul => a * b,
                other => panic!("unexpected {other:?}"),
            }
        }
        other => panic!("unexpected {other:?}"),
    }
}

#[test]
fn splitting_an_axis_reconstructs_every_index_exactly_once() {
    let inner_axis = AxisId::Renumbered(1);
    for outer in 1..8 {
        for factor in 2..9 {
            let extent = outer * factor;
            let mut graph = Graph::new();
            let axis = graph.range(extent, AxisType::Loop, 0);
            let by = graph.constant(ConstValue::Int(factor), graph.dtype(axis));
            let rest = graph.alu(BinaryOp::FloorMod, axis, by);
            let sink = graph.sink(&[rest, axis]);
            let split = split_marked(&mut graph, sink, inner_axis).expect("the axis is marked");
            let rebuilt = graph.source(split.root, 1);
            assert_ne!(rebuilt, axis);
            let mut values = Vec::new();
            for high in 0..outer {
                for low in 0..factor {
                    let at = |axis: AxisId| if axis == inner_axis { low } else { high };
                    values.push(value_at(&graph, rebuilt, &at));
                }
            }
            values.sort_unstable();
            assert_eq!(values, (0..extent).collect::<Vec<_>>());
        }
    }
}

#[test]
fn a_loop_without_a_mark_is_not_split() {
    let mut graph = Graph::new();
    let axis = graph.range(10, AxisType::Loop, 0);
    let by = graph.constant(ConstValue::Int(4), graph.dtype(axis));
    let rest = graph.alu(BinaryOp::FloorMod, axis, by);
    for root in [axis, rest] {
        assert_eq!(split_marked(&mut graph, root, AxisId::Renumbered(1)), None);
    }
}

#[test]
fn test_shift_to_top_order_selects_the_iteration_order() {
    let rows = [
        (false, AxisType::Global, 8, 2, AxisType::Local),
        (true, AxisType::Local, 2, 8, AxisType::Global),
    ];
    for (top, head_kind, head_extent, stride, tail_kind) in rows {
        let mut graph = Graph::new();
        let range = graph.range(16, AxisType::Global, 0);
        let root = graph.sink(&[range]);
        let axis = AxisId::Renumbered(1);
        let split = shift_range(&mut graph, root, range, 2, axis, AxisType::Local, top)
            .expect("16 % 2 == 0");
        let substituted = graph.source(split.root, 0);
        let (scaled, tail) = (graph.source(substituted, 0), graph.source(substituted, 1));
        let (head, step) = (graph.source(scaled, 0), graph.source(scaled, 1));
        assert_eq!(graph.op(step), Op::Const(ConstValue::Int(stride)));
        let is = |id: usize, wanted: AxisType| match graph.op(id) {
            Op::Range { kind, .. } => kind == wanted,
            _ => false,
        };
        assert!(is(head, head_kind) && is(tail, tail_kind));
        assert_eq!(graph.op(graph.source(head, 0)), Op::Const(ConstValue::Int(head_extent)));
    }
}

#[test]
fn buffer_limits_materialise_exactly_above_the_limit() {
    for limit in 2..10 {
        for leaves in 2..6 {
            let mut graph = Graph::new();
            let mut ctx = IndexingContext::new();
            let range = ctx.new_range(&mut graph, 16, AxisType::Loop);
            let reads: Vec<usize> = (0..=leaves)
                .map(|slot| {
                    let storage = buffer(&mut graph, slot, 16 + slot, DType::Float32);
                    index(&mut graph, storage, range)
                })
                .collect();
            let root = sum_of(&mut graph, &reads);
            assert_eq!(count_stages(&graph, root), 0);
            let result = limit_buffers(&mut graph, &mut ctx, root, limit);
            if leaves + 1 > limit - 1 {
                assert!(count_stages(&graph, result) > 0, "limit {limit} leaves {leaves}");
            } else {
                assert_eq!(result, root, "limit {limit} leaves {leaves}");
            }
            assert_eq!(graph.dtype(result), DType::Float32);
            assert!(!holds(&graph, result, |op| matches!(op, Op::Store | Op::After)));
        }
    }
}

#[test]
fn remove_bufferize_leaves_bare_arithmetic_alone() {
    for lhs in -50..50 {
        for rhs in -50..50 {
            let mut graph = Graph::new();
            let [a, b] = [lhs, rhs].map(|n| graph.constant(ConstValue::Int(n), DType::Int32));
            let root = graph.alu(BinaryOp::Add, a, b);
            assert_eq!(remove_bufferize(&mut graph, root), None);
            assert_eq!(fold_alone(&graph, root), Some(ConstValue::Int(lhs + rhs)));
        }
    }
}

#[test]
fn an_inlined_stage_is_the_compute_with_the_buffer_range_substituted() {
    for (scale, step) in [(1.0, 0.0), (2.5, 3.5), (7.75, 0.25)] {
        let mut graph = Graph::new();
        let (from, to) = (graph.global_range(8, 0), graph.global_range(8, 1));
        let zero = graph.index_const(0);
        let storage = buffer(&mut graph, 0, 8, DType::Float32);
        let other = buffer(&mut graph, 1, 8, DType::Float32);
        let (scale, step) = (float(&mut graph, scale), float(&mut graph, step));
        let free = index(&mut graph, other, zero);
        let free = load(&mut graph, free);
        let free = graph.alu(BinaryOp::Add, free, step);
        let mut compute = |graph: &mut Graph, at: usize| {
            let read = index(graph, storage, at);
            let read = load(graph, read);
            let scaled = graph.alu(BinaryOp::Mul, read, scale);
            graph.alu(BinaryOp::Add, scaled, free)
        };
        let value = compute(&mut graph, from);
        let stage = Op::Stage { space: AddrSpace::Global, removable: true };
        let staged = graph.binary(stage, DType::Float32, value, from);
        let root = index(&mut graph, staged, to);
        let inlined = remove_bufferize(&mut graph, root).expect("two storages are few");
        assert!(!holds(&graph, inlined, |op| matches!(op, Op::Stage { .. })));
        assert_eq!(inlined, compute(&mut graph, to), "the substitution itself");
    }
}

#[test]
fn resolve_calls_inlines_the_body_over_its_arguments() {
    for terms in 1..5 {
        let mut graph = Graph::new();
        let sizes = graph.index_const(8);
        let formals: Vec<usize> = (0..terms)
            .map(|slot| graph.unary(Op::Param { slot, addrspace: None }, DType::Float32, sizes))
            .collect();
        let body = sum_of(&mut graph, &formals);
        let tuple = graph.node(Op::Tuple, DType::Void, &[body]);
        let args: Vec<usize> =
            (0..terms).map(|slot| buffer(&mut graph, slot, 8, DType::Float32)).collect();
        let used = graph.led(Op::Function { precompile: false }, DType::Void, tuple, &args);
        let resolved = resolve_calls(&mut graph, used).expect("the arguments fit");
        assert!(!holds(&graph, resolved, |op| matches!(op, Op::Function { .. } | Op::Param { .. })));
        let sum = sum_of(&mut graph, &args);
        let expected = graph.node(Op::Tuple, DType::Void, &[sum]);
        assert_eq!(resolved, expected, "the substitution of the arguments itself");
    }
}

#[test]
fn devectorize_is_idempotent() {
    let dtypes =
        [DType::Float32, DType::Float16, DType::Int8, DType::Int32, DType::UInt8, DType::Bool];
    let lists: [&[i64]; 6] =
        [&[5], &[0, 1], &[63, 0, 7], &[2, 2, 2, 2], &[9, 8, 7, 6, 5], &[0, 1, 2, 3, 4, 5, 6]];
    for offsets in lists {
        for dtype in dtypes {
            for as_store in [false, true] {
                let mut graph = Graph::new();
                let dtype = if as_store { DType::Float32 } else { dtype };
                let storage = buffer(&mut graph, 0, 4096, dtype);
                let address = shaped_addr(&mut graph, storage, offsets);
                let root = if as_store {
                    let values: Vec<usize> =
                        (0..offsets.len()).map(|lane| float(&mut graph, lane as f64)).collect();
                    let value = graph.node(Op::Stack, DType::Float32, &values);
                    graph.binary(Op::Store, DType::Void, address, value)
                } else {
                    load(&mut graph, address)
                };
                let once = apply_devectorize(&mut graph, root);
                assert_eq!(apply_devectorize(&mut graph, once), once, "{offsets:?} {dtype:?}");
            }
        }
    }
}
